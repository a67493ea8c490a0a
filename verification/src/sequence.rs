//! Facts about mapping and flattening sequences.

use vstd::prelude::*;
use vstd::seq_lib::lemma_flatten_concat;

verus! {

/// Mapping and flattening distributes over concatenation.
pub proof fn lemma_flat_map_concat<A, B>(a: Seq<A>, b: Seq<A>, f: spec_fn(A) -> Seq<B>)
    ensures
        (a + b).flat_map(f) == a.flat_map(f) + b.flat_map(f),
{
    assert((a + b).map_values(f) =~= a.map_values(f) + b.map_values(f));
    lemma_flatten_concat(a.map_values(f), b.map_values(f));
}

/// One more element adds what it maps to.
pub proof fn lemma_flat_map_push<A, B>(s: Seq<A>, a: A, f: spec_fn(A) -> Seq<B>)
    ensures
        s.push(a).flat_map(f) == s.flat_map(f) + f(a),
{
    s.lemma_flat_map_push(f, a);
}

/// Every element of the flattened sequence comes from one of the mapped elements.
pub proof fn lemma_flat_map_source<A, B>(s: Seq<A>, f: spec_fn(A) -> Seq<B>, k: int) -> (source: (
    int,
    int,
))
    requires
        0 <= k < s.flat_map(f).len(),
    ensures
        0 <= source.0 < s.len(),
        0 <= source.1 < f(s[source.0]).len(),
        f(s[source.0])[source.1] == s.flat_map(f)[k],
    decreases s.len(),
{
    if s.len() == 0 {
        assert(s.map_values(f) =~= Seq::<Seq<B>>::empty());
        assert(s.flat_map(f) =~= Seq::<B>::empty());
        (0, 0)
    } else {
        let front = s.drop_last();
        assert(s =~= front.push(s.last()));
        lemma_flat_map_push(front, s.last(), f);
        if k < front.flat_map(f).len() {
            let source = lemma_flat_map_source(front, f, k);
            assert(front[source.0] == s[source.0]);
            source
        } else {
            (s.len() - 1, k - front.flat_map(f).len())
        }
    }
}

/// Every element that some element maps to is in the flattened sequence.
pub proof fn lemma_flat_map_contains<A, B>(s: Seq<A>, f: spec_fn(A) -> Seq<B>, i: int, j: int)
    requires
        0 <= i < s.len(),
        0 <= j < f(s[i]).len(),
    ensures
        s.flat_map(f).contains(f(s[i])[j]),
    decreases s.len(),
{
    let front = s.drop_last();
    assert(s =~= front.push(s.last()));
    lemma_flat_map_push(front, s.last(), f);
    if i < front.len() {
        assert(front[i] == s[i]);
        lemma_flat_map_contains(front, f, i, j);
        let k = choose|k: int| 0 <= k < front.flat_map(f).len() && front.flat_map(f)[k] == f(s[i])[j];
        assert(s.flat_map(f)[k] == f(s[i])[j]);
    } else {
        assert(s.flat_map(f)[front.flat_map(f).len() + j] == f(s[i])[j]);
    }
}

/// Nothing maps to nothing.
pub proof fn lemma_flat_map_empty<A, B>(f: spec_fn(A) -> Seq<B>)
    ensures
        Seq::<A>::empty().flat_map(f) == Seq::<B>::empty(),
{
    assert(Seq::<A>::empty().map_values(f) =~= Seq::<Seq<B>>::empty());
    assert(Seq::<A>::empty().flat_map(f) =~= Seq::<B>::empty());
}

/// Keeping and mapping distributes over one more element.
pub proof fn lemma_filter_map_push<A, B>(s: Seq<A>, a: A, f: spec_fn(A) -> Option<B>)
    ensures
        s.push(a).filter_map(f) == match f(a) {
            Some(b) => s.filter_map(f).push(b),
            None => s.filter_map(f),
        },
{
    assert(s.push(a).drop_last() =~= s);
    assert(f(a) matches Some(b) ==> s.filter_map(f) + seq![b] =~= s.filter_map(f).push(b));
}

/// Every kept element comes from one of the mapped elements.
pub proof fn lemma_filter_map_source<A, B>(s: Seq<A>, f: spec_fn(A) -> Option<B>, k: int) -> (i:
    int)
    requires
        0 <= k < s.filter_map(f).len(),
    ensures
        0 <= i < s.len(),
        f(s[i]) == Some(s.filter_map(f)[k]),
{
    let kept = s.filter_map(f)[k];
    s.lemma_filter_map_contains(f, kept);
    let source = choose|source: A| #[trigger] s.contains(source) && f(source) == Some(kept);
    choose|i: int| 0 <= i < s.len() && s[i] == source
}

/// Every kept element comes from one of the mapped elements, and what is kept before it comes
/// from the elements before that one.
pub proof fn lemma_filter_map_position<A, B>(s: Seq<A>, f: spec_fn(A) -> Option<B>, k: int) -> (i:
    int)
    requires
        0 <= k < s.filter_map(f).len(),
    ensures
        0 <= i < s.len(),
        f(s[i]) == Some(s.filter_map(f)[k]),
        s.take(i).filter_map(f) == s.filter_map(f).take(k),
    decreases s.len(),
{
    if s.len() == 0 {
        0
    } else {
        let front = s.drop_last();
        assert(s =~= front.push(s.last()));
        lemma_filter_map_push(front, s.last(), f);
        if k < front.filter_map(f).len() {
            let i = lemma_filter_map_position(front, f, k);
            assert(front[i] == s[i]);
            assert(front.take(i) =~= s.take(i));
            assert(front.filter_map(f).take(k) =~= s.filter_map(f).take(k));
            i
        } else {
            assert(s.take(s.len() - 1) =~= front);
            assert(s.filter_map(f).take(k) =~= front.filter_map(f));
            s.len() - 1
        }
    }
}

/// Every element that maps to something is kept.
pub proof fn lemma_filter_map_keeps<A, B>(s: Seq<A>, f: spec_fn(A) -> Option<B>, i: int)
    requires
        0 <= i < s.len(),
        f(s[i]) is Some,
    ensures
        s.filter_map(f).contains(f(s[i])->0),
    decreases s.len(),
{
    let front = s.drop_last();
    assert(s =~= front.push(s.last()));
    lemma_filter_map_push(front, s.last(), f);
    let kept = front.filter_map(f);
    if i < front.len() {
        assert(front[i] == s[i]);
        lemma_filter_map_keeps(front, f, i);
        let k = choose|k: int| 0 <= k < kept.len() && kept[k] == f(s[i])->0;
        assert(s.filter_map(f)[k] == kept[k]);
    } else {
        assert(s.filter_map(f)[kept.len() as int] == f(s[i])->0);
    }
}

/// Keeping some elements distributes over one more element.
pub proof fn lemma_filter_push<A>(s: Seq<A>, a: A, keep: spec_fn(A) -> bool)
    ensures
        s.push(a).filter(keep) == if keep(a) {
            s.filter(keep).push(a)
        } else {
            s.filter(keep)
        },
{
    s.lemma_filter_push(a, keep);
}

/// Keeping some elements of a sequence without duplicates leaves no duplicates.
pub proof fn lemma_filter_no_duplicates<A>(s: Seq<A>, keep: spec_fn(A) -> bool)
    requires
        s.no_duplicates(),
    ensures
        s.filter(keep).no_duplicates(),
    decreases s.len(),
{
    if s.len() > 0 {
        let front = s.drop_last();
        assert(s =~= front.push(s.last()));
        lemma_filter_push(front, s.last(), keep);
        lemma_filter_no_duplicates(front, keep);
        if front.filter(keep).contains(s.last()) {
            front.lemma_filter_contains_rev(keep, s.last());
            let i = choose|i: int| 0 <= i < front.len() && front[i] == s.last();
            assert(s[i] == s[s.len() - 1]);
        }
    } else {
        reveal(Seq::filter);
    }
}

/// A sequence without duplicates whose elements lie in a finite set is no longer than the set.
pub proof fn lemma_distinct_len<A>(s: Seq<A>, set: Set<A>)
    requires
        s.no_duplicates(),
        set.finite(),
        forall|i: int| 0 <= i < s.len() ==> set.contains(#[trigger] s[i]),
    ensures
        s.len() <= set.len(),
{
    s.unique_seq_to_set();
    assert(s.to_set().subset_of(set));
    vstd::set_lib::lemma_len_subset(s.to_set(), set);
}

/// Keeping and mapping loses nothing where every element maps to one.
pub proof fn lemma_filter_map_all<A, B>(s: Seq<A>, f: spec_fn(A) -> Option<B>, g: spec_fn(B) -> A, t:
    Seq<B>)
    requires
        s == t.map_values(g),
        forall|i: int| 0 <= i < t.len() ==> f(g(#[trigger] t[i])) == Some(t[i]),
    ensures
        s.filter_map(f) == t,
    decreases t.len(),
{
    if t.len() > 0 {
        let front = t.drop_last();
        assert(s =~= front.map_values(g).push(g(t.last())));
        assert forall|i: int| 0 <= i < front.len() implies f(g(#[trigger] front[i])) == Some(
            front[i],
        ) by {
            assert(front[i] == t[i]);
        }
        lemma_filter_map_all(front.map_values(g), f, g, front);
        lemma_filter_map_push(front.map_values(g), g(t.last()), f);
        assert(f(g(t[t.len() - 1])) == Some(t[t.len() - 1]));
        assert(front.push(t.last()) =~= t);
    } else {
        assert(s.filter_map(f) =~= t);
    }
}

/// Nothing is left out where every element is to be kept.
pub proof fn lemma_filter_keeps_all<A>(s: Seq<A>, keep: spec_fn(A) -> bool)
    requires
        forall|i: int| 0 <= i < s.len() ==> keep(#[trigger] s[i]),
    ensures
        s.filter(keep) == s,
    decreases s.len(),
{
    if s.len() > 0 {
        let front = s.drop_last();
        assert forall|i: int| 0 <= i < front.len() implies keep(#[trigger] front[i]) by {
            assert(front[i] == s[i]);
        }
        lemma_filter_keeps_all(front, keep);
        assert(s =~= front.push(s.last()));
        lemma_filter_push(front, s.last(), keep);
        assert(keep(s[s.len() - 1]));
    } else {
        reveal(Seq::filter);
    }
}

/// What is kept stays in its order.
pub proof fn lemma_filter_order<A>(s: Seq<A>, keep: spec_fn(A) -> bool, i: int, j: int) -> (at: (
    int,
    int,
))
    requires
        0 <= i < j < s.len(),
        keep(s[i]),
        keep(s[j]),
    ensures
        0 <= at.0 < at.1 < s.filter(keep).len(),
        s.filter(keep)[at.0] == s[i],
        s.filter(keep)[at.1] == s[j],
    decreases s.len(),
{
    let front = s.drop_last();
    assert(s =~= front.push(s.last()));
    lemma_filter_push(front, s.last(), keep);
    if j < front.len() {
        let at = lemma_filter_order(front, keep, i, j);
        assert(front[i] == s[i] && front[j] == s[j]);
        at
    } else {
        assert(front[i] == s[i]);
        front.lemma_filter_contains(keep, i);
        let a = choose|a: int| 0 <= a < front.filter(keep).len() && front.filter(keep)[a] == s[i];
        (a, front.filter(keep).len() as int)
    }
}

/// Of two elements of a flattened sequence the earlier one comes from an earlier element, or from
/// an earlier position of the same.
pub proof fn lemma_flat_map_order<A, B>(s: Seq<A>, f: spec_fn(A) -> Seq<B>, a: int, b: int) -> (
    sources: ((int, int), (int, int)))
    requires
        0 <= a < b < s.flat_map(f).len(),
    ensures
        ({
            let (x, y) = sources;
            &&& 0 <= x.0 < s.len()
            &&& 0 <= x.1 < f(s[x.0]).len()
            &&& f(s[x.0])[x.1] == s.flat_map(f)[a]
            &&& 0 <= y.0 < s.len()
            &&& 0 <= y.1 < f(s[y.0]).len()
            &&& f(s[y.0])[y.1] == s.flat_map(f)[b]
            &&& x.0 < y.0 || (x.0 == y.0 && x.1 < y.1)
        }),
    decreases s.len(),
{
    if s.len() == 0 {
        lemma_flat_map_empty(f);
        assert(s =~= Seq::empty());
        ((0, 0), (0, 0))
    } else {
        let front = s.drop_last();
        assert(s =~= front.push(s.last()));
        lemma_flat_map_push(front, s.last(), f);
        let len = front.flat_map(f).len() as int;
        if b < len {
            let (x, y) = lemma_flat_map_order(front, f, a, b);
            assert(front[x.0] == s[x.0] && front[y.0] == s[y.0]);
            (x, y)
        } else if a < len {
            let x = lemma_flat_map_source(front, f, a);
            assert(front[x.0] == s[x.0]);
            (x, (s.len() - 1, b - len))
        } else {
            ((s.len() - 1, a - len), (s.len() - 1, b - len))
        }
    }
}

/// Two ways to choose that agree on every element keep the same ones.
pub proof fn lemma_filters_agree<A>(s: Seq<A>, a: spec_fn(A) -> bool, b: spec_fn(A) -> bool)
    requires
        forall|x: A| #[trigger] a(x) == b(x),
    ensures
        s.filter(a) == s.filter(b),
    decreases s.len(),
{
    if s.len() > 0 {
        let front = s.drop_last();
        assert(s =~= front.push(s.last()));
        lemma_filters_agree(front, a, b);
        lemma_filter_push(front, s.last(), a);
        lemma_filter_push(front, s.last(), b);
        assert(a(s.last()) == b(s.last()));
    } else {
        reveal(Seq::filter);
    }
}

} // verus!

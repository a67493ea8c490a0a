//! A small map from keys to values.

use vstd::prelude::*;

verus! {

/// A type whose values can key a [`Table`]: what a key stands for is all that matters of it.
pub trait Key: View + Sized {
    fn same(&self, other: &Self) -> (same: bool)
        ensures
            same == (self@ == other@),
    ;

    fn copy(&self) -> (copy: Self)
        ensures
            copy@ == self@,
    ;
}

/// Maps keys to values; a key is in the table at most once.
#[derive(Debug)]
pub struct Table<K: Key, V> {
    entries: Vec<(K, V)>,
}

/// The values by key; of two values with one key the later one counts.
spec fn by_key<K: Key, V>(entries: Seq<(K, V)>) -> Map<K::V, V>
    decreases entries.len(),
{
    if entries.len() == 0 {
        Map::empty()
    } else {
        by_key(entries.drop_last()).insert(entries.last().0@, entries.last().1)
    }
}

spec fn distinct_keys<K: Key, V>(entries: Seq<(K, V)>) -> bool {
    forall|i: int, j: int|
        0 <= i < j < entries.len() ==> (#[trigger] entries[i]).0@ != (#[trigger] entries[j]).0@
}

proof fn lemma_by_key<K: Key, V>(entries: Seq<(K, V)>)
    requires
        distinct_keys(entries),
    ensures
        by_key(entries).dom().finite(),
        forall|i: int|
            0 <= i < entries.len() ==> by_key(entries).contains_key((#[trigger] entries[i]).0@)
                && by_key(entries)[entries[i].0@] == entries[i].1,
        forall|key: K::V| #[trigger]
            by_key(entries).contains_key(key) ==> exists|i: int|
                0 <= i < entries.len() && (#[trigger] entries[i]).0@ == key,
    decreases entries.len(),
{
    if entries.len() > 0 {
        let front = entries.drop_last();
        assert forall|i: int, j: int| 0 <= i < j < front.len() implies (#[trigger] front[i]).0@ != (
        #[trigger] front[j]).0@ by {
            assert(entries[i].0@ != entries[j].0@);
        }
        lemma_by_key(front);
        assert forall|i: int| 0 <= i < entries.len() implies by_key(entries).contains_key(
            (#[trigger] entries[i]).0@,
        ) && by_key(entries)[entries[i].0@] == entries[i].1 by {
            if i < front.len() {
                assert(front[i] == entries[i]);
                assert(entries[i].0@ != entries[entries.len() - 1].0@);
            }
        }
        assert forall|key: K::V| #[trigger] by_key(entries).contains_key(key) implies exists|i: int|
            0 <= i < entries.len() && (#[trigger] entries[i]).0@ == key by {
            if by_key(front).contains_key(key) {
                let i = choose|i: int| 0 <= i < front.len() && (#[trigger] front[i]).0@ == key;
                assert(entries[i].0@ == key);
            } else {
                assert(entries[entries.len() - 1].0@ == key);
            }
        }
    }
}

/// Taking one entry out takes its key out.
proof fn lemma_by_key_remove<K: Key, V>(entries: Seq<(K, V)>, i: int)
    requires
        distinct_keys(entries),
        0 <= i < entries.len(),
    ensures
        distinct_keys(entries.remove(i)),
        by_key(entries.remove(i)) == by_key(entries).remove(entries[i].0@),
{
    let rest = entries.remove(i);
    assert forall|a: int, b: int| 0 <= a < b < rest.len() implies (#[trigger] rest[a]).0@ != (
    #[trigger] rest[b]).0@ by {
        let a0 = if a < i { a } else { a + 1 };
        let b0 = if b < i { b } else { b + 1 };
        assert(rest[a] == entries[a0] && rest[b] == entries[b0]);
    }
    lemma_by_key(entries);
    lemma_by_key(rest);
    let expected = by_key(entries).remove(entries[i].0@);
    assert forall|key: K::V| #[trigger] expected.contains_key(key) implies by_key(
        rest,
    ).contains_key(key) && by_key(rest)[key] == expected[key] by {
        let k0 = choose|k: int| 0 <= k < entries.len() && (#[trigger] entries[k]).0@ == key;
        let k = if k0 < i { k0 } else { k0 - 1 };
        assert(rest[k] == entries[k0]);
    }
    assert forall|key: K::V| #[trigger] by_key(rest).contains_key(key) implies expected.contains_key(
        key,
    ) by {
        let k = choose|k: int| 0 <= k < rest.len() && (#[trigger] rest[k]).0@ == key;
        let k0 = if k < i { k } else { k + 1 };
        assert(rest[k] == entries[k0]);
        assert(entries[k0].0@ != entries[i].0@);
    }
    assert(by_key(rest) =~= expected);
}

/// What the keys of a sequence stand for.
pub open spec fn key_views<K: Key>(keys: Seq<K>) -> Seq<K::V> {
    keys.map_values(|key: K| key@)
}

impl<K: Key, V> View for Table<K, V> {
    type V = Map<K::V, V>;

    closed spec fn view(&self) -> Map<K::V, V> {
        by_key(self.entries@)
    }
}

impl<K: Key, V> Table<K, V> {
    #[verifier::type_invariant]
    spec fn well_formed(&self) -> bool {
        distinct_keys(self.entries@)
    }

    /// An empty table.
    pub fn new() -> (table: Self)
        ensures
            table@ == Map::<K::V, V>::empty(),
    {
        let entries: Vec<(K, V)> = Vec::new();
        Table { entries }
    }

    /// The value for `key`.
    pub fn get(&self, key: &K) -> (value: Option<&V>)
        ensures
            match value {
                Some(value) => self@.contains_key(key@) && *value == self@[key@],
                None => !self@.contains_key(key@),
            },
    {
        proof {
            use_type_invariant(self);
            lemma_by_key(self.entries@);
        }
        let mut i: usize = 0;
        while i < self.entries.len()
            invariant
                i <= self.entries.len(),
                forall|k: int| 0 <= k < i ==> (#[trigger] self.entries@[k]).0@ != key@,
                forall|k: int|
                    0 <= k < self.entries@.len() ==> self@.contains_key(
                        (#[trigger] self.entries@[k]).0@,
                    ) && self@[self.entries@[k].0@] == self.entries@[k].1,
            decreases self.entries.len() - i,
        {
            if self.entries[i].0.same(key) {
                assert(self.entries@[i as int].0@ == key@);
                return Some(&self.entries[i].1);
            }
            i = i + 1;
        }
        None
    }

    /// Takes out the entry for `key` and gives its value back.
    pub fn remove(&mut self, key: &K) -> (value: Option<V>)
        ensures
            final(self)@ == old(self)@.remove(key@),
            match value {
                Some(value) => old(self)@.contains_key(key@) && value == old(self)@[key@],
                None => !old(self)@.contains_key(key@),
            },
    {
        proof {
            use_type_invariant(&*self);
            lemma_by_key(self.entries@);
        }
        let ghost table = self@;
        let ghost all = self.entries@;
        let mut entries: Vec<(K, V)> = Vec::new();
        std::mem::swap(&mut entries, &mut self.entries);
        let mut i: usize = 0;
        while i < entries.len()
            invariant
                i <= entries.len(),
                entries@ == all,
                distinct_keys(all),
                table == by_key(all),
                table == old(self)@,
                forall|k: int| 0 <= k < i ==> (#[trigger] all[k]).0@ != key@,
                forall|k: int|
                    0 <= k < all.len() ==> table.contains_key((#[trigger] all[k]).0@)
                        && table[all[k].0@] == all[k].1,
            decreases entries.len() - i,
        {
            if entries[i].0.same(key) {
                proof {
                    lemma_by_key_remove(all, i as int);
                    assert(all[i as int].0@ == key@);
                }
                let entry: (K, V) = entries.remove(i);
                self.entries = entries;
                return Some(entry.1);
            }
            i = i + 1;
        }
        self.entries = entries;
        assert(table.remove(key@) =~= table);
        None
    }

    /// Makes `value` the value for `key` and gives the value that it had back.
    pub fn insert(&mut self, key: K, value: V) -> (previous: Option<V>)
        ensures
            final(self)@ == old(self)@.insert(key@, value),
            match previous {
                Some(previous) => old(self)@.contains_key(key@) && previous == old(self)@[key@],
                None => !old(self)@.contains_key(key@),
            },
    {
        let ghost table = self@;
        let previous: Option<V> = self.remove(&key);
        proof {
            use_type_invariant(&*self);
            lemma_by_key(self.entries@);
        }
        let ghost rest = self.entries@;
        let mut entries: Vec<(K, V)> = Vec::new();
        std::mem::swap(&mut entries, &mut self.entries);
        entries.push((key, value));
        proof {
            assert(entries@.drop_last() =~= rest);
            assert(by_key(entries@) =~= table.insert(key@, value));
            assert forall|i: int, j: int| 0 <= i < j < entries@.len() implies (
            #[trigger] entries@[i]).0@ != (#[trigger] entries@[j]).0@ by {
                if j < rest.len() {
                    assert(rest[i].0@ != rest[j].0@);
                } else {
                    assert(by_key(rest).contains_key(rest[i].0@));
                }
            }
        }
        self.entries = entries;
        previous
    }

    /// The keys of the table.
    pub fn keys(&self) -> (keys: Vec<K>)
        ensures
            key_views(keys@).to_set() == self@.dom(),
            key_views(keys@).no_duplicates(),
            self@.dom().finite(),
    {
        proof {
            use_type_invariant(self);
            lemma_by_key(self.entries@);
        }
        let mut keys: Vec<K> = Vec::new();
        let mut i: usize = 0;
        while i < self.entries.len()
            invariant
                i <= self.entries.len(),
                keys@.len() == i,
                forall|k: int| 0 <= k < i ==> (#[trigger] keys@[k])@ == self.entries@[k].0@,
            decreases self.entries.len() - i,
        {
            keys.push(self.entries[i].0.copy());
            i = i + 1;
        }
        proof {
            let views = key_views(keys@);
            assert forall|k: int| 0 <= k < views.len() implies #[trigger] views[k]
                == self.entries@[k].0@ by {
                assert(keys@[k]@ == self.entries@[k].0@);
            }
            assert forall|key: K::V| self@.dom().contains(key) implies views.to_set().contains(
                key,
            ) by {
                assert(self@.contains_key(key));
                let k = choose|k: int|
                    0 <= k < self.entries@.len() && (#[trigger] self.entries@[k]).0@ == key;
                assert(views[k] == key);
            }
            assert forall|key: K::V| views.to_set().contains(key) implies self@.dom().contains(
                key,
            ) by {
                let k = choose|k: int| 0 <= k < views.len() && views[k] == key;
                assert(self@.contains_key(self.entries@[k].0@));
            }
            assert(views.to_set() =~= self@.dom());
            assert forall|a: int, b: int|
                0 <= a < views.len() && 0 <= b < views.len() && a != b implies views[a]
                != views[b] by {
                if a < b {
                    assert(self.entries@[a].0@ != self.entries@[b].0@);
                } else {
                    assert(self.entries@[b].0@ != self.entries@[a].0@);
                }
            }
        }
        keys
    }
}

} // verus!

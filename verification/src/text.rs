//! Helpers on text: splitting, joining and searching character sequences.

use vstd::prelude::*;

verus! {

/// `String::push` puts the given character behind the text that the string holds and leaves that
/// text as it is.
pub assume_specification[ String::push ](string: &mut String, c: char)
    ensures
        final(string)@ == old(string)@.push(c),
;

/// The texts of a sequence of strings.
pub open spec fn texts(strings: Seq<String>) -> Seq<Seq<char>> {
    strings.map_values(|s: String| s@)
}

/// Whether `c` separates path components: `/` always does, `\` only where `backslash` holds.
pub open spec fn separates(backslash: bool, c: char) -> bool {
    c == '/' || (backslash && c == '\\')
}

/// A slash separates components on every platform, a backslash only where it is one, and nothing
/// else does.
pub proof fn slashes_separate(backslash: bool, c: char)
    ensures
        separates(backslash, '/'),
        separates(true, '\\'),
        !separates(false, '\\'),
        c != '/' && c != '\\' ==> !separates(backslash, c),
{
}

/// The pieces of `s` between its separators, empty ones kept; there is always one more piece
/// than there are separators.
pub open spec fn split(s: Seq<char>, backslash: bool) -> Seq<Seq<char>>
    decreases s.len(),
{
    if s.len() == 0 {
        seq![s]
    } else {
        let before = split(s.drop_last(), backslash);
        if separates(backslash, s.last()) {
            before.push(Seq::empty())
        } else {
            before.drop_last().push(before.last().push(s.last()))
        }
    }
}

/// The pieces put one after the other with `separator` between neighbours.
pub open spec fn join(pieces: Seq<Seq<char>>, separator: char) -> Seq<char>
    decreases pieces.len(),
{
    if pieces.len() == 0 {
        Seq::empty()
    } else if pieces.len() == 1 {
        pieces[0]
    } else {
        join(pieces.drop_last(), separator).push(separator) + pieces.last()
    }
}

/// Whether no character of `s` is a separator.
pub open spec fn separator_free(s: Seq<char>, backslash: bool) -> bool {
    forall|i: int| 0 <= i < s.len() ==> !separates(backslash, #[trigger] s[i])
}

pub proof fn lemma_split_nonempty(s: Seq<char>, backslash: bool)
    ensures
        split(s, backslash).len() >= 1,
    decreases s.len(),
{
    if s.len() > 0 {
        lemma_split_nonempty(s.drop_last(), backslash);
    }
}

/// Every piece that `split` yields is free of separators.
pub proof fn lemma_split_separator_free(s: Seq<char>, backslash: bool)
    ensures
        forall|i: int|
            0 <= i < split(s, backslash).len() ==> separator_free(
                #[trigger] split(s, backslash)[i],
                backslash,
            ),
    decreases s.len(),
{
    if s.len() > 0 {
        lemma_split_nonempty(s.drop_last(), backslash);
        lemma_split_separator_free(s.drop_last(), backslash);
    }
}

/// Text without a separator is its own only piece.
pub proof fn lemma_split_of_piece(s: Seq<char>, backslash: bool)
    requires
        separator_free(s, backslash),
    ensures
        split(s, backslash) == seq![s],
    decreases s.len(),
{
    if s.len() > 0 {
        assert(separator_free(s.drop_last(), backslash));
        lemma_split_of_piece(s.drop_last(), backslash);
        assert(s.drop_last().push(s.last()) =~= s);
        assert(split(s, backslash) =~= seq![s]);
    }
}

/// A separator followed by a piece adds exactly that piece.
pub proof fn lemma_split_append_piece(
    front: Seq<char>,
    separator: char,
    piece: Seq<char>,
    backslash: bool,
)
    requires
        separates(backslash, separator),
        separator_free(piece, backslash),
    ensures
        split(front.push(separator) + piece, backslash) == split(front, backslash).push(piece),
    decreases piece.len(),
{
    let whole = front.push(separator) + piece;
    if piece.len() == 0 {
        assert(whole =~= front.push(separator));
        assert(whole.drop_last() =~= front);
        assert(piece =~= Seq::empty());
    } else {
        assert(whole.drop_last() =~= front.push(separator) + piece.drop_last());
        assert(separator_free(piece.drop_last(), backslash));
        lemma_split_append_piece(front, separator, piece.drop_last(), backslash);
        assert(whole.last() == piece.last());
        let before = split(whole.drop_last(), backslash);
        assert(before.drop_last() =~= split(front, backslash));
        assert(before.last().push(whole.last()) =~= piece);
    }
}

/// Splitting joined pieces gives the pieces back.
pub proof fn lemma_split_of_join(pieces: Seq<Seq<char>>, separator: char, backslash: bool)
    requires
        pieces.len() > 0,
        separates(backslash, separator),
        forall|i: int| 0 <= i < pieces.len() ==> separator_free(#[trigger] pieces[i], backslash),
    ensures
        split(join(pieces, separator), backslash) == pieces,
    decreases pieces.len(),
{
    if pieces.len() == 1 {
        lemma_split_of_piece(pieces[0], backslash);
        assert(pieces =~= seq![pieces[0]]);
    } else {
        let front = pieces.drop_last();
        assert forall|i: int| 0 <= i < front.len() implies separator_free(
            #[trigger] front[i],
            backslash,
        ) by {
            assert(front[i] == pieces[i]);
        }
        lemma_split_of_join(front, separator, backslash);
        lemma_split_append_piece(join(front, separator), separator, pieces.last(), backslash);
        assert(front.push(pieces.last()) =~= pieces);
    }
}

/// Pieces that are joined stand one after the other, each but the first behind a separator.
pub proof fn joined_pieces_follow_each_other(
    pieces: Seq<Seq<char>>,
    piece: Seq<char>,
    separator: char,
)
    ensures
        join(Seq::empty(), separator) == Seq::<char>::empty(),
        join(seq![piece], separator) == piece,
        pieces.len() > 0 ==> join(pieces.push(piece), separator) == join(pieces, separator)
            + seq![separator] + piece,
{
    if pieces.len() > 0 {
        assert(pieces.push(piece).drop_last() =~= pieces);
        assert(join(pieces, separator).push(separator) =~= join(pieces, separator)
            + seq![separator]);
    }
}

/// Splits `s` at its separators, keeping empty pieces.
pub fn split_text(s: &str, backslash: bool) -> (pieces: Vec<String>)
    ensures
        texts(pieces@) == split(s@, backslash),
{
    let mut pieces: Vec<String> = Vec::new();
    let mut start: usize = 0;
    let mut end: usize = 0;
    let len: usize = s.unicode_len();
    assert(split(s@.take(0), backslash) =~= texts(pieces@).push(s@.subrange(0, 0)));
    while end < len
        invariant
            start <= end <= len,
            len == s@.len(),
            split(s@.take(end as int), backslash) == texts(pieces@).push(
                s@.subrange(start as int, end as int),
            ),
        decreases len - end,
    {
        let c = s.get_char(end);
        let ghost before = texts(pieces@);
        let ghost piece = s@.subrange(start as int, end as int);
        proof {
            assert(s@.take(end + 1).drop_last() =~= s@.take(end as int));
            assert(before.push(piece).drop_last() =~= before);
        }
        if c == '/' || (backslash && c == '\\') {
            pieces.push(s.substring_char(start, end).to_owned());
            start = end + 1;
            proof {
                assert(texts(pieces@) =~= before.push(piece));
                assert(s@.subrange(start as int, end + 1) =~= Seq::<char>::empty());
            }
        } else {
            proof {
                assert(s@.subrange(start as int, end + 1) =~= piece.push(c));
            }
        }
        end = end + 1;
    }
    let ghost before = texts(pieces@);
    pieces.push(s.substring_char(start, len).to_owned());
    proof {
        assert(s@.take(len as int) =~= s@);
        assert(texts(pieces@) =~= before.push(s@.subrange(start as int, len as int)));
    }
    pieces
}

/// The position of the last `c` in `s`, or -1 where it does not occur.
pub open spec fn last_position(s: Seq<char>, c: char) -> int
    decreases s.len(),
{
    if s.len() == 0 {
        -1
    } else if s.last() == c {
        s.len() - 1
    } else {
        last_position(s.drop_last(), c)
    }
}

/// The last position of a character holds it, and no later one does; where the character does not
/// occur there is no position.
pub proof fn last_position_is_the_last_one(s: Seq<char>, c: char)
    ensures
        -1 <= last_position(s, c) < s.len(),
        last_position(s, c) >= 0 ==> s[last_position(s, c)] == c,
        forall|i: int| last_position(s, c) < i < s.len() ==> #[trigger] s[i] != c,
    decreases s.len(),
{
    if s.len() > 0 && s.last() != c {
        let front = s.drop_last();
        last_position_is_the_last_one(front, c);
        assert forall|i: int| last_position(s, c) < i < s.len() implies #[trigger] s[i] != c by {
            if i < front.len() {
                assert(front[i] == s[i]);
            }
        }
    }
}

/// Whether two texts hold the same characters.
pub fn same_text(a: &str, b: &str) -> (same: bool)
    ensures
        same == (a@ == b@),
{
    let left: String = a.to_owned();
    let right: String = b.to_owned();
    left == right
}

/// The character that stands for a digit.
pub open spec fn digit(d: nat) -> char {
    if d == 0 {
        '0'
    } else if d == 1 {
        '1'
    } else if d == 2 {
        '2'
    } else if d == 3 {
        '3'
    } else if d == 4 {
        '4'
    } else if d == 5 {
        '5'
    } else if d == 6 {
        '6'
    } else if d == 7 {
        '7'
    } else if d == 8 {
        '8'
    } else {
        '9'
    }
}

/// A number in decimal notation.
pub open spec fn decimal(n: nat) -> Seq<char>
    decreases n,
{
    if n < 10 {
        seq![digit(n)]
    } else {
        decimal(n / 10).push(digit(n % 10))
    }
}

/// A number of one digit is written with the character at that distance from `0`, and every
/// further digit stands behind those before it.
pub proof fn numbers_are_written_digit_by_digit(n: nat, d: nat)
    requires
        d < 10,
    ensures
        decimal(d).len() == 1,
        decimal(d)[0] as u32 == '0' as u32 + d,
        n > 0 ==> decimal(10 * n + d) == decimal(n) + decimal(d),
{
    if n > 0 {
        assert((10 * n + d) / 10 == n && (10 * n + d) % 10 == d);
        assert(decimal(n).push(digit(d)) =~= decimal(n) + seq![digit(d)]);
    }
}

/// The character that stands for a digit.
fn digit_char(d: usize) -> (c: char)
    requires
        d < 10,
    ensures
        c == digit(d as nat),
{
    match d {
        0 => '0',
        1 => '1',
        2 => '2',
        3 => '3',
        4 => '4',
        5 => '5',
        6 => '6',
        7 => '7',
        8 => '8',
        _ => '9',
    }
}

/// A number in decimal notation.
pub fn decimal_text(n: usize) -> (written: String)
    ensures
        written@ == decimal(n as nat),
    decreases n,
{
    if n < 10 {
        let mut written: String = "".to_owned();
        proof {
            reveal_strlit("");
        }
        written.push(digit_char(n));
        assert(written@ =~= seq![digit(n as nat)]);
        written
    } else {
        let mut written: String = decimal_text(n / 10);
        written.push(digit_char(n % 10));
        written
    }
}

} // verus!

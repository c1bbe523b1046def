//! Character-sequence helpers shared by the parsers and the renderer.
//!
//! Text is handled as `Vec<char>` inside the library, so that contracts can
//! speak of `Seq<char>` directly; `String` appears only at the public edge.

use vstd::prelude::*;
use vstd::std_specs::iter::IteratorSpec;

verus! {

/// Copies the characters of `s` into a vector.
pub fn chars_of(s: &str) -> (v: Vec<char>)
    ensures
        v@ == s@,
{
    let mut v: Vec<char> = Vec::new();
    for c in it: s.chars()
        invariant
            v@ == it.seq().take(it.index() as int),
            it.seq() == s@,
    {
        v.push(c);
    }
    v
}

/// `String::push` of the standard library: the string grows by exactly the
/// given character, at its end.
#[verifier::external_body]
fn push_char(s: &mut String, c: char)
    ensures
        final(s)@ == old(s)@.push(c),
{
    s.push(c)
}

/// Builds the string whose characters are those of `v`.
pub fn string_of(v: &Vec<char>) -> (s: String)
    ensures
        s@ == v@,
{
    let mut s = String::new();
    let mut i: usize = 0;
    while i < v.len()
        invariant
            i <= v.len(),
            s@ == v@.take(i as int),
        decreases v.len() - i,
    {
        push_char(&mut s, v[i]);
        i += 1;
        assert(v@.take(i as int) == v@.take(i - 1).push(v@[i - 1]));
    }
    assert(v@.take(v.len() as int) == v@);
    s
}

/// Appends the characters of `src` to `out`.
pub fn extend(out: &mut Vec<char>, src: &Vec<char>)
    ensures
        final(out)@ == old(out)@ + src@,
{
    let mut i: usize = 0;
    while i < src.len()
        invariant
            i <= src.len(),
            out@ == old(out)@ + src@.take(i as int),
        decreases src.len() - i,
    {
        out.push(src[i]);
        i += 1;
        assert(src@.take(i as int) == src@.take(i - 1).push(src@[i - 1]));
    }
    assert(src@.take(src.len() as int) == src@);
}

/// Appends the characters of `s` to `out`.
pub fn extend_str(out: &mut Vec<char>, s: &str)
    ensures
        final(out)@ == old(out)@ + s@,
{
    let v = chars_of(s);
    extend(out, &v);
}

/// Whether two character vectors hold the same text.
pub fn same_chars(a: &Vec<char>, b: &Vec<char>) -> (r: bool)
    ensures
        r == (a@ == b@),
{
    if a.len() != b.len() {
        return false;
    }
    let mut i: usize = 0;
    while i < a.len()
        invariant
            i <= a.len(),
            a.len() == b.len(),
            a@.take(i as int) == b@.take(i as int),
        decreases a.len() - i,
    {
        if a[i] != b[i] {
            return false;
        }
        i += 1;
        assert(a@.take(i as int) == a@.take(i - 1).push(a@[i - 1]));
        assert(b@.take(i as int) == b@.take(i - 1).push(b@[i - 1]));
    }
    assert(a@.take(a.len() as int) == a@);
    assert(b@.take(b.len() as int) == b@);
    true
}

/// The index of the first `c` in `s`, or `s.len()` where `s` holds none.
pub open spec fn find_char(s: Seq<char>, c: char) -> int
    decreases s.len(),
{
    if s.len() == 0 || s[0] == c {
        0
    } else {
        1 + find_char(s.drop_first(), c)
    }
}

/// `find_char` stays within `s`, stops on a `c`, and passes over none.
pub proof fn lemma_find_char(s: Seq<char>, c: char)
    ensures
        0 <= find_char(s, c) <= s.len(),
        find_char(s, c) < s.len() ==> s[find_char(s, c)] == c,
        forall|i: int| 0 <= i < find_char(s, c) ==> s[i] != c,
    decreases s.len(),
{
    if s.len() == 0 || s[0] == c {
    } else {
        let t = s.drop_first();
        lemma_find_char(t, c);
        assert forall|i: int| 0 <= i < find_char(s, c) implies s[i] != c by {
            if i > 0 {
                assert(s[i] == t[i - 1]);
            }
        }
        if find_char(s, c) < s.len() {
            assert(s[find_char(s, c)] == t[find_char(t, c)]);
        }
    }
}

/// An index that stops on a `c`, or at the end, and passes over none is the
/// one that `find_char` gives.
pub proof fn lemma_find_char_is(s: Seq<char>, c: char, k: int)
    requires
        0 <= k <= s.len(),
        forall|i: int| 0 <= i < k ==> s[i] != c,
        k < s.len() ==> s[k] == c,
    ensures
        find_char(s, c) == k,
{
    lemma_find_char(s, c);
    let e = find_char(s, c);
    if e < k {
        assert(s[e] != c);
    } else if k < e {
        assert(s[k] != c);
    }
}

/// The position of the first `c` in `v` at or after `start`, or `v.len()`.
pub fn find_from(v: &Vec<char>, start: usize, c: char) -> (end: usize)
    requires
        start <= v.len(),
    ensures
        start <= end <= v.len(),
        end - start == find_char(v@.skip(start as int), c),
        end < v.len() ==> v@[end as int] == c,
{
    let mut j = start;
    while j < v.len() && v[j] != c
        invariant
            start <= j <= v.len(),
            forall|i: int| start <= i < j ==> v@[i] != c,
        decreases v.len() - j,
    {
        j += 1;
    }
    proof {
        let s = v@.skip(start as int);
        assert forall|i: int| 0 <= i < j - start implies s[i] != c by {
            assert(s[i] == v@[start + i]);
        }
        lemma_find_char_is(s, c, j - start);
    }
    j
}

/// The characters of `v` from `from` up to `to`.
pub fn slice(v: &Vec<char>, from: usize, to: usize) -> (r: Vec<char>)
    requires
        from <= to <= v.len(),
    ensures
        r@ == v@.subrange(from as int, to as int),
{
    let mut r: Vec<char> = Vec::new();
    let mut i = from;
    while i < to
        invariant
            from <= i <= to <= v.len(),
            r@ == v@.subrange(from as int, i as int),
        decreases to - i,
    {
        r.push(v[i]);
        i += 1;
        assert(v@.subrange(from as int, i as int) == v@.subrange(from as int, i - 1).push(
            v@[i - 1],
        ));
    }
    r
}

/// The texts that the vectors of `lines` hold.
pub open spec fn line_views(lines: Seq<Vec<char>>) -> Seq<Seq<char>> {
    Seq::new(lines.len(), |i: int| lines[i]@)
}

/// `line` without one trailing carriage return.
pub open spec fn strip_cr(line: Seq<char>) -> Seq<char> {
    if line.len() > 0 && line.last() == '\r' {
        line.drop_last()
    } else {
        line
    }
}

/// The lines of `s`. A line ends at a line feed, or at a carriage return
/// directly followed by one; the terminator is not part of the line. Text
/// after the last line feed is a line of its own, kept as it is, and an empty
/// remainder is no line.
pub open spec fn split_lines(s: Seq<char>) -> Seq<Seq<char>>
    decreases s.len(),
{
    let k = find_char(s, '\n');
    if s.len() == 0 {
        Seq::empty()
    } else if k < 0 || k >= s.len() {
        seq![s]
    } else {
        seq![strip_cr(s.take(k))] + split_lines(s.skip(k + 1))
    }
}

/// The pieces of `s` between occurrences of `sep`: one more than there are
/// occurrences, empty pieces included.
pub open spec fn split_on(s: Seq<char>, sep: char) -> Seq<Seq<char>>
    decreases s.len(),
{
    let k = find_char(s, sep);
    if k < 0 || k >= s.len() {
        seq![s]
    } else {
        seq![s.take(k)] + split_on(s.skip(k + 1), sep)
    }
}

/// A text has at least one piece.
pub proof fn lemma_split_on_nonempty(s: Seq<char>, sep: char)
    ensures
        split_on(s, sep).len() >= 1,
{
}

/// The first `sep` of a text that starts with a piece free of `sep`,
/// followed by `sep`, stands right behind that piece.
pub proof fn lemma_split_on_first(piece: Seq<char>, sep: char, rest: Seq<char>)
    requires
        !piece.contains(sep),
    ensures
        split_on(piece + seq![sep] + rest, sep) == seq![piece] + split_on(rest, sep),
{
    let s = piece + seq![sep] + rest;
    let k = piece.len() as int;
    assert forall|i: int| 0 <= i < k implies s[i] != sep by {
        assert(s[i] == piece[i]);
        assert(piece.contains(piece[i]));
    }
    assert(s[k] == sep);
    lemma_find_char_is(s, sep, k);
    assert(s.take(k) == piece);
    assert(s.skip(k + 1) == rest);
}

/// A text free of `sep` is one piece.
pub proof fn lemma_split_on_whole(piece: Seq<char>, sep: char)
    requires
        !piece.contains(sep),
    ensures
        split_on(piece, sep) == seq![piece],
{
    lemma_find_char(piece, sep);
    let k = find_char(piece, sep);
    if k < piece.len() {
        assert(piece.contains(piece[k]));
    }
}

/// Behind a text whose last piece is empty, a piece free of `sep` and a
/// `sep` add that piece, and leave an empty last piece again.
pub proof fn lemma_split_on_append(
    s: Seq<char>,
    pieces: Seq<Seq<char>>,
    piece: Seq<char>,
    sep: char,
)
    requires
        split_on(s, sep) == pieces.push(Seq::empty()),
        !piece.contains(sep),
    ensures
        split_on(s + piece + seq![sep], sep) == pieces.push(piece).push(Seq::empty()),
    decreases s.len(),
{
    lemma_find_char(s, sep);
    let k = find_char(s, sep);
    let all = s + piece + seq![sep];
    if k >= s.len() {
        // No `sep` in `s`: its one piece is the empty last piece.
        assert(split_on(s, sep) == seq![s]);
        assert(pieces.push(Seq::<char>::empty())[0] == s);
        assert(pieces.len() == 0);
        assert(s.len() == 0);
        assert(all == piece + seq![sep] + Seq::<char>::empty());
        lemma_split_on_first(piece, sep, Seq::empty());
        assert(split_on(Seq::<char>::empty(), sep) == seq![Seq::<char>::empty()]);
        assert(seq![piece] + seq![Seq::<char>::empty()] == pieces.push(piece).push(Seq::empty()));
    } else {
        let tail = s.skip(k + 1);
        let tail_pieces = split_on(tail, sep);
        assert(split_on(s, sep) == seq![s.take(k)] + tail_pieces);
        lemma_split_on_nonempty(tail, sep);
        let fewer = tail_pieces.drop_last();
        assert(tail_pieces.last() == pieces.push(Seq::<char>::empty()).last());
        assert(tail_pieces == fewer.push(Seq::empty()));
        lemma_split_on_append(tail, fewer, piece, sep);
        assert forall|i: int| 0 <= i < k implies all[i] != sep by {
            assert(all[i] == s[i]);
        }
        assert(all[k] == s[k]);
        lemma_find_char_is(all, sep, k);
        assert(all.take(k) == s.take(k));
        assert(all.skip(k + 1) == tail + piece + seq![sep]);
        assert(pieces == seq![s.take(k)] + fewer) by {
            let whole = pieces.push(Seq::<char>::empty());
            assert(pieces == whole.drop_last());
            assert(whole == seq![s.take(k)] + fewer.push(Seq::empty()));
            assert((seq![s.take(k)] + fewer.push(Seq::<char>::empty())).drop_last() == seq![
                s.take(k),
            ] + fewer);
        }
        assert(seq![s.take(k)] + fewer.push(piece).push(Seq::empty()) == pieces.push(piece).push(
            Seq::empty(),
        ));
    }
}

/// Splits `text` into its lines.
pub fn text_lines(text: &Vec<char>) -> (lines: Vec<Vec<char>>)
    ensures
        line_views(lines@) == split_lines(text@),
{
    let mut lines: Vec<Vec<char>> = Vec::new();
    let mut start: usize = 0;
    proof {
        assert(text@.skip(0) == text@);
        assert(line_views(lines@) + split_lines(text@.skip(0)) == split_lines(text@));
    }
    while start < text.len()
        invariant
            start <= text.len(),
            line_views(lines@) + split_lines(text@.skip(start as int)) == split_lines(text@),
        decreases text.len() - start,
    {
        let end = find_from(text, start, '\n');
        let ghost rest = text@.skip(start as int);
        let terminated = end < text.len();
        let mut line_to = end;
        if terminated && end > start && text[end - 1] == '\r' {
            line_to = end - 1;
        }
        let line = slice(text, start, line_to);
        let next = if terminated {
            end + 1
        } else {
            end
        };
        proof {
            let k = end - start;
            assert(rest.take(k) == text@.subrange(start as int, end as int));
            if terminated {
                assert(rest.skip(k + 1) == text@.skip(next as int));
                if end > start {
                    assert(rest.take(k).last() == text@[end - 1]);
                    if text@[end - 1] == '\r' {
                        assert(rest.take(k).drop_last() == text@.subrange(
                            start as int,
                            line_to as int,
                        ));
                    }
                }
            } else {
                assert(rest.take(k) == rest);
                assert(text@.skip(next as int).len() == 0);
                assert(split_lines(text@.skip(next as int)) == Seq::<Seq<char>>::empty());
            }
            assert(split_lines(rest) == seq![line@] + split_lines(text@.skip(next as int)));
        }
        let ghost before = lines@;
        lines.push(line);
        proof {
            assert(line_views(lines@) == line_views(before) + seq![line@]);
            assert(line_views(lines@) + split_lines(text@.skip(next as int)) == line_views(before)
                + (seq![line@] + split_lines(text@.skip(next as int))));
        }
        start = next;
    }
    proof {
        assert(text@.skip(start as int).len() == 0);
        assert(line_views(lines@) + Seq::<Seq<char>>::empty() == line_views(lines@));
    }
    lines
}

/// Splits `text` at every `sep`.
pub fn split(text: &Vec<char>, sep: char) -> (pieces: Vec<Vec<char>>)
    ensures
        line_views(pieces@) == split_on(text@, sep),
{
    let mut pieces: Vec<Vec<char>> = Vec::new();
    let mut start: usize = 0;
    proof {
        assert(text@.skip(0) == text@);
        assert(line_views(pieces@) + split_on(text@.skip(0), sep) == split_on(text@, sep));
    }
    loop
        invariant_except_break
            start <= text.len(),
            line_views(pieces@) + split_on(text@.skip(start as int), sep) == split_on(text@, sep),
        ensures
            line_views(pieces@) == split_on(text@, sep),
        decreases text.len() - start,
    {
        let end = find_from(text, start, sep);
        let ghost rest = text@.skip(start as int);
        let piece = slice(text, start, end);
        let ghost before = pieces@;
        pieces.push(piece);
        proof {
            let k = end - start;
            assert(rest.take(k) == text@.subrange(start as int, end as int));
            assert(line_views(pieces@) == line_views(before) + seq![piece@]);
        }
        if end >= text.len() {
            proof {
                assert(rest.take(end - start) == rest);
                assert(split_on(rest, sep) == seq![piece@]);
            }
            break ;
        }
        proof {
            assert(rest.skip(end - start + 1) == text@.skip(end + 1));
            assert(split_on(rest, sep) == seq![piece@] + split_on(text@.skip(end + 1), sep));
            assert(line_views(pieces@) + split_on(text@.skip(end + 1), sep) == line_views(before)
                + (seq![piece@] + split_on(text@.skip(end + 1), sep)));
        }
        start = end + 1;
    }
    pieces
}

/// Whether two strings hold the same text.
pub fn same_text(a: &str, b: &str) -> (r: bool)
    ensures
        r == (a@ == b@),
{
    same_chars(&chars_of(a), &chars_of(b))
}

/// Whether `a` stands before `b` in the order of the dictionary, the
/// characters taken by their numbers: at the first place where the two
/// differ `a` has the smaller character, or `a` ends there and `b` does not.
pub open spec fn text_precedes(a: Seq<char>, b: Seq<char>) -> bool
    decreases a.len(),
{
    if b.len() == 0 {
        false
    } else if a.len() == 0 {
        true
    } else if a[0] != b[0] {
        a[0] < b[0]
    } else {
        text_precedes(a.drop_first(), b.drop_first())
    }
}

/// Whether `a` stands before `b` in the order of the dictionary.
pub fn text_before(a: &Vec<char>, b: &Vec<char>) -> (r: bool)
    ensures
        r == text_precedes(a@, b@),
{
    let mut i: usize = 0;
    proof {
        assert(a@.skip(0) == a@);
        assert(b@.skip(0) == b@);
    }
    while i < a.len() && i < b.len()
        invariant
            i <= a@.len(),
            i <= b@.len(),
            text_precedes(a@.skip(i as int), b@.skip(i as int)) == text_precedes(a@, b@),
        decreases a.len() - i,
    {
        proof {
            assert(a@.skip(i as int)[0] == a@[i as int]);
            assert(b@.skip(i as int)[0] == b@[i as int]);
            assert(a@.skip(i as int).drop_first() == a@.skip(i + 1));
            assert(b@.skip(i as int).drop_first() == b@.skip(i + 1));
        }
        if a[i] != b[i] {
            return a[i] < b[i];
        }
        i += 1;
    }
    i < b.len()
}

} // verus!

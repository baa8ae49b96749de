//! Text as sequences of characters: conversion between strings and character
//! vectors, search for a separator, splitting, and trimming of white space.

use vstd::prelude::*;
use vstd::string::StringExecFns;

verus! {

/// Assumed of `String::push` in the standard library: the character is
/// appended at the end of the string, and the characters before it stay.
pub assume_specification[ String::push ](s: &mut String, ch: char)
    ensures
        final(s)@ == old(s)@.push(ch),
;

/// The characters of `s`, in order.
pub fn chars_of(s: &str) -> (chars: Vec<char>)
    ensures
        chars@ == s@,
{
    let mut chars: Vec<char> = Vec::new();
    for c in it: s.chars()
        invariant
            it.seq() == s@,
            chars@ == it.seq().take(it.index() as int),
    {
        chars.push(c);
    }
    chars
}

/// The string that holds `chars[from..to]`.
pub fn string_of(chars: &Vec<char>, from: usize, to: usize) -> (s: String)
    requires
        from <= to <= chars.len(),
    ensures
        s@ == chars@.subrange(from as int, to as int),
{
    let mut s = String::new();
    let mut i: usize = from;
    while i < to
        invariant
            from <= i <= to <= chars.len(),
            s@ == chars@.subrange(from as int, i as int),
        decreases to - i,
    {
        s.push(chars[i]);
        i += 1;
    }
    s
}

/// The position of the first `sep` in `s`, or `s.len()` where `s` holds none.
pub open spec fn find(s: Seq<char>, sep: char) -> nat
    decreases s.len(),
{
    if s.len() == 0 || s[0] == sep {
        0
    } else {
        1 + find(s.skip(1), sep)
    }
}

/// `find` is the least position that holds `sep`, and at most the length.
pub proof fn lemma_find_first(s: Seq<char>, sep: char)
    ensures
        find(s, sep) <= s.len(),
        find(s, sep) < s.len() ==> s[find(s, sep) as int] == sep,
        forall|j: int| 0 <= j < find(s, sep) ==> s[j] != sep,
    decreases s.len(),
{
    if s.len() != 0 && s[0] != sep {
        let rest = s.skip(1);
        lemma_find_first(rest, sep);
        assert forall|j: int| 0 <= j < find(s, sep) implies s[j] != sep by {
            if j > 0 {
                assert(rest[j - 1] == s[j]);
            }
        }
    }
}

/// A position that holds `sep`, or the length, with no `sep` before it, is
/// what `find` gives.
pub proof fn lemma_find_is(s: Seq<char>, sep: char, k: int)
    requires
        0 <= k <= s.len(),
        k < s.len() ==> s[k] == sep,
        forall|j: int| 0 <= j < k ==> s[j] != sep,
    ensures
        find(s, sep) == k,
    decreases k,
{
    if k > 0 {
        let rest = s.skip(1);
        assert forall|j: int| 0 <= j < k - 1 implies rest[j] != sep by {
            assert(rest[j] == s[j + 1]);
        }
        lemma_find_is(rest, sep, k - 1);
    }
}

/// The position of the first `sep` in `chars[from..to]`, counted from the
/// start of `chars`, or `to` where that range holds none.
pub fn find_in(chars: &Vec<char>, from: usize, to: usize, sep: char) -> (at: usize)
    requires
        from <= to <= chars.len(),
    ensures
        from <= at <= to,
        at - from == find(chars@.subrange(from as int, to as int), sep),
{
    let mut at: usize = from;
    while at < to && chars[at] != sep
        invariant
            from <= at <= to <= chars.len(),
            forall|j: int| from <= j < at ==> chars@[j] != sep,
        decreases to - at,
    {
        at += 1;
    }
    proof {
        lemma_find_is(chars@.subrange(from as int, to as int), sep, at - from);
    }
    at
}

/// The pieces of `s` that lie between the occurrences of `sep`: one more
/// piece than there are separators, so the text without a separator is its
/// own single piece, and two separators in a row hold an empty piece.
pub open spec fn split(s: Seq<char>, sep: char) -> Seq<Seq<char>>
    decreases s.len(),
{
    let at = find(s, sep) as int;
    if at >= s.len() {
        seq![s]
    } else {
        seq![s.take(at)] + split(s.skip(at + 1), sep)
    }
}

/// The pieces written one after the other with `sep` between neighbours.
pub open spec fn join(pieces: Seq<Seq<char>>, sep: char) -> Seq<char>
    decreases pieces.len(),
{
    if pieces.len() == 0 {
        Seq::empty()
    } else if pieces.len() == 1 {
        pieces[0]
    } else {
        join(pieces.drop_last(), sep) + seq![sep] + pieces.last()
    }
}

/// What a vector of character vectors holds, row by row.
pub open spec fn rows(v: Seq<Vec<char>>) -> Seq<Seq<char>> {
    v.map_values(|row: Vec<char>| row@)
}

/// A copy of `chars[from..to]`.
pub fn copy_range(chars: &Vec<char>, from: usize, to: usize) -> (piece: Vec<char>)
    requires
        from <= to <= chars.len(),
    ensures
        piece@ == chars@.subrange(from as int, to as int),
{
    let mut piece: Vec<char> = Vec::new();
    let mut i: usize = from;
    while i < to
        invariant
            from <= i <= to <= chars.len(),
            piece@ == chars@.subrange(from as int, i as int),
        decreases to - i,
    {
        piece.push(chars[i]);
        i += 1;
    }
    piece
}

/// Cuts `chars` at every `sep`.
pub fn split_at(chars: &Vec<char>, sep: char) -> (pieces: Vec<Vec<char>>)
    ensures
        rows(pieces@) == split(chars@, sep),
{
    let len = chars.len();
    let mut pieces: Vec<Vec<char>> = Vec::new();
    let mut from: usize = 0;
    let mut at: usize = find_in(chars, 0, len, sep);
    proof {
        assert(chars@.subrange(0, len as int) == chars@);
    }
    while at < len
        invariant
            len == chars.len(),
            from <= at <= len,
            at - from == find(chars@.skip(from as int), sep),
            split(chars@, sep) == rows(pieces@) + split(chars@.skip(from as int), sep),
        decreases len - from,
    {
        let piece = copy_range(chars, from, at);
        proof {
            let rest = chars@.skip(from as int);
            assert(rest.take(at - from) == piece@);
            assert(rest.skip(at - from + 1) == chars@.skip(at + 1));
        }
        pieces.push(piece);
        from = at + 1;
        at = find_in(chars, from, len, sep);
    }
    let piece = copy_range(chars, from, len);
    pieces.push(piece);
    pieces
}

/// What a vector of strings holds, string by string.
pub open spec fn texts(v: Seq<String>) -> Seq<Seq<char>> {
    v.map_values(|s: String| s@)
}

/// Appends the strings to `out`, with `sep` between neighbours.
pub fn push_joined(out: &mut String, pieces: &Vec<String>, sep: char)
    ensures
        final(out)@ == old(out)@ + join(texts(pieces@), sep),
{
    let ghost all = texts(pieces@);
    let mut i: usize = 0;
    while i < pieces.len()
        invariant
            i <= pieces.len(),
            all == texts(pieces@),
            out@ == old(out)@ + join(all.take(i as int), sep),
        decreases pieces.len() - i,
    {
        proof {
            let next = all.take(i + 1);
            assert(next.drop_last() == all.take(i as int));
            if i > 0 {
                assert(old(out)@ + join(next, sep) == old(out)@ + join(all.take(i as int), sep)
                    + seq![sep] + pieces[i as int]@);
            } else {
                assert(join(all.take(0), sep) == Seq::<char>::empty());
                assert(old(out)@ + join(next, sep) == old(out)@ + pieces[i as int]@);
            }
        }
        if i > 0 {
            out.push(sep);
        }
        out.append(pieces[i].as_str());
        i += 1;
    }
    assert(all.take(pieces.len() as int) == all);
}

/// True when `sep` occurs nowhere in `s`.
pub open spec fn free_of(s: Seq<char>, sep: char) -> bool {
    forall|i: int| 0 <= i < s.len() ==> s[i] != sep
}

/// No piece of a split text holds the separator.
pub proof fn lemma_split_free(s: Seq<char>, sep: char)
    ensures
        split(s, sep).len() > 0,
        forall|i: int| 0 <= i < split(s, sep).len() ==> free_of(#[trigger] split(s, sep)[i], sep),
    decreases s.len(),
{
    lemma_find_first(s, sep);
    let at = find(s, sep) as int;
    if at < s.len() {
        let rest = split(s.skip(at + 1), sep);
        lemma_split_free(s.skip(at + 1), sep);
        assert forall|i: int| 0 <= i < split(s, sep).len() implies free_of(
            #[trigger] split(s, sep)[i],
            sep,
        ) by {
            if i > 0 {
                assert(split(s, sep)[i] == rest[i - 1]);
            }
        }
    }
}

/// Splitting a text with a separator in the middle gives the pieces of what
/// stands before that separator, then the pieces of what stands after it.
pub proof fn lemma_split_concat(a: Seq<char>, b: Seq<char>, sep: char)
    ensures
        split(a + seq![sep] + b, sep) == split(a, sep) + split(b, sep),
    decreases a.len(),
{
    let whole = a + seq![sep] + b;
    lemma_find_first(a, sep);
    let at = find(a, sep) as int;
    assert forall|j: int| 0 <= j < at implies whole[j] != sep by {
        assert(whole[j] == a[j]);
    }
    lemma_find_is(whole, sep, at);
    if at < a.len() {
        assert(whole.take(at) == a.take(at));
        assert(whole.skip(at + 1) == a.skip(at + 1) + seq![sep] + b);
        lemma_split_concat(a.skip(at + 1), b, sep);
    } else {
        assert(whole.take(at) == a);
        assert(whole.skip(at + 1) == b);
    }
}

/// Joining pieces that hold no separator, and splitting the result, gives the
/// pieces back.
pub proof fn lemma_split_join(pieces: Seq<Seq<char>>, sep: char)
    requires
        pieces.len() > 0,
        forall|i: int| 0 <= i < pieces.len() ==> free_of(#[trigger] pieces[i], sep),
    ensures
        split(join(pieces, sep), sep) == pieces,
    decreases pieces.len(),
{
    let last = pieces.last();
    lemma_find_is(last, sep, last.len() as int);
    if pieces.len() > 1 {
        let init = pieces.drop_last();
        lemma_split_join(init, sep);
        lemma_split_concat(join(init, sep), last, sep);
    }
}

/// True for the characters that count as white space: the code points with
/// the Unicode property `White_Space`.
pub open spec fn is_space(c: char) -> bool {
    let u = c as u32;
    ||| 0x09 <= u <= 0x0d
    ||| u == 0x20
    ||| u == 0x85
    ||| u == 0xa0
    ||| u == 0x1680
    ||| 0x2000 <= u <= 0x200a
    ||| u == 0x2028
    ||| u == 0x2029
    ||| u == 0x202f
    ||| u == 0x205f
    ||| u == 0x3000
}

/// `s` without the white space at its start.
pub open spec fn trim_start(s: Seq<char>) -> Seq<char>
    decreases s.len(),
{
    if s.len() > 0 && is_space(s[0]) {
        trim_start(s.skip(1))
    } else {
        s
    }
}

/// `s` without the white space at its end.
pub open spec fn trim_end(s: Seq<char>) -> Seq<char>
    decreases s.len(),
{
    if s.len() > 0 && is_space(s.last()) {
        trim_end(s.drop_last())
    } else {
        s
    }
}

/// `s` without the white space at its start and at its end.
pub open spec fn trim(s: Seq<char>) -> Seq<char> {
    trim_end(trim_start(s))
}

/// What stands behind a run of white space at the start, where that run
/// ends at the end of `s` or before a character of another kind.
pub proof fn lemma_trim_start(s: Seq<char>, from: int)
    requires
        0 <= from <= s.len(),
        forall|j: int| 0 <= j < from ==> is_space(s[j]),
        from < s.len() ==> !is_space(s[from]),
    ensures
        trim_start(s) == s.skip(from),
    decreases from,
{
    if from > 0 {
        let rest = s.skip(1);
        assert forall|j: int| 0 <= j < from - 1 implies is_space(rest[j]) by {
            assert(rest[j] == s[j + 1]);
        }
        lemma_trim_start(rest, from - 1);
    } else {
        assert(s.skip(0) == s);
    }
}

/// What stands before a run of white space at the end, where that run
/// starts at the start of `s` or behind a character of another kind.
pub proof fn lemma_trim_end(s: Seq<char>, to: int)
    requires
        0 <= to <= s.len(),
        forall|j: int| to <= j < s.len() ==> is_space(s[j]),
        to > 0 ==> !is_space(s[to - 1]),
    ensures
        trim_end(s) == s.take(to),
    decreases s.len() - to,
{
    if to < s.len() {
        let rest = s.drop_last();
        lemma_trim_end(rest, to);
    } else {
        assert(s.take(to) == s);
    }
}

/// Decides whether `c` counts as white space.
pub fn space(c: char) -> (r: bool)
    ensures
        r == is_space(c),
{
    let u = c as u32;
    (0x09 <= u && u <= 0x0d) || u == 0x20 || u == 0x85 || u == 0xa0 || u == 0x1680 || (0x2000 <= u
        && u <= 0x200a) || u == 0x2028 || u == 0x2029 || u == 0x202f || u == 0x205f || u == 0x3000
}

/// The range of `chars` that is left when the white space at both ends is
/// taken away.
pub fn trimmed(chars: &Vec<char>) -> (range: (usize, usize))
    ensures
        range.0 <= range.1 <= chars.len(),
        chars@.subrange(range.0 as int, range.1 as int) == trim(chars@),
{
    let len = chars.len();
    let mut from: usize = 0;
    while from < len && space(chars[from])
        invariant
            from <= len == chars.len(),
            forall|j: int| 0 <= j < from ==> is_space(chars@[j]),
        decreases len - from,
    {
        from += 1;
    }
    let mut to: usize = len;
    while to > from && space(chars[to - 1])
        invariant
            from <= to <= len == chars.len(),
            forall|j: int| to <= j < len ==> is_space(chars@[j]),
        decreases to,
    {
        to -= 1;
    }
    proof {
        lemma_trim_start(chars@, from as int);
        let rest = chars@.skip(from as int);
        assert forall|j: int| to - from <= j < rest.len() implies is_space(rest[j]) by {
            assert(rest[j] == chars@[j + from]);
        }
        if to > from {
            assert(rest[to - from - 1] == chars@[to - 1]);
        }
        lemma_trim_end(rest, to - from);
    }
    (from, to)
}

} // verus!

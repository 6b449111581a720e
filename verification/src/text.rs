//! Text as sequences of characters: reading a string's characters and cutting
//! a string at separators.

use std::collections::VecDeque;
use vstd::prelude::*;
use vstd::string::{StrSliceExecFns, StringExecFns};

verus! {

/// The pieces of `s` from `start` on, cut at every separator at or after `i`;
/// `i` runs through the piece that begins at `start`.
pub open spec fn split_from(s: Seq<char>, seps: Set<char>, start: int, i: int) -> Seq<Seq<char>>
    decreases s.len() - i,
{
    if i >= s.len() {
        seq![s.subrange(start, s.len() as int)]
    } else if seps.contains(s[i]) {
        seq![s.subrange(start, i)] + split_from(s, seps, i + 1, i + 1)
    } else {
        split_from(s, seps, start, i + 1)
    }
}

/// The pieces between the separators of `s`, in order. There is always one
/// piece more than there are separators: pieces may be empty, and a text
/// without separator is its own single piece.
pub open spec fn split(s: Seq<char>, seps: Set<char>) -> Seq<Seq<char>> {
    split_from(s, seps, 0, 0)
}

/// The pieces with `sep` put back between them.
pub open spec fn join(pieces: Seq<Seq<char>>, sep: char) -> Seq<char>
    decreases pieces.len(),
{
    if pieces.len() == 0 {
        Seq::empty()
    } else if pieces.len() == 1 {
        pieces[0]
    } else {
        pieces[0] + seq![sep] + join(pieces.drop_first(), sep)
    }
}

proof fn lemma_split_from_clean(s: Seq<char>, seps: Set<char>, start: int, i: int, k: int, j: int)
    requires
        0 <= start <= i <= s.len(),
        forall|m: int| start <= m < i ==> !seps.contains(s[m]),
        0 <= k < split_from(s, seps, start, i).len(),
        0 <= j < split_from(s, seps, start, i)[k].len(),
    ensures
        !seps.contains(split_from(s, seps, start, i)[k][j]),
    decreases s.len() - i,
{
    if i >= s.len() {
    } else if seps.contains(s[i]) {
        if k > 0 {
            lemma_split_from_clean(s, seps, i + 1, i + 1, k - 1, j);
        }
    } else {
        lemma_split_from_clean(s, seps, start, i + 1, k, j);
    }
}

proof fn lemma_split_from_joins(s: Seq<char>, sep: char, start: int, i: int)
    requires
        0 <= start <= i <= s.len(),
    ensures
        split_from(s, set![sep], start, i).len() >= 1,
        join(split_from(s, set![sep], start, i), sep) == s.subrange(start, s.len() as int),
    decreases s.len() - i,
{
    let seps = set![sep];
    if i >= s.len() {
    } else if seps.contains(s[i]) {
        lemma_split_from_joins(s, sep, i + 1, i + 1);
        let rest = split_from(s, seps, i + 1, i + 1);
        let all = seq![s.subrange(start, i)] + rest;
        assert(all.drop_first() =~= rest);
        assert(s.subrange(start, i) + seq![sep] + s.subrange(i + 1, s.len() as int) =~= s.subrange(
            start,
            s.len() as int,
        ));
    } else {
        lemma_split_from_joins(s, sep, start, i + 1);
    }
}

/// No piece holds a separator.
pub proof fn lemma_split_clean(s: Seq<char>, seps: Set<char>, k: int, j: int)
    requires
        0 <= k < split(s, seps).len(),
        0 <= j < split(s, seps)[k].len(),
    ensures
        !seps.contains(split(s, seps)[k][j]),
{
    lemma_split_from_clean(s, seps, 0, 0, k, j);
}

/// The pieces of a text cut at one separator, with the separator put back
/// between them, are the text; and there is at least one piece.
pub proof fn lemma_split_joins(s: Seq<char>, sep: char)
    ensures
        split(s, set![sep]).len() >= 1,
        join(split(s, set![sep]), sep) == s,
{
    lemma_split_from_joins(s, sep, 0, 0);
    assert(s.subrange(0, s.len() as int) =~= s);
}

/// The characters of a string.
pub fn chars_of(s: &str) -> (v: Vec<char>)
    ensures
        v@ == s@,
{
    broadcast use vstd::string::group_string_axioms;

    let mut v: Vec<char> = Vec::new();
    for c in it: s.chars()
        invariant
            it.seq() == s@,
            v@ == it.history(),
    {
        v.push(c);
    }
    assert(v@ =~= s@);
    v
}

/// The characters of `input` from `from` up to `to`, as a string of their own.
pub fn piece(input: &str, from: usize, to: usize) -> (r: String)
    requires
        from <= to <= input@.len(),
    ensures
        r@ == input@.subrange(from as int, to as int),
{
    String::from_str(input.substring_char(from, to))
}

/// Cuts `input` at every occurrence of `a` or `b`.
pub fn split_at_either(input: &str, a: char, b: char) -> (r: VecDeque<String>)
    ensures
        r.deep_view() == split(input@, set![a, b]),
{
    let chars = chars_of(input);
    let n = chars.len();
    let ghost seps = set![a, b];
    let mut out: VecDeque<String> = VecDeque::new();
    let mut start: usize = 0;
    let mut i: usize = 0;
    assert(out.deep_view() =~= Seq::empty());
    while i < n
        invariant
            chars@ == input@,
            n == chars@.len(),
            seps == set![a, b],
            0 <= start <= i <= n,
            split(input@, seps) == out.deep_view() + split_from(input@, seps, start as int, i as int),
        decreases n - i,
    {
        let c = chars[i];
        if c == a || c == b {
            let ghost before = out.deep_view();
            let p = piece(input, start, i);
            out.push_back(p);
            assert(out.deep_view() =~= before.push(input@.subrange(start as int, i as int)));
            assert(before + (seq![input@.subrange(start as int, i as int)] + split_from(
                input@,
                seps,
                i + 1,
                i + 1,
            )) =~= out.deep_view() + split_from(input@, seps, i + 1, i + 1));
            start = i + 1;
        }
        i += 1;
    }
    let ghost before = out.deep_view();
    let p = piece(input, start, n);
    out.push_back(p);
    assert(out.deep_view() =~= before.push(input@.subrange(start as int, n as int)));
    out
}

} // verus!

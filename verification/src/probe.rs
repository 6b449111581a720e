//! Reading the bitrate out of what the media inspection tool reports.

use vstd::prelude::*;
use vstd::slice::slice_subrange;
use vstd::string::StringExecFns;
use crate::decimal::{parse_u32, parsed_u32};
use crate::text::{chars_of, piece};

verus! {

/// `pat` stands in `s` at position `i`.
pub open spec fn occurs_at(s: Seq<char>, pat: Seq<char>, i: int) -> bool {
    0 <= i && i + pat.len() <= s.len() && s.subrange(i, i + pat.len()) == pat
}

/// The first position at or after `from` at which `pat` stands in `s`.
pub open spec fn find(s: Seq<char>, pat: Seq<char>, from: int) -> Option<int>
    decreases s.len() - from,
{
    if from < 0 || from + pat.len() > s.len() {
        None
    } else if occurs_at(s, pat, from) {
        Some(from)
    } else if from >= s.len() {
        None
    } else {
        find(s, pat, from + 1)
    }
}

/// `s` from `i` on, without the occurrences of `pat`: they are taken out from
/// left to right, and what is left is not searched again.
pub open spec fn without_from(s: Seq<char>, pat: Seq<char>, i: int) -> Seq<char>
    decreases s.len() - i,
{
    if i < 0 || i >= s.len() {
        Seq::empty()
    } else if pat.len() > 0 && occurs_at(s, pat, i) {
        without_from(s, pat, i + pat.len())
    } else {
        seq![s[i]] + without_from(s, pat, i + 1)
    }
}

/// `s` without the occurrences of `pat`.
pub open spec fn without(s: Seq<char>, pat: Seq<char>) -> Seq<char> {
    without_from(s, pat, 0)
}

/// A line as it stood before its line feed: a carriage return at its end
/// belongs to the line ending.
pub open spec fn strip_cr(line: Seq<char>) -> Seq<char> {
    if line.len() > 0 && line.last() == '\r' {
        line.drop_last()
    } else {
        line
    }
}

/// The lines of `s` from `start` on; `i` runs through the line that begins at
/// `start`.
pub open spec fn lines_from(s: Seq<char>, start: int, i: int) -> Seq<Seq<char>>
    decreases s.len() - i,
{
    if i >= s.len() {
        if start >= s.len() {
            Seq::empty()
        } else {
            seq![s.subrange(start, s.len() as int)]
        }
    } else if s[i] == '\n' {
        seq![strip_cr(s.subrange(start, i))] + lines_from(s, i + 1, i + 1)
    } else {
        lines_from(s, start, i + 1)
    }
}

/// The lines of `s`: each ends at a line feed, or at a carriage return and a
/// line feed, or with the text; no line holds its ending, and a text that
/// ends in a line ending has no further, empty line after it.
pub open spec fn lines(s: Seq<char>) -> Seq<Seq<char>> {
    lines_from(s, 0, 0)
}

/// The words that introduce the bitrate in a report.
pub open spec fn key() -> Seq<char> {
    "bitrate: "@
}

/// The unit that follows the bitrate in a report.
pub open spec fn unit() -> Seq<char> {
    " kb/s"@
}

/// What one line of a report gives: nothing, unless the key stands in it;
/// else what follows the first key, up to the next key or the end of the
/// line, without the unit.
pub open spec fn bitrate_field(line: Seq<char>) -> Seq<char> {
    match find(line, key(), 0) {
        None => Seq::empty(),
        Some(i) => {
            let from = i + key().len();
            let to = match find(line, key(), from) {
                Some(j) => j,
                None => line.len() as int,
            };
            without(line.subrange(from, to), unit())
        },
    }
}

/// What all lines of a report give, one after the other.
pub open spec fn grep_text(s: Seq<char>) -> Seq<char> {
    lines(s).map_values(|line: Seq<char>| bitrate_field(line)).flatten()
}

/// The bitrate that a report states, if what its lines give is a number.
pub open spec fn reported_bitrate(s: Seq<char>) -> Option<u32> {
    parsed_u32(grep_text(s))
}

/// What `find` returns lies at or after `from`, `pat` stands there, and
/// nowhere between.
pub proof fn lemma_find(s: Seq<char>, pat: Seq<char>, from: int)
    requires
        0 <= from,
    ensures
        match find(s, pat, from) {
            Some(i) => from <= i && occurs_at(s, pat, i) && forall|j: int|
                from <= j < i ==> !occurs_at(s, pat, j),
            None => forall|j: int| from <= j ==> !occurs_at(s, pat, j),
        },
    decreases s.len() - from,
{
    if from + pat.len() <= s.len() && !occurs_at(s, pat, from) && from < s.len() {
        lemma_find(s, pat, from + 1);
    }
}

/// Whether `pat` stands in `hay` at position `i`.
fn starts_at(hay: &[char], pat: &[char], i: usize) -> (r: bool)
    ensures
        r == occurs_at(hay@, pat@, i as int),
{
    let n = hay.len();
    if pat.len() > n || i > n - pat.len() {
        return false;
    }
    let mut j: usize = 0;
    while j < pat.len()
        invariant
            n == hay@.len(),
            i + pat@.len() <= hay@.len(),
            0 <= j <= pat@.len(),
            forall|m: int| 0 <= m < j ==> hay@[i + m] == pat@[m],
        decreases pat@.len() - j,
    {
        if hay[i + j] != pat[j] {
            assert(hay@.subrange(i as int, i + pat@.len())[j as int] != pat@[j as int]);
            return false;
        }
        j += 1;
    }
    assert(hay@.subrange(i as int, i + pat@.len()) =~= pat@);
    true
}

/// The first position at or after `from` at which `pat` stands in `hay`.
fn find_in(hay: &[char], pat: &[char], from: usize) -> (r: Option<usize>)
    ensures
        match r {
            Some(i) => find(hay@, pat@, from as int) == Some(i as int) && from <= i && i + pat@.len()
                <= hay@.len(),
            None => find(hay@, pat@, from as int) is None,
        },
{
    let n = hay.len();
    let m = pat.len();
    if m > n || from > n - m {
        return None;
    }
    let last = n - m;
    let mut i: usize = from;
    loop
        invariant
            n == hay@.len(),
            m == pat@.len(),
            last == n - m,
            from <= i <= last,
            find(hay@, pat@, from as int) == find(hay@, pat@, i as int),
        decreases last - i,
    {
        if starts_at(hay, pat, i) {
            return Some(i);
        }
        if i == last {
            assert(find(hay@, pat@, i + 1) is None);
            return None;
        }
        i += 1;
    }
}

/// Appends to `out` the characters of `text` from `from` up to `to`, without
/// the occurrences of `pat`. `chars` holds the characters of `text`.
fn append_without(text: &str, chars: &[char], from: usize, to: usize, pat: &[char], out: &mut String)
    requires
        chars@ == text@,
        from <= to <= chars@.len(),
    ensures
        final(out)@ == old(out)@ + without(chars@.subrange(from as int, to as int), pat@),
{
    let field = slice_subrange(chars, from, to);
    let n = field.len();
    let ghost start = out@;
    let mut k: usize = 0;
    let mut i: usize = 0;
    assert(out@ + field@.subrange(0, 0) =~= start);
    while i < n
        invariant
            chars@ == text@,
            from <= to <= chars@.len(),
            field@ == chars@.subrange(from as int, to as int),
            n == field@.len(),
            0 <= k <= i <= n,
            start + without(field@, pat@) == out@ + field@.subrange(k as int, i as int) + without_from(
                field@,
                pat@,
                i as int,
            ),
        decreases n - i,
    {
        let ghost run = field@.subrange(k as int, i as int);
        if pat.len() > 0 && starts_at(field, pat, i) {
            let p = piece(text, from + k, from + i);
            assert(p@ =~= run);
            out.append(p.as_str());
            i = i + pat.len();
            k = i;
            assert(out@ + field@.subrange(k as int, i as int) =~= out@);
        } else {
            assert(run + (seq![field@[i as int]] + without_from(field@, pat@, i + 1)) =~= field@.subrange(
                k as int,
                i + 1,
            ) + without_from(field@, pat@, i + 1));
            i += 1;
        }
    }
    let p = piece(text, from + k, from + n);
    assert(p@ =~= field@.subrange(k as int, i as int));
    out.append(p.as_str());
    assert(out@ =~= start + without(field@, pat@));
}

/// Appends to `out` what the line from `lo` up to `hi` gives.
fn append_field(
    text: &str,
    chars: &[char],
    lo: usize,
    hi: usize,
    key: &[char],
    unit: &[char],
    out: &mut String,
)
    requires
        chars@ == text@,
        lo <= hi <= chars@.len(),
        key@ == self::key(),
        unit@ == self::unit(),
    ensures
        final(out)@ == old(out)@ + bitrate_field(chars@.subrange(lo as int, hi as int)),
{
    let line = slice_subrange(chars, lo, hi);
    match find_in(line, key, 0) {
        None => {
            assert(out@ =~= out@ + Seq::<char>::empty());
        },
        Some(i) => {
            let from = i + key.len();
            let to = match find_in(line, key, from) {
                Some(j) => j,
                None => line.len(),
            };
            assert(line@.subrange(from as int, to as int) =~= chars@.subrange(lo + from, lo + to));
            append_without(text, chars, lo + from, lo + to, unit, out);
        },
    }
}

/// What a report says of the bitrate: of each line in which the words
/// `bitrate: ` stand, what follows them, without the unit ` kb/s`; all of
/// these joined.
pub fn grep(input: String) -> (out: String)
    ensures
        out@ == grep_text(input@),
{
    let text = input.as_str();
    let owned = chars_of(text);
    let chars = owned.as_slice();
    let key_chars = chars_of("bitrate: ");
    let unit_chars = chars_of(" kb/s");
    let n = chars.len();
    let mut out = String::new();
    let mut start: usize = 0;
    let mut i: usize = 0;
    let ghost field = |line: Seq<char>| bitrate_field(line);
    assert(out@ + lines(text@).map_values(field).flatten() =~= grep_text(text@));
    while i < n
        invariant
            chars@ == text@,
            n == chars@.len(),
            key_chars@ == key(),
            unit_chars@ == unit(),
            field == |line: Seq<char>| bitrate_field(line),
            0 <= start <= i <= n,
            grep_text(text@) == out@ + lines_from(text@, start as int, i as int).map_values(field).flatten(),
        decreases n - i,
    {
        if chars[i] == '\n' {
            let end = if start < i && chars[i - 1] == '\r' {
                i - 1
            } else {
                i
            };
            let ghost before = out@;
            let ghost line = strip_cr(text@.subrange(start as int, i as int));
            let ghost rest = lines_from(text@, i + 1, i + 1);
            assert(line =~= text@.subrange(start as int, end as int));
            append_field(text, chars, start, end, key_chars.as_slice(), unit_chars.as_slice(), &mut out);
            proof {
                let all = seq![line] + rest;
                assert(all.map_values(field).first() == field(line));
                assert(all.map_values(field).drop_first() =~= rest.map_values(field));
                assert(out@ + rest.map_values(field).flatten() =~= before + all.map_values(field).flatten());
            }
            start = i + 1;
        }
        i += 1;
    }
    if start < n {
        let ghost before = out@;
        let ghost line = text@.subrange(start as int, n as int);
        append_field(text, chars, start, n, key_chars.as_slice(), unit_chars.as_slice(), &mut out);
        proof {
            let all = seq![line];
            assert(all.map_values(field).first() == field(line));
            assert(all.map_values(field).drop_first() =~= Seq::<Seq<char>>::empty());
            assert(all.map_values(field).drop_first().flatten() =~= Seq::<char>::empty());
            assert(out@ =~= before + all.map_values(field).flatten());
        }
    } else {
        assert(Seq::<Seq<char>>::empty().map_values(field) =~= Seq::<Seq<char>>::empty());
        assert(out@ =~= out@ + Seq::<Seq<char>>::empty().map_values(field).flatten());
    }
    out
}

/// The bitrate that a report of the media inspection tool states, in kb/s;
/// `None` where it states none, or not as a number.
pub fn bitrate_of(report: String) -> (r: Option<u32>)
    ensures
        r == reported_bitrate(report@),
{
    let found = grep(report);
    parse_u32(found.as_str())
}

} // verus!

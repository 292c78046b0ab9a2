//! Search for a pattern in text, and what is built on it: splitting at a
//! pattern, cutting into lines, joining and replacing.

use crate::text::{chars_of, slice, substring};
use vstd::prelude::*;
use vstd::string::{is_ascii, StrSliceExecFns, StringExecFns};

verus! {

/// Whether `pat` stands in `s` at position `i`. The empty pattern stands nowhere.
pub open spec fn occurs_at(s: Seq<char>, pat: Seq<char>, i: int) -> bool {
    &&& pat.len() > 0
    &&& 0 <= i
    &&& i + pat.len() <= s.len()
    &&& s.subrange(i, i + pat.len()) == pat
}

/// The position of the leftmost occurrence of `pat` in `s`, if there is one.
pub open spec fn find(s: Seq<char>, pat: Seq<char>) -> Option<int>
    decreases s.len(),
{
    if occurs_at(s, pat, 0) {
        Some(0)
    } else if s.len() == 0 {
        None
    } else {
        match find(s.drop_first(), pat) {
            Some(i) => Some(i + 1),
            None => None,
        }
    }
}

/// The parts of `s` between the occurrences of `pat`, found from left to right
/// without overlap. There is always at least one part.
pub open spec fn pieces(s: Seq<char>, pat: Seq<char>) -> Seq<Seq<char>>
    decreases s.len(),
{
    match find(s, pat) {
        Some(i) if pat.len() > 0 && 0 <= i && i + pat.len() <= s.len() => seq![s.take(i)]
            + pieces(s.skip(i + pat.len()), pat),
        _ => seq![s],
    }
}

/// `line` without the carriage return at its end, if it has one.
pub open spec fn without_cr(line: Seq<char>) -> Seq<char> {
    if line.len() > 0 && line.last() == '\r' {
        line.drop_last()
    } else {
        line
    }
}

/// The lines of `s`. A line ends with a line feed, or with a carriage return
/// and a line feed; neither belongs to the line. What follows the last line
/// feed is a line of its own unless it is empty, and keeps a carriage return
/// at its end.
pub open spec fn lines_of(s: Seq<char>) -> Seq<Seq<char>> {
    let parts = pieces(s, "\n"@);
    let ended = parts.drop_last().map_values(|line: Seq<char>| without_cr(line));
    if parts.last().len() > 0 {
        ended.push(parts.last())
    } else {
        ended
    }
}

/// The parts put together in order, with `sep` between each two neighbours.
pub open spec fn joined(parts: Seq<Seq<char>>, sep: Seq<char>) -> Seq<char>
    decreases parts.len(),
{
    if parts.len() == 0 {
        Seq::empty()
    } else if parts.len() == 1 {
        parts[0]
    } else {
        joined(parts.drop_last(), sep) + sep + parts.last()
    }
}

/// `s` with every occurrence of `pat`, found from left to right without
/// overlap, replaced by `with`.
pub open spec fn replaced(s: Seq<char>, pat: Seq<char>, with: Seq<char>) -> Seq<char> {
    joined(pieces(s, pat), with)
}

/// An occurrence in the tail of `s` is an occurrence in `s`, one position later.
pub proof fn lemma_occurs_at_shift(s: Seq<char>, pat: Seq<char>, k: int, i: int)
    requires
        0 <= k <= s.len(),
        0 <= i,
    ensures
        occurs_at(s.skip(k), pat, i) == occurs_at(s, pat, k + i),
{
    if pat.len() > 0 && k + i + pat.len() <= s.len() {
        assert(s.skip(k).subrange(i, i + pat.len()) =~= s.subrange(k + i, k + i + pat.len()));
    }
}

/// `find` gives the position of an occurrence before which there is no other.
pub proof fn lemma_find_leftmost(s: Seq<char>, pat: Seq<char>, i: int)
    requires
        occurs_at(s, pat, i),
        forall|j: int| 0 <= j < i ==> !occurs_at(s, pat, j),
    ensures
        find(s, pat) == Some(i),
    decreases i,
{
    if i > 0 {
        let rest = s.drop_first();
        assert(rest == s.skip(1));
        lemma_occurs_at_shift(s, pat, 1, i - 1);
        assert forall|j: int| 0 <= j < i - 1 implies !occurs_at(rest, pat, j) by {
            lemma_occurs_at_shift(s, pat, 1, j);
        }
        lemma_find_leftmost(rest, pat, i - 1);
    }
}

/// `find` gives nothing where the pattern does not occur.
pub proof fn lemma_find_absent(s: Seq<char>, pat: Seq<char>)
    requires
        forall|j: int| 0 <= j <= s.len() ==> !occurs_at(s, pat, j),
    ensures
        find(s, pat) is None,
    decreases s.len(),
{
    if s.len() > 0 {
        let rest = s.drop_first();
        assert(rest == s.skip(1));
        assert forall|j: int| 0 <= j <= rest.len() implies !occurs_at(rest, pat, j) by {
            lemma_occurs_at_shift(s, pat, 1, j);
        }
        lemma_find_absent(rest, pat);
    }
}

/// What `find` gives is an occurrence, and the leftmost one; where it gives
/// nothing, the pattern does not occur.
pub proof fn lemma_find_sound(s: Seq<char>, pat: Seq<char>)
    ensures
        match find(s, pat) {
            Some(i) => occurs_at(s, pat, i) && forall|j: int| 0 <= j < i ==> !occurs_at(s, pat, j),
            None => forall|j: int| !occurs_at(s, pat, j),
        },
    decreases s.len(),
{
    if !occurs_at(s, pat, 0) && s.len() > 0 {
        let rest = s.drop_first();
        assert(rest == s.skip(1));
        lemma_find_sound(rest, pat);
        match find(rest, pat) {
            Some(i) => {
                lemma_occurs_at_shift(s, pat, 1, i);
                assert forall|j: int| 0 <= j < i + 1 implies !occurs_at(s, pat, j) by {
                    if j > 0 {
                        lemma_occurs_at_shift(s, pat, 1, j - 1);
                    }
                }
            },
            None => {
                assert forall|j: int| !occurs_at(s, pat, j) by {
                    if j > 0 {
                        lemma_occurs_at_shift(s, pat, 1, j - 1);
                    }
                }
            },
        }
    }
}

/// Splitting gives at least one part.
pub proof fn lemma_pieces_nonempty(s: Seq<char>, pat: Seq<char>)
    ensures
        pieces(s, pat).len() >= 1,
{
}

/// Joining starts with the first part: the rest follows after one separator.
pub proof fn lemma_joined_first(first: Seq<char>, rest: Seq<Seq<char>>, sep: Seq<char>)
    requires
        rest.len() >= 1,
    ensures
        joined(seq![first] + rest, sep) == first + sep + joined(rest, sep),
    decreases rest.len(),
{
    let all = seq![first] + rest;
    assert(all.drop_last() =~= seq![first] + rest.drop_last());
    assert(all.last() == rest.last());
    if rest.len() == 1 {
        assert(all.drop_last() =~= seq![first]);
        assert(joined(seq![first], sep) == first);
        assert(joined(rest, sep) == rest.last());
        assert(joined(all, sep) =~= first + sep + joined(rest, sep));
    } else {
        lemma_joined_first(first, rest.drop_last(), sep);
        assert(joined(all, sep) =~= first + sep + joined(rest, sep));
    }
}

/// Whether `pat` stands in `s` at position `i`.
fn matches_at(s: &Vec<char>, pat: &Vec<char>, i: usize) -> (b: bool)
    ensures
        b == occurs_at(s@, pat@, i as int),
{
    let m = pat.len();
    if m == 0 || i > s.len() || s.len() - i < m {
        return false;
    }
    let mut k: usize = 0;
    while k < m
        invariant
            m == pat.len(),
            m > 0,
            i + m <= s.len(),
            k <= m,
            forall|j: int| 0 <= j < k ==> s@[i + j] == pat@[j],
        decreases m - k,
    {
        if s[i + k] != pat[k] {
            assert(s@.subrange(i as int, i + m)[k as int] != pat@[k as int]);
            return false;
        }
        k += 1;
    }
    assert(s@.subrange(i as int, i + m) =~= pat@);
    true
}

/// The position of the leftmost occurrence of `pat` in `s` at or after `from`.
fn find_from(s: &Vec<char>, pat: &Vec<char>, from: usize) -> (found: Option<usize>)
    requires
        from <= s.len(),
    ensures
        match found {
            Some(i) => from <= i && i + pat.len() <= s.len() && pat.len() > 0 && find(
                s@.skip(from as int),
                pat@,
            ) == Some(i - from),
            None => find(s@.skip(from as int), pat@) is None,
        },
{
    let n = s.len();
    let mut i: usize = from;
    while i < n
        invariant
            n == s.len(),
            from <= i <= n,
            forall|j: int| from <= j < i ==> !occurs_at(s@, pat@, j),
        decreases n - i,
    {
        if matches_at(s, pat, i) {
            proof {
                let rest = s@.skip(from as int);
                lemma_occurs_at_shift(s@, pat@, from as int, i - from);
                assert forall|j: int| 0 <= j < i - from implies !occurs_at(rest, pat@, j) by {
                    lemma_occurs_at_shift(s@, pat@, from as int, j);
                }
                lemma_find_leftmost(rest, pat@, i - from);
            }
            return Some(i);
        }
        i += 1;
    }
    proof {
        let rest = s@.skip(from as int);
        assert forall|j: int| 0 <= j <= rest.len() implies !occurs_at(rest, pat@, j) by {
            lemma_occurs_at_shift(s@, pat@, from as int, j);
        }
        lemma_find_absent(rest, pat@);
    }
    None
}

/// The parts of `s` between the occurrences of `pat`.
pub fn split<'a>(s: &'a str, pat: &str) -> (out: Vec<&'a str>)
    ensures
        out.deep_view() == pieces(s@, pat@),
{
    let chars = chars_of(s);
    let p = chars_of(pat);
    let ascii = s.is_ascii();
    let n = chars.len();
    let mut out: Vec<&'a str> = Vec::new();
    let mut start: usize = 0;
    proof {
        assert(s@.skip(0) =~= s@);
        assert(out.deep_view() + pieces(s@, pat@) =~= pieces(s@, pat@));
    }
    loop
        invariant
            chars@ == s@,
            p@ == pat@,
            n == chars.len(),
            ascii ==> is_ascii(s),
            start <= n,
            pieces(s@, pat@) == out.deep_view() + pieces(s@.skip(start as int), pat@),
        decreases n - start,
    {
        let ghost before = out.deep_view();
        let ghost rest = s@.skip(start as int);
        match find_from(&chars, &p, start) {
            Some(i) => {
                let part = slice(s, ascii, start, i);
                out.push(part);
                proof {
                    assert(rest.take(i - start) =~= part@);
                    assert(rest.skip(i - start + p.len()) =~= s@.skip(i + p.len()));
                    assert(out.deep_view() =~= before.push(part@));
                    assert(before + (seq![part@] + pieces(s@.skip(i + p.len()), pat@))
                        =~= before.push(part@) + pieces(s@.skip(i + p.len()), pat@));
                }
                start = i + p.len();
            },
            None => {
                let part = slice(s, ascii, start, n);
                out.push(part);
                proof {
                    assert(rest =~= part@);
                    assert(out.deep_view() =~= before.push(part@));
                    assert(before + seq![part@] =~= before.push(part@));
                }
                return out;
            },
        }
    }
}

/// `line` without the carriage return at its end, if it has one.
fn strip_cr<'a>(line: &'a str) -> (out: &'a str)
    ensures
        out@ == without_cr(line@),
{
    let n = line.unicode_len();
    if n > 0 && line.get_char(n - 1) == '\r' {
        let out = substring(line, 0, n - 1);
        assert(out@ =~= line@.drop_last());
        out
    } else {
        line
    }
}

/// The lines of `s`, without their line endings.
pub fn lines<'a>(s: &'a str) -> (out: Vec<&'a str>)
    ensures
        out.deep_view() == lines_of(s@),
{
    let parts = split(s, "\n");
    proof {
        lemma_pieces_nonempty(s@, "\n"@);
    }
    let n = parts.len();
    let ghost ended = parts.deep_view().drop_last().map_values(
        |line: Seq<char>| without_cr(line),
    );
    let mut out: Vec<&'a str> = Vec::new();
    let mut i: usize = 0;
    while i < n - 1
        invariant
            n == parts.len(),
            n >= 1,
            i <= n - 1,
            ended == parts.deep_view().drop_last().map_values(
                |line: Seq<char>| without_cr(line),
            ),
            out.deep_view() == ended.take(i as int),
        decreases n - i,
    {
        let ghost before = out.deep_view();
        let line = strip_cr(parts[i]);
        out.push(line);
        assert(out.deep_view() =~= before.push(line@));
        assert(ended.take(i + 1) =~= ended.take(i as int).push(line@));
        i += 1;
    }
    assert(ended.take(i as int) =~= ended);
    let last = parts[n - 1];
    if !last.is_empty() {
        let ghost before = out.deep_view();
        out.push(last);
        assert(out.deep_view() =~= before.push(last@));
    }
    out
}

/// `s` with every occurrence of `pat` replaced by `with`.
pub fn replace(s: &str, pat: &str, with: &str) -> (out: String)
    ensures
        out@ == replaced(s@, pat@, with@),
{
    let parts = split(s, pat);
    proof {
        lemma_pieces_nonempty(s@, pat@);
    }
    let n = parts.len();
    let mut out = String::from_str(parts[0]);
    assert(parts.deep_view().take(1) =~= seq![parts[0]@]);
    let mut i: usize = 1;
    while i < n
        invariant
            n == parts.len(),
            1 <= i <= n,
            out@ == joined(parts.deep_view().take(i as int), with@),
        decreases n - i,
    {
        out.append(with);
        out.append(parts[i]);
        proof {
            let next = parts.deep_view().take(i + 1);
            assert(next.drop_last() =~= parts.deep_view().take(i as int));
            assert(next.last() == parts[i as int]@);
        }
        i += 1;
    }
    assert(parts.deep_view().take(n as int) =~= parts.deep_view());
    out
}

} // verus!

//! Characters of string slices: white space and trimming, substrings by
//! character position, and comparison, each with its meaning over `Seq<char>`.

use vstd::prelude::*;
use vstd::std_specs::iter::IteratorSpec;
use vstd::string::{is_ascii, StrSliceExecFns};

verus! {

/// Whether `c` carries the Unicode `White_Space` property.
pub open spec fn is_space(c: char) -> bool {
    let n = c as u32;
    ||| 0x09 <= n <= 0x0D
    ||| n == 0x20
    ||| n == 0x85
    ||| n == 0xA0
    ||| n == 0x1680
    ||| 0x2000 <= n <= 0x200A
    ||| n == 0x2028
    ||| n == 0x2029
    ||| n == 0x202F
    ||| n == 0x205F
    ||| n == 0x3000
}

/// `s` without its leading white space.
pub open spec fn trimmed_start(s: Seq<char>) -> Seq<char>
    decreases s.len(),
{
    if s.len() > 0 && is_space(s[0]) {
        trimmed_start(s.drop_first())
    } else {
        s
    }
}

/// `s` without its trailing white space.
pub open spec fn trimmed_end(s: Seq<char>) -> Seq<char>
    decreases s.len(),
{
    if s.len() > 0 && is_space(s.last()) {
        trimmed_end(s.drop_last())
    } else {
        s
    }
}

/// `s` without leading and trailing white space.
pub open spec fn trimmed(s: Seq<char>) -> Seq<char> {
    trimmed_end(trimmed_start(s))
}

/// Trimming the start removes exactly the longest all-space prefix.
pub proof fn lemma_trimmed_start_is_skip(s: Seq<char>, k: int)
    requires
        0 <= k <= s.len(),
        forall|j: int| 0 <= j < k ==> is_space(#[trigger] s[j]),
        k < s.len() ==> !is_space(s[k]),
    ensures
        trimmed_start(s) == s.skip(k),
    decreases k,
{
    if k == 0 {
        assert(s.skip(0) =~= s);
    } else {
        let rest = s.drop_first();
        assert forall|j: int| 0 <= j < k - 1 implies is_space(#[trigger] rest[j]) by {
            assert(rest[j] == s[j + 1]);
        }
        lemma_trimmed_start_is_skip(rest, k - 1);
        assert(rest.skip(k - 1) =~= s.skip(k));
    }
}

/// Trimming the end removes exactly the longest all-space suffix.
pub proof fn lemma_trimmed_end_is_take(s: Seq<char>, k: int)
    requires
        0 <= k <= s.len(),
        forall|j: int| k <= j < s.len() ==> is_space(#[trigger] s[j]),
        k > 0 ==> !is_space(s[k - 1]),
    ensures
        trimmed_end(s) == s.take(k),
    decreases s.len() - k,
{
    if k == s.len() {
        assert(s.take(k) =~= s);
    } else {
        let rest = s.drop_last();
        lemma_trimmed_end_is_take(rest, k);
        assert(rest.take(k) =~= s.take(k));
    }
}

/// Trimming the start leaves a suffix of the text: the position where it
/// starts, before which all is white space and at which there is none.
pub proof fn lemma_trimmed_start_is_suffix(s: Seq<char>) -> (start: int)
    ensures
        0 <= start <= s.len(),
        trimmed_start(s) == s.skip(start),
        forall|j: int| 0 <= j < start ==> is_space(#[trigger] s[j]),
        start < s.len() ==> !is_space(s[start]),
    decreases s.len(),
{
    if s.len() > 0 && is_space(s[0]) {
        let rest = s.drop_first();
        let start = lemma_trimmed_start_is_suffix(rest);
        assert(rest.skip(start) =~= s.skip(start + 1));
        assert forall|j: int| 0 <= j < start + 1 implies is_space(#[trigger] s[j]) by {
            if j > 0 {
                assert(s[j] == rest[j - 1]);
            }
        }
        if start + 1 < s.len() {
            assert(s[start + 1] == rest[start]);
        }
        start + 1
    } else {
        assert(s.skip(0) =~= s);
        0
    }
}

/// Trimming the end leaves a prefix of the text: the position where it ends,
/// after which all is white space and before which there is none.
pub proof fn lemma_trimmed_end_is_prefix(s: Seq<char>) -> (end: int)
    ensures
        0 <= end <= s.len(),
        trimmed_end(s) == s.take(end),
        forall|j: int| end <= j < s.len() ==> is_space(#[trigger] s[j]),
        end > 0 ==> !is_space(s[end - 1]),
    decreases s.len(),
{
    if s.len() > 0 && is_space(s.last()) {
        let rest = s.drop_last();
        let end = lemma_trimmed_end_is_prefix(rest);
        assert(rest.take(end) =~= s.take(end));
        assert forall|j: int| end <= j < s.len() implies is_space(#[trigger] s[j]) by {
            if j < rest.len() {
                assert(s[j] == rest[j]);
            }
        }
        if end > 0 {
            assert(s[end - 1] == rest[end - 1]);
        }
        end
    } else {
        assert(s.take(s.len() as int) =~= s);
        s.len() as int
    }
}

/// Trimming leaves one connected part of the text: the positions where it
/// starts and ends.
pub proof fn lemma_trimmed_is_part(s: Seq<char>) -> (bounds: (int, int))
    ensures
        0 <= bounds.0 <= bounds.1 <= s.len(),
        trimmed(s) == s.subrange(bounds.0, bounds.1),
{
    let start = lemma_trimmed_start_is_suffix(s);
    let rest = s.skip(start);
    let end = lemma_trimmed_end_is_prefix(rest);
    assert(rest.take(end) =~= s.subrange(start, start + end));
    (start, start + end)
}

/// A blank before the text and a blank after it change nothing of what
/// trimming leaves.
pub proof fn lemma_trimmed_ignores_blanks(s: Seq<char>)
    ensures
        trimmed(seq![' '] + s + seq![' ']) == trimmed(s),
{
    let wide = seq![' '] + s + seq![' '];
    let start = lemma_trimmed_start_is_suffix(s);
    let kept = s.skip(start);
    let end = lemma_trimmed_end_is_prefix(kept);
    if start == s.len() {
        assert forall|j: int| 0 <= j < wide.len() implies is_space(#[trigger] wide[j]) by {
            if 0 < j <= s.len() {
                assert(wide[j] == s[j - 1]);
            }
        }
        lemma_trimmed_start_is_skip(wide, wide.len() as int);
        assert(wide.skip(wide.len() as int) =~= Seq::<char>::empty());
        assert(kept =~= Seq::<char>::empty());
    } else {
        assert forall|j: int| 0 <= j < start + 1 implies is_space(#[trigger] wide[j]) by {
            if j > 0 {
                assert(wide[j] == s[j - 1]);
            }
        }
        assert(wide[start + 1] == s[start]);
        lemma_trimmed_start_is_skip(wide, start + 1);
        let rest = wide.skip(start + 1);
        assert(rest =~= kept + seq![' ']);
        assert(kept[0] == s[start]);
        assert(end > 0);
        assert forall|j: int| end <= j < rest.len() implies is_space(#[trigger] rest[j]) by {
            if j < kept.len() {
                assert(rest[j] == kept[j]);
            }
        }
        assert(rest[end - 1] == kept[end - 1]);
        lemma_trimmed_end_is_take(rest, end);
        assert(rest.take(end) =~= kept.take(end));
    }
}

/// The characters of `s`, in order, as a vector that is indexed in constant time.
pub fn chars_of(s: &str) -> (out: Vec<char>)
    ensures
        out@ == s@,
{
    let mut out: Vec<char> = Vec::new();
    let chars = s.chars();
    for c in it: chars
        invariant
            it.seq() == s@,
            out@ == it.history(),
    {
        out.push(c);
    }
    out
}

/// The characters of `s` from position `from` up to, not including, position
/// `to`, where the caller has found out whether `s` is all ASCII. With ASCII
/// text the part is cut out in constant time.
pub(crate) fn slice<'a>(s: &'a str, ascii: bool, from: usize, to: usize) -> (out: &'a str)
    requires
        from <= to <= s@.len(),
        ascii ==> is_ascii(s),
    ensures
        out@ == s@.subrange(from as int, to as int),
{
    if ascii {
        s.substring_ascii(from, to)
    } else {
        s.substring_char(from, to)
    }
}

/// The characters of `s` from position `from` up to, not including, position `to`.
pub fn substring<'a>(s: &'a str, from: usize, to: usize) -> (out: &'a str)
    requires
        from <= to <= s@.len(),
    ensures
        out@ == s@.subrange(from as int, to as int),
{
    slice(s, s.is_ascii(), from, to)
}

/// Whether two string slices hold the same characters.
pub fn same_text(a: &str, b: &str) -> (same: bool)
    ensures
        same == (a@ == b@),
{
    let x = chars_of(a);
    let y = chars_of(b);
    if x.len() != y.len() {
        return false;
    }
    let mut i: usize = 0;
    while i < x.len()
        invariant
            x@ == a@,
            y@ == b@,
            x.len() == y.len(),
            i <= x.len(),
            forall|j: int| 0 <= j < i ==> x@[j] == y@[j],
        decreases x.len() - i,
    {
        if x[i] != y[i] {
            return false;
        }
        i += 1;
    }
    assert(x@ =~= y@);
    true
}

/// Whether `c` is white space.
pub fn is_whitespace(c: char) -> (b: bool)
    ensures
        b == is_space(c),
{
    let n: u32 = c as u32;
    (0x09 <= n && n <= 0x0D) || n == 0x20 || n == 0x85 || n == 0xA0 || n == 0x1680 || (0x2000 <= n
        && n <= 0x200A) || n == 0x2028 || n == 0x2029 || n == 0x202F || n == 0x205F || n
        == 0x3000
}

/// `s` without leading and trailing white space.
pub fn trim<'a>(s: &'a str) -> (out: &'a str)
    ensures
        out@ == trimmed(s@),
{
    let chars = chars_of(s);
    let n = chars.len();
    let mut start: usize = 0;
    while start < n && is_whitespace(chars[start])
        invariant
            n == chars.len(),
            start <= n,
            forall|j: int| 0 <= j < start ==> is_space(#[trigger] chars@[j]),
        decreases n - start,
    {
        start += 1;
    }
    let mut end: usize = n;
    while end > start && is_whitespace(chars[end - 1])
        invariant
            n == chars.len(),
            start <= end <= n,
            forall|j: int| end <= j < n ==> is_space(#[trigger] chars@[j]),
        decreases end,
    {
        end -= 1;
    }
    proof {
        let rest = s@.skip(start as int);
        lemma_trimmed_start_is_skip(s@, start as int);
        assert forall|j: int| end - start <= j < rest.len() implies is_space(
            #[trigger] rest[j],
        ) by {
            assert(rest[j] == chars@[j + start]);
        }
        lemma_trimmed_end_is_take(rest, end - start);
        assert(rest.take(end - start) =~= s@.subrange(start as int, end as int));
    }
    substring(s, start, end)
}

} // verus!

//! Reading of a decimal number from text.

use crate::text::chars_of;
use vstd::prelude::*;

verus! {

/// Whether `c` is one of the ten decimal digits.
pub open spec fn is_digit(c: char) -> bool {
    '0' as u32 <= c as u32 <= '9' as u32
}

/// Whether `s` holds decimal digits only.
pub open spec fn all_digits(s: Seq<char>) -> bool {
    forall|i: int| 0 <= i < s.len() ==> is_digit(#[trigger] s[i])
}

/// The number that the decimal digits `s` write. Leading zeros change nothing.
pub open spec fn digits_value(s: Seq<char>) -> int
    decreases s.len(),
{
    if s.len() == 0 {
        0
    } else {
        10 * digits_value(s.drop_last()) + (s.last() as u32 - '0' as u32)
    }
}

/// The integer that `s` writes: an optional sign, `+` or `-`, and then one or
/// more decimal digits, with nothing before, between or after them.
pub open spec fn parsed_int(s: Seq<char>) -> Option<int> {
    if s.len() > 0 && (s[0] == '+' || s[0] == '-') {
        let digits = s.drop_first();
        if digits.len() > 0 && all_digits(digits) {
            if s[0] == '-' {
                Some(-digits_value(digits))
            } else {
                Some(digits_value(digits))
            }
        } else {
            None
        }
    } else if s.len() > 0 && all_digits(s) {
        Some(digits_value(s))
    } else {
        None
    }
}

/// The integer that `s` writes, where it writes one that fits in 32 bits.
pub open spec fn parsed_i32(s: Seq<char>) -> Option<i32> {
    match parsed_int(s) {
        Some(v) if i32::MIN <= v <= i32::MAX => Some(v as i32),
        _ => None,
    }
}

/// The digits read so far never write more than all of them do.
pub proof fn lemma_digits_value_grows(s: Seq<char>, k: int)
    requires
        0 <= k <= s.len(),
        all_digits(s),
    ensures
        0 <= digits_value(s.take(k)) <= digits_value(s),
    decreases s.len() - k,
{
    if k == s.len() {
        assert(s.take(k) =~= s);
        lemma_digits_value_nonnegative(s);
    } else {
        let rest = s.drop_last();
        assert(is_digit(s[s.len() - 1]));
        assert forall|i: int| 0 <= i < rest.len() implies is_digit(#[trigger] rest[i]) by {
            assert(rest[i] == s[i]);
        }
        lemma_digits_value_grows(rest, k);
        assert(rest.take(k) =~= s.take(k));
    }
}

/// Digits write no negative number.
pub proof fn lemma_digits_value_nonnegative(s: Seq<char>)
    requires
        all_digits(s),
    ensures
        0 <= digits_value(s),
    decreases s.len(),
{
    if s.len() > 0 {
        let rest = s.drop_last();
        assert(is_digit(s[s.len() - 1]));
        assert forall|i: int| 0 <= i < rest.len() implies is_digit(#[trigger] rest[i]) by {
            assert(rest[i] == s[i]);
        }
        lemma_digits_value_nonnegative(rest);
    }
}

/// Whether `c` is a decimal digit.
pub fn is_decimal_digit(c: char) -> (b: bool)
    ensures
        b == is_digit(c),
{
    let n: u32 = c as u32;
    '0' as u32 <= n && n <= '9' as u32
}

/// Reads a 32-bit integer from `s`: `None` where `s` does not write an
/// integer, or writes one that does not fit.
pub fn parse_i32(s: &str) -> (out: Option<i32>)
    ensures
        out == parsed_i32(s@),
{
    let chars = chars_of(s);
    let n = chars.len();
    if n == 0 {
        return None;
    }
    let signed = chars[0] == '+' || chars[0] == '-';
    let negative = chars[0] == '-';
    let first: usize = if signed {
        1
    } else {
        0
    };
    if first == n {
        return None;
    }
    let ghost digits = s@.skip(first as int);
    assert(signed ==> digits =~= s@.drop_first());
    assert(!signed ==> digits =~= s@);
    let mut magnitude: i64 = 0;
    let mut i: usize = first;
    while i < n
        invariant
            chars@ == s@,
            n == chars.len(),
            first <= i <= n,
            signed == (s@[0] == '+' || s@[0] == '-'),
            signed ==> first == 1 && digits == s@.drop_first(),
            !signed ==> first == 0 && digits == s@,
            digits.len() == n - first,
            all_digits(digits.take(i - first)),
            magnitude == digits_value(digits.take(i - first)),
            0 <= magnitude <= 0x8000_0000,
        decreases n - i,
    {
        let c = chars[i];
        if !is_decimal_digit(c) {
            assert(digits[i - first] == c);
            return None;
        }
        let ghost read = digits.take(i - first + 1);
        proof {
            assert(read.drop_last() =~= digits.take(i - first));
            assert(read.last() == c);
            assert forall|j: int| 0 <= j < read.len() implies is_digit(#[trigger] read[j]) by {
                if j < i - first {
                    assert(read[j] == digits.take(i - first)[j]);
                }
            }
        }
        magnitude = magnitude * 10 + (c as u32 - '0' as u32) as i64;
        if magnitude > 0x8000_0000 {
            proof {
                if all_digits(digits) {
                    lemma_digits_value_grows(digits, i - first + 1);
                }
            }
            return None;
        }
        i += 1;
    }
    assert(digits.take(n - first) =~= digits);
    if negative {
        Some((-magnitude) as i32)
    } else if magnitude <= 0x7FFF_FFFF {
        Some(magnitude as i32)
    } else {
        None
    }
}

} // verus!

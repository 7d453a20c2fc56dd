//! Integer parsing.
//!
//! A decimal run is read digit by digit and its value checked against the
//! target range once the run is known, so a number with a leading zero, a
//! number too large for a `u64` and a byte that begins no number are each
//! refused with their own code.
use vstd::prelude::*;
use vstd::arithmetic::div_mod::lemma_add_mod_noop;
use crate::error::ErrorCode;

verus! {

pub open spec fn u64_modulus() -> int {
    0x1_0000_0000_0000_0000
}

/// An ASCII decimal digit.
pub open spec fn is_digit_byte(c: u8) -> bool {
    0x30 <= c <= 0x39
}

/// The value of one ASCII digit.
pub open spec fn digit_of(c: u8) -> nat {
    (c - 0x30) as nat
}

/// The first index at or after `i` that does not hold a digit.
pub open spec fn digit_end(s: Seq<u8>, i: int) -> int
    decreases s.len() - i,
{
    if i < 0 || i >= s.len() || !is_digit_byte(s[i]) {
        i
    } else {
        digit_end(s, i + 1)
    }
}

/// The number a run of digits spells, most significant first.
pub open spec fn decimal_value(s: Seq<u8>) -> nat
    decreases s.len(),
{
    if s.len() == 0 {
        0
    } else {
        decimal_value(s.drop_last()) * 10 + digit_of(s.last())
    }
}

/// Every byte of `s` is a digit.
pub open spec fn all_digits(s: Seq<u8>) -> bool {
    forall|k: int| 0 <= k < s.len() ==> #[trigger] is_digit_byte(s[k])
}

pub open spec fn pow10(n: nat) -> nat
    decreases n,
{
    if n == 0 {
        1
    } else {
        10 * pow10((n - 1) as nat)
    }
}

/// The run of digits folded onto `acc`, wrapping at `2^64` after every digit.
pub open spec fn wrapping_fold(acc: u64, s: Seq<u8>) -> u64
    decreases s.len(),
{
    if s.len() == 0 {
        acc
    } else {
        ((wrapping_fold(acc, s.drop_last()) as int * 10 + digit_of(s.last())) % u64_modulus()) as u64
    }
}

/// What reading an unsigned integer at `i` gives: its value and the index
/// after its digits, or the reason there is none.
pub open spec fn spec_parse_u64(s: Seq<u8>, i: int) -> Result<(u64, usize), ErrorCode> {
    if i >= s.len() {
        Err(ErrorCode::UnexpectedEnd)
    } else if !is_digit_byte(s[i]) {
        if s[i] == 0x2d {
            Err(ErrorCode::NumberOutOfRange)
        } else {
            Err(ErrorCode::ExpectedNumber)
        }
    } else if s[i] == 0x30 && digit_end(s, i) > i + 1 {
        Err(ErrorCode::InvalidNumber)
    } else if decimal_value(s.subrange(i, digit_end(s, i))) > u64::MAX {
        Err(ErrorCode::NumberOutOfRange)
    } else {
        Ok((decimal_value(s.subrange(i, digit_end(s, i))) as u64, digit_end(s, i) as usize))
    }
}

/// What reading a signed integer at `i` gives.
pub open spec fn spec_parse_i64(s: Seq<u8>, i: int) -> Result<(i64, usize), ErrorCode> {
    let neg = i < s.len() && s[i] == 0x2d;
    let at = if neg { i + 1 } else { i };
    match spec_parse_u64(s, at) {
        Err(e) => Err(e),
        Ok((m, end)) => {
            if neg && m > 0x8000_0000_0000_0000 {
                Err(ErrorCode::NumberOutOfRange)
            } else if !neg && m > 0x7fff_ffff_ffff_ffff {
                Err(ErrorCode::NumberOutOfRange)
            } else if neg {
                Ok(((-(m as int)) as i64, end))
            } else {
                Ok((m as i64, end))
            }
        },
    }
}

pub proof fn lemma_digit_end(s: Seq<u8>, i: int)
    requires
        0 <= i <= s.len(),
    ensures
        i <= digit_end(s, i) <= s.len(),
        all_digits(s.subrange(i, digit_end(s, i))),
        forall|k: int| i <= k < digit_end(s, i) ==> is_digit_byte(#[trigger] s[k]),
        digit_end(s, i) < s.len() ==> !is_digit_byte(s[digit_end(s, i)]),
    decreases s.len() - i,
{
    if i < s.len() && is_digit_byte(s[i]) {
        lemma_digit_end(s, i + 1);
    }
    let e = digit_end(s, i);
    assert forall|k: int| 0 <= k < s.subrange(i, e).len() implies #[trigger] is_digit_byte(
        s.subrange(i, e)[k],
    ) by {
        assert(s.subrange(i, e)[k] == s[i + k]);
    }
}

pub proof fn lemma_digit_end_step(s: Seq<u8>, i: int, j: int)
    requires
        0 <= i <= j <= digit_end(s, i),
    ensures
        digit_end(s, j) == digit_end(s, i),
    decreases j - i,
{
    if i < j {
        assert(i < s.len() && is_digit_byte(s[i]));
        lemma_digit_end_step(s, i + 1, j);
    }
}

pub proof fn lemma_decimal_value_bound(s: Seq<u8>)
    requires
        all_digits(s),
    ensures
        decimal_value(s) < pow10(s.len()),
    decreases s.len(),
{
    if s.len() > 0 {
        assert(all_digits(s.drop_last())) by {
            assert forall|k: int| 0 <= k < s.drop_last().len() implies #[trigger] is_digit_byte(
                s.drop_last()[k],
            ) by {
                assert(is_digit_byte(s[k]));
            }
        }
        assert(is_digit_byte(s[s.len() - 1]));
        lemma_decimal_value_bound(s.drop_last());
    }
}

pub proof fn lemma_decimal_prefix_le(s: Seq<u8>, k: int)
    requires
        0 <= k <= s.len(),
    ensures
        decimal_value(s.subrange(0, k)) <= decimal_value(s),
    decreases s.len(),
{
    if k < s.len() {
        assert(s.drop_last().subrange(0, k) =~= s.subrange(0, k));
        lemma_decimal_prefix_le(s.drop_last(), k);
    } else {
        assert(s.subrange(0, k) =~= s);
    }
}

pub proof fn lemma_decimal_push(s: Seq<u8>, a: int, b: int)
    requires
        0 <= a <= b < s.len(),
    ensures
        decimal_value(s.subrange(a, b + 1)) == decimal_value(s.subrange(a, b)) * 10 + digit_of(
            s[b],
        ),
{
    assert(s.subrange(a, b + 1).drop_last() =~= s.subrange(a, b));
}

pub proof fn lemma_wrapping_fold_exact(s: Seq<u8>)
    requires
        decimal_value(s) < u64_modulus(),
    ensures
        wrapping_fold(0, s) == decimal_value(s),
    decreases s.len(),
{
    if s.len() > 0 {
        assert(s.subrange(0, s.len() - 1) =~= s.drop_last());
        lemma_decimal_prefix_le(s, s.len() - 1);
        lemma_wrapping_fold_exact(s.drop_last());
    }
}

pub proof fn lemma_pow10_19()
    ensures
        pow10(19) == 10_000_000_000_000_000_000,
{
    reveal_with_fuel(pow10, 20);
}

pub proof fn lemma_pow10_monotone(a: nat, b: nat)
    requires
        a <= b,
    ensures
        pow10(a) <= pow10(b),
    decreases b,
{
    if a < b {
        lemma_pow10_monotone(a, (b - 1) as nat);
    }
}

/// The most digits that always fit a `u64`, since `10^19 - 1 < u64::MAX`.
pub const SAFE_DIGITS: usize = 19;

pub fn is_digit(c: u8) -> (r: bool)
    ensures
        r == is_digit_byte(c),
{
    c.wrapping_sub(0x30u8) < 10
}

/// The first byte where a number was expected is not a digit.
///
/// A well formed negative number is still a number; it just cannot fit an
/// unsigned target, and saying so is more useful than "expected a number".
pub fn not_a_number(first: u8) -> (e: ErrorCode)
    ensures
        e == (if first == 0x2d { ErrorCode::NumberOutOfRange } else { ErrorCode::ExpectedNumber }),
{
    if first == 0x2du8 {
        ErrorCode::NumberOutOfRange
    } else {
        ErrorCode::ExpectedNumber
    }
}

/// Accumulate the run of ASCII digits at `idx` onto `acc`, wrapping, and
/// return the value with the index of the first byte that is not a digit.
pub fn fold_digits(buf: &[u8], idx: usize, acc: u64) -> (r: (u64, usize))
    requires
        idx <= buf@.len(),
    ensures
        r.1 == digit_end(buf@, idx as int),
        r.0 == wrapping_fold(acc, buf@.subrange(idx as int, r.1 as int)),
{
    let n = buf.len();
    let mut i = idx;
    let mut a = acc;
    proof {
        lemma_digit_end(buf@, idx as int);
        assert(buf@.subrange(idx as int, idx as int).len() == 0);
    }
    while i < n && is_digit(buf[i])
        invariant
            n == buf@.len(),
            idx <= i <= digit_end(buf@, idx as int),
            digit_end(buf@, idx as int) <= n,
            a == wrapping_fold(acc, buf@.subrange(idx as int, i as int)),
            forall|k: int| idx <= k < digit_end(buf@, idx as int) ==> is_digit_byte(#[trigger] buf@[k]),
            digit_end(buf@, idx as int) < n ==> !is_digit_byte(buf@[digit_end(buf@, idx as int)]),
        decreases n - i,
    {
        let d = buf[i] - 0x30u8;
        proof {
            let t = buf@.subrange(idx as int, i as int + 1);
            assert(t.drop_last() =~= buf@.subrange(idx as int, i as int));
            let y = (a as int * 10) % u64_modulus();
            lemma_add_mod_noop(a as int * 10, d as int, u64_modulus());
            assert((d as int) % u64_modulus() == d as int);
            assert(y % u64_modulus() == y) by {
                vstd::arithmetic::div_mod::lemma_mod_twice(a as int * 10, u64_modulus());
            }
        }
        a = a.wrapping_mul(10).wrapping_add(d as u64);
        i += 1;
        proof {
            if i < digit_end(buf@, idx as int) {
                assert(is_digit_byte(buf@[i as int]));
            }
        }
    }
    proof {
        if i < digit_end(buf@, idx as int) {
            assert(is_digit_byte(buf@[i as int]));
        }
    }
    (a, i)
}

/// Twenty or more digits: the wrapping accumulation may have overflowed, so
/// redo it with checked arithmetic.
pub fn recheck_wide(buf: &[u8], start: usize, end: usize) -> (r: Result<u64, ErrorCode>)
    requires
        start <= end <= buf@.len(),
        all_digits(buf@.subrange(start as int, end as int)),
    ensures
        match r {
            Ok(v) => v == decimal_value(buf@.subrange(start as int, end as int)),
            Err(e) => e == ErrorCode::NumberOutOfRange && decimal_value(
                buf@.subrange(start as int, end as int),
            ) > u64::MAX,
        },
{
    let mut value: u64 = 0;
    let mut idx = start;
    proof {
        assert(buf@.subrange(start as int, start as int).len() == 0);
    }
    while idx < end
        invariant
            start <= idx <= end <= buf@.len(),
            all_digits(buf@.subrange(start as int, end as int)),
            value == decimal_value(buf@.subrange(start as int, idx as int)),
        decreases end - idx,
    {
        proof {
            assert(buf@.subrange(start as int, end as int)[idx - start] == buf@[idx as int]);
            assert(is_digit_byte(buf@.subrange(start as int, end as int)[idx - start]));
            lemma_decimal_push(buf@, start as int, idx as int);
        }
        let c = buf[idx] - 0x30u8;
        let next = match value.checked_mul(10) {
            Some(v) => v.checked_add(c as u64),
            None => None,
        };
        match next {
            Some(v) => {
                value = v;
            },
            None => {
                proof {
                    let whole = buf@.subrange(start as int, end as int);
                    assert(whole.subrange(0, idx - start + 1) =~= buf@.subrange(
                        start as int,
                        idx as int + 1,
                    ));
                    lemma_decimal_prefix_le(whole, idx - start + 1);
                }
                return Err(ErrorCode::NumberOutOfRange);
            },
        }
        idx += 1;
    }
    Ok(value)
}

/// The checks settled once the run of digits is known: a leading zero, and a
/// count that may have wrapped the accumulation.
pub fn finish_wide(buf: &[u8], start: usize, end: usize, value: u64) -> (r: Result<(u64, usize), ErrorCode>)
    requires
        start < end,
        end == digit_end(buf@, start as int),
        end <= buf@.len(),
        value == wrapping_fold(0, buf@.subrange(start as int, end as int)),
        all_digits(buf@.subrange(start as int, end as int)),
    ensures
        r == spec_parse_u64(buf@, start as int),
{
    let len = end - start;
    proof {
        assert(buf@.subrange(start as int, end as int)[0] == buf@[start as int]);
        assert(is_digit_byte(buf@[start as int]));
    }
    if buf[start] == 0x30u8 && len > 1 {
        return Err(ErrorCode::InvalidNumber);
    }
    if len > SAFE_DIGITS {
        return match recheck_wide(buf, start, end) {
            Ok(v) => Ok((v, end)),
            Err(e) => Err(e),
        };
    }
    proof {
        let s = buf@.subrange(start as int, end as int);
        lemma_decimal_value_bound(s);
        lemma_pow10_19();
        lemma_pow10_monotone(s.len(), 19);
        lemma_wrapping_fold_exact(s);
    }
    Ok((value, end))
}

/// Numbers read by the general path: the run is folded, then checked.
pub fn parse_u64_wide(buf: &[u8], start: usize) -> (r: Result<(u64, usize), ErrorCode>)
    requires
        start <= buf@.len(),
    ensures
        r == spec_parse_u64(buf@, start as int),
{
    if start >= buf.len() {
        return Err(ErrorCode::UnexpectedEnd);
    }
    let first = buf[start];
    if !is_digit(first) {
        return Err(not_a_number(first));
    }
    let (value, end) = fold_digits(buf, start, 0);
    proof {
        lemma_digit_end(buf@, start as int);
        assert(digit_end(buf@, start as int) == digit_end(buf@, start as int + 1));
    }
    finish_wide(buf, start, end, value)
}

/// Parse an unsigned decimal at `i`, stopping at the first non-digit.
///
/// Returns the value and the index of the terminator. Rejects a leading zero
/// followed by another digit, which JSON does not allow.
pub fn parse_u64(buf: &[u8], i: usize) -> (r: Result<(u64, usize), ErrorCode>)
    requires
        i <= buf@.len(),
    ensures
        r == spec_parse_u64(buf@, i as int),
{
    parse_u64_wide(buf, i)
}

/// Reject a numeric token that continues into fractional or exponent syntax.
pub open spec fn spec_float_tail(s: Seq<u8>, i: int) -> bool {
    0 <= i < s.len() && (s[i] == 0x2e || s[i] == 0x65 || s[i] == 0x45)
}

pub fn reject_float_tail(buf: &[u8], i: usize) -> (r: Result<(), ErrorCode>)
    ensures
        r == (if spec_float_tail(buf@, i as int) { Err(ErrorCode::InvalidNumber) } else { Ok(()) }),
{
    if i < buf.len() {
        let c = buf[i];
        if c == 0x2eu8 || c == 0x65u8 || c == 0x45u8 {
            return Err(ErrorCode::InvalidNumber);
        }
    }
    Ok(())
}

/// Parse a signed integer into `i64`.
pub fn parse_i64(buf: &[u8], i: usize) -> (r: Result<(i64, usize), ErrorCode>)
    requires
        i <= buf@.len(),
    ensures
        r == spec_parse_i64(buf@, i as int),
{
    let negative = i < buf.len() && buf[i] == 0x2du8;
    let at = if negative { i + 1 } else { i };
    let (magnitude, end) = match parse_u64(buf, at) {
        Ok(p) => p,
        Err(e) => return Err(e),
    };
    if negative {
        if magnitude > 0x8000_0000_0000_0000u64 {
            return Err(ErrorCode::NumberOutOfRange);
        }
        if magnitude == 0x8000_0000_0000_0000u64 {
            return Ok((i64::MIN, end));
        }
        Ok((-(magnitude as i64), end))
    } else {
        if magnitude > 0x7fff_ffff_ffff_ffffu64 {
            return Err(ErrorCode::NumberOutOfRange);
        }
        Ok((magnitude as i64, end))
    }
}

} // verus!

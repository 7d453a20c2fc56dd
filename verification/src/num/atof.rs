//! Decimal numbers read to the bits of the nearest binary float.
//!
//! A number literal is scanned into its significant digits and a power of
//! ten, and the pair is turned into the sign, exponent and mantissa bits of
//! an IEEE float by a 64x128-bit multiply against a table of truncated
//! powers of five (Eisel-Lemire). For the rare input where 128 bits cannot
//! settle the rounding the answer is `None`, and the caller defers to an
//! exact parser.
use vstd::prelude::*;
use vstd::string::StringSliceAdditionalSpecFns;
use crate::error::ErrorCode;
use crate::num::table::{power_of_five_128, pow5_entry, LARGEST_POWER_OF_FIVE, SMALLEST_POWER_OF_FIVE};
use crate::num::atoi::{
    all_digits, decimal_value, digit_end, digit_of, fold_digits, is_digit, is_digit_byte,
    lemma_decimal_value_bound, lemma_digit_end, lemma_pow10_19, lemma_pow10_monotone,
    lemma_wrapping_fold_exact, pow10, u64_modulus, wrapping_fold, SAFE_DIGITS,
};

verus! {

/// The parts of a decimal literal, before any rounding decision.
#[derive(Clone, Copy, Debug, PartialEq, Eq, Structural)]
pub struct Decimal {
    /// Up to nineteen significant digits, as an integer.
    pub mantissa: u64,
    /// The power of ten to apply to `mantissa`.
    pub exp10: i64,
    pub negative: bool,
    /// Significant digits were dropped, so `mantissa` is a lower bound
    /// rather than the exact value.
    pub truncated: bool,
}

/// The first index at or after `k` whose digit is not zero.
pub open spec fn first_nonzero(d: Seq<u8>, k: int) -> int
    decreases d.len() - k,
{
    if k < 0 || k >= d.len() || d[k] != 0x30 {
        k
    } else {
        first_nonzero(d, k + 1)
    }
}

/// The digits of `d` from its first nonzero one.
pub open spec fn significant(d: Seq<u8>) -> Seq<u8> {
    d.subrange(first_nonzero(d, 0), d.len() as int)
}

/// The significant digits kept: at most nineteen.
pub open spec fn kept_digits(d: Seq<u8>) -> Seq<u8> {
    let sig = significant(d);
    sig.subrange(0, if sig.len() < 19 { sig.len() as int } else { 19 })
}

/// How many significant digits were dropped past the nineteen kept.
pub open spec fn dropped_digits(d: Seq<u8>) -> int {
    significant(d).len() - kept_digits(d).len()
}

/// Whether a dropped digit was nonzero, so that the kept ones are short of
/// the value.
pub open spec fn dropped_nonzero(d: Seq<u8>) -> bool {
    exists|j: int| 19 <= j < significant(d).len() && #[trigger] significant(d)[j] != 0x30
}

/// The exponent's digits folded, the value holding still once it reaches
/// `2^20`: past that a float is already zero or infinite.
pub open spec fn exp_fold(s: Seq<u8>) -> int
    decreases s.len(),
{
    if s.len() == 0 {
        0
    } else {
        let e = exp_fold(s.drop_last());
        if e < 0x10_0000 {
            e * 10 + digit_of(s.last())
        } else {
            e
        }
    }
}

/// The parts of the number whose integer digits run over `a..b`, fraction
/// digits over `fs..c`, with an explicit exponent `e` and the token ending
/// at `end`.
pub open spec fn number_parts(
    s: Seq<u8>,
    a: int,
    b: int,
    fs: int,
    c: int,
    e: int,
    end: int,
    negative: bool,
) -> (Decimal, usize) {
    let digits = s.subrange(a, b) + s.subrange(fs, c);
    (
        Decimal {
            mantissa: decimal_value(kept_digits(digits)) as u64,
            exp10: ((fs - c) + e + dropped_digits(digits)) as i64,
            negative,
            truncated: dropped_nonzero(digits),
        },
        end as usize,
    )
}

/// The fraction after the integer digits that end at `b`: where its digits
/// run, or the refusal of a point with none after it.
pub open spec fn spec_fraction(s: Seq<u8>, b: int) -> Result<(int, int), ErrorCode> {
    if b < s.len() && s[b] == 0x2e {
        let c = digit_end(s, b + 1);
        if c == b + 1 {
            Err(ErrorCode::InvalidNumber)
        } else {
            Ok((b + 1, c))
        }
    } else {
        Ok((b, b))
    }
}

/// The exponent from `c`, if there is one: its signed value and where the
/// token ends, or the refusal of an exponent mark with no digits.
pub open spec fn spec_exponent(s: Seq<u8>, c: int) -> Result<(int, int), ErrorCode> {
    if c < s.len() && (s[c] == 0x65 || s[c] == 0x45) {
        let signed = c + 1 < s.len() && (s[c + 1] == 0x2b || s[c + 1] == 0x2d);
        let exp_neg = signed && s[c + 1] == 0x2d;
        let ds = if signed { c + 2 } else { c + 1 };
        if ds >= s.len() || !is_digit_byte(s[ds]) {
            Err(ErrorCode::InvalidNumber)
        } else {
            let end = digit_end(s, ds);
            let e = exp_fold(s.subrange(ds, end));
            Ok((if exp_neg { -e } else { e }, end))
        }
    } else {
        Ok((0, c))
    }
}

/// What scanning the number literal at `i` gives: its parts and the index
/// after it, or the reason it is not one.
pub open spec fn spec_scan(s: Seq<u8>, i: int) -> Result<(Decimal, usize), ErrorCode> {
    let negative = i < s.len() && s[i] == 0x2d;
    let a = if negative { i + 1 } else { i };
    if a >= s.len() || !is_digit_byte(s[a]) {
        Err(ErrorCode::ExpectedNumber)
    } else {
        let b = digit_end(s, a);
        if s[a] == 0x30 && b - a > 1 {
            Err(ErrorCode::InvalidNumber)
        } else {
            match spec_fraction(s, b) {
                Err(e) => Err(e),
                Ok((fs, c)) => match spec_exponent(s, c) {
                    Err(e) => Err(e),
                    Ok((e, end)) => Ok(number_parts(s, a, b, fs, c, e, end, negative)),
                },
            }
        }
    }
}

pub proof fn lemma_first_nonzero(d: Seq<u8>, k: int)
    requires
        0 <= k <= d.len(),
    ensures
        k <= first_nonzero(d, k) <= d.len(),
        forall|j: int| k <= j < first_nonzero(d, k) ==> d[j] == 0x30,
        first_nonzero(d, k) < d.len() ==> d[first_nonzero(d, k)] != 0x30,
    decreases d.len() - k,
{
    if k < d.len() && d[k] == 0x30 {
        lemma_first_nonzero(d, k + 1);
    }
}

proof fn lemma_exp_fold_bound(s: Seq<u8>)
    requires
        all_digits(s),
    ensures
        0 <= exp_fold(s) < 0x10_0000 * 10 + 10,
    decreases s.len(),
{
    if s.len() > 0 {
        assert(all_digits(s.drop_last())) by {
            assert forall|k: int| 0 <= k < s.drop_last().len() implies #[trigger] is_digit_byte(s.drop_last()[k]) by {
                assert(is_digit_byte(s[k]));
            }
        }
        assert(is_digit_byte(s[s.len() - 1]));
        lemma_exp_fold_bound(s.drop_last());
    }
}

/// Redo a number of more than nineteen digits, whose blind accumulation may
/// have wrapped.
///
/// Leading zeros carry no value, so they are stepped over first; the first
/// nineteen significant digits are folded again, every digit dropped after
/// them raises `exp10` by one, and the flag reports whether any of them was
/// nonzero, which is what tells the caller the mantissa is a lower bound.
fn refold_long(whole: &[u8], frac: &[u8], exp10: i64) -> (r: (u64, i64, bool))
    requires
        all_digits(whole@),
        all_digits(frac@),
        whole@.len() + frac@.len() < 0x4000_0000_0000_0000,
        whole@.len() + frac@.len() <= usize::MAX,
        exp10 + whole@.len() + frac@.len() <= i64::MAX,
    ensures
        r.0 == decimal_value(kept_digits(whole@ + frac@)),
        r.1 == exp10 + dropped_digits(whole@ + frac@),
        r.2 == dropped_nonzero(whole@ + frac@),
{
    let ghost d = whole@ + frac@;
    let a = whole.len();
    let b = frac.len();
    proof {
        broadcast use vstd::slice::axiom_spec_len;
    }
    let n = a + b;
    let ghost z = first_nonzero(d, 0);
    proof {
        lemma_first_nonzero(d, 0);
        lemma_pow10_19();
        assert(d.subrange(z, z) =~= Seq::<u8>::empty());
    }
    let mut mantissa: u64 = 0;
    let mut kept: usize = 0;
    let mut dropped: i64 = 0;
    let mut truncated = false;
    let mut started = false;
    let mut k: usize = 0;
    while k < n
        invariant
            n == d.len(),
            a == whole@.len(),
            d == whole@ + frac@,
            all_digits(whole@),
            all_digits(frac@),
            exp10 + n <= i64::MAX,
            n < 0x4000_0000_0000_0000,
            0 <= z <= n,
            forall|j: int| 0 <= j < z ==> d[j] == 0x30,
            z < n ==> d[z] != 0x30,
            k <= n,
            pow10(19) == 10_000_000_000_000_000_000,
            started == (k > z),
            !started ==> mantissa == 0 && kept == 0 && dropped == 0 && !truncated,
            started ==> kept == (if k - z < 19 { k - z } else { 19 }),
            started ==> mantissa == decimal_value(d.subrange(z, z + kept)),
            started ==> dropped == (k - z) - kept,
            started ==> (truncated == exists|j: int| z + 19 <= j < k && #[trigger] d[j] != 0x30),
        decreases n - k,
    {
        let c = if k < a { whole[k] } else { frac[k - a] };
        proof {
            if k < a {
                assert(is_digit_byte(whole@[k as int]));
            } else {
                assert(is_digit_byte(frac@[k - a]));
            }
            assert(c == d[k as int]);
        }
        let digit = c - 0x30u8;
        let ghost was_truncated = truncated;
        let ghost was_started = started;
        if !started && digit == 0 {
            proof {
                assert(k < z);
            }
        } else {
            if !started {
                proof {
                    assert(k == z);
                    assert(d.subrange(z, z + 1).drop_last() =~= d.subrange(z, z));
                    assert(d.subrange(z, z + 1).last() == c);
                    assert(decimal_value(d.subrange(z, z)) == 0);
                    assert(decimal_value(d.subrange(z, z + 1)) == digit_of(c));
                }
                started = true;
                mantissa = digit as u64;
                kept = 1;
            } else if kept < SAFE_DIGITS {
                proof {
                    let t = d.subrange(z, z + kept);
                    assert(all_digits(t)) by {
                        assert forall|j: int| 0 <= j < t.len() implies #[trigger] is_digit_byte(t[j]) by {
                            if z + j < a {
                                assert(is_digit_byte(whole@[z + j]));
                            } else {
                                assert(is_digit_byte(frac@[z + j - a]));
                            }
                        }
                    }
                    lemma_decimal_value_bound(t);
                    lemma_pow10_monotone(t.len(), 18);
                    assert(pow10(18) * 10 == pow10(19));
                    assert(d.subrange(z, z + kept + 1).drop_last() =~= t);
                    assert(k == z + kept);
                    assert(d.subrange(z, z + kept + 1).last() == c);
                    assert(decimal_value(d.subrange(z, z + kept + 1)) == decimal_value(t) * 10 + digit_of(c));
                }
                mantissa = mantissa * 10 + digit as u64;
                kept += 1;
            } else {
                proof {
                    assert(k - z >= 19);
                }
                dropped += 1;
                truncated = truncated || digit != 0;
            }
        }
        k += 1;
        proof {
            if started {
                if truncated {
                    if was_truncated {
                        let j = choose|j: int| z + 19 <= j < k - 1 && #[trigger] d[j] != 0x30;
                        assert(z + 19 <= j < k && d[j] != 0x30);
                    } else {
                        assert(d[k - 1] != 0x30);
                        assert(z + 19 <= k - 1);
                    }
                    assert(exists|j: int| z + 19 <= j < k && #[trigger] d[j] != 0x30);
                } else {
                    assert forall|j: int| z + 19 <= j < k implies !(#[trigger] d[j] != 0x30) by {
                        if j < k - 1 {
                            assert(was_started && !was_truncated);
                        } else {
                            assert(d[j] == c);
                        }
                    }
                }
            }
        }
    }
    proof {
        let sig = significant(d);
        assert(sig =~= d.subrange(z, n as int));
        if started {
            assert(kept_digits(d) =~= d.subrange(z, z + kept));
            if truncated {
                let j = choose|j: int| z + 19 <= j < n && #[trigger] d[j] != 0x30;
                assert(sig[j - z] != 0x30);
            }
            if dropped_nonzero(d) {
                let j = choose|j: int| 19 <= j < sig.len() && #[trigger] sig[j] != 0x30;
                assert(d[z + j] != 0x30);
            }
        } else {
            assert(kept_digits(d) =~= Seq::<u8>::empty());
            assert(decimal_value(Seq::<u8>::empty()) == 0);
        }
    }
    (mantissa, exp10 + dropped, truncated)
}

proof fn lemma_wrapping_fold_concat(acc: u64, x: Seq<u8>, y: Seq<u8>)
    ensures
        wrapping_fold(wrapping_fold(acc, x), y) == wrapping_fold(acc, x + y),
    decreases y.len(),
{
    if y.len() == 0 {
        assert(x + y =~= x);
    } else {
        assert((x + y).drop_last() =~= x + y.drop_last());
        assert((x + y).last() == y.last());
        lemma_wrapping_fold_concat(acc, x, y.drop_last());
    }
}

/// Zeros before the first nonzero digit add nothing to a number's value.
proof fn lemma_zeros_prefix(d: Seq<u8>, z: int)
    requires
        0 <= z <= d.len(),
        forall|j: int| 0 <= j < z ==> d[j] == 0x30,
    ensures
        decimal_value(d) == decimal_value(d.subrange(z, d.len() as int)),
    decreases d.len(),
{
    if d.len() > 0 {
        if z == d.len() {
            lemma_zeros_prefix(d.drop_last(), z - 1);
            assert(d.drop_last().subrange(z - 1, z - 1) =~= Seq::<u8>::empty());
            assert(d.subrange(z, z) =~= Seq::<u8>::empty());
            assert(decimal_value(Seq::<u8>::empty()) == 0);
            assert(d.last() == 0x30);
        } else {
            lemma_zeros_prefix(d.drop_last(), z);
            assert(d.subrange(z, d.len() as int).drop_last() =~= d.drop_last().subrange(z, d.len() - 1));
            assert(d.subrange(z, d.len() as int).last() == d.last());
        }
    }
}

/// A run of at most nineteen digits is kept whole.
proof fn lemma_short_digits(d: Seq<u8>)
    requires
        all_digits(d),
        d.len() <= 19,
    ensures
        decimal_value(kept_digits(d)) == decimal_value(d),
        dropped_digits(d) == 0,
        !dropped_nonzero(d),
{
    let z = first_nonzero(d, 0);
    lemma_first_nonzero(d, 0);
    lemma_zeros_prefix(d, z);
    assert(kept_digits(d) =~= significant(d));
}

/// Nineteen digits at most always fit below `10^19`.
proof fn lemma_kept_bound(d: Seq<u8>)
    requires
        all_digits(d),
    ensures
        decimal_value(kept_digits(d)) < 10_000_000_000_000_000_000,
{
    let z = first_nonzero(d, 0);
    lemma_first_nonzero(d, 0);
    let k = kept_digits(d);
    assert(all_digits(k)) by {
        assert forall|j: int| 0 <= j < k.len() implies #[trigger] is_digit_byte(k[j]) by {
            assert(k[j] == d[z + j]);
        }
    }
    lemma_decimal_value_bound(k);
    lemma_pow10_19();
    lemma_pow10_monotone(k.len(), 19);
}

/// Fold the digits of an exponent at `from`, holding still once the value
/// reaches `2^20`; anything past that is already zero or infinity.
fn fold_exponent(buf: &[u8], from: usize) -> (r: (i64, usize))
    requires
        from <= buf@.len(),
    ensures
        r.1 == digit_end(buf@, from as int),
        r.0 == exp_fold(buf@.subrange(from as int, r.1 as int)),
        0 <= r.0 < 0x10_0000 * 10 + 10,
{
    let n = buf.len();
    let mut idx = from;
    let mut e: i64 = 0;
    proof {
        lemma_digit_end(buf@, from as int);
        assert(buf@.subrange(from as int, from as int) =~= Seq::<u8>::empty());
    }
    while idx < n && is_digit(buf[idx])
        invariant
            n == buf@.len(),
            from <= idx <= digit_end(buf@, from as int) <= n,
            forall|k: int| from <= k < digit_end(buf@, from as int) ==> is_digit_byte(#[trigger] buf@[k]),
            digit_end(buf@, from as int) < n ==> !is_digit_byte(buf@[digit_end(buf@, from as int)]),
            e == exp_fold(buf@.subrange(from as int, idx as int)),
            0 <= e < 0x10_0000 * 10 + 10,
        decreases n - idx,
    {
        proof {
            let t = buf@.subrange(from as int, idx as int + 1);
            assert(t.drop_last() =~= buf@.subrange(from as int, idx as int));
            assert(t.last() == buf@[idx as int]);
        }
        if e < 0x10_0000 {
            e = e * 10 + (buf[idx] - 0x30u8) as i64;
        }
        idx += 1;
        proof {
            if idx < digit_end(buf@, from as int) {
                assert(is_digit_byte(buf@[idx as int]));
            }
        }
    }
    proof {
        if idx < digit_end(buf@, from as int) {
            assert(is_digit_byte(buf@[idx as int]));
        }
    }
    (e, idx)
}

/// The exponent from `c`, if there is one.
fn scan_exponent(buf: &[u8], c: usize) -> (r: Result<(i64, usize), ErrorCode>)
    requires
        c <= buf@.len(),
    ensures
        match spec_exponent(buf@, c as int) {
            Ok((e, end)) => r matches Ok((v, x)) && v == e && x == end && -0x10_0000 * 10 - 10 < e < 0x10_0000 * 10 + 10,
            Err(code) => r == Err::<(i64, usize), ErrorCode>(code),
        },
{
    let n = buf.len();
    let mut idx = c;
    if !(idx < n && (buf[idx] == 0x65u8 || buf[idx] == 0x45u8)) {
        return Ok((0, c));
    }
    idx += 1;
    let mut exp_neg = false;
    if idx < n && (buf[idx] == 0x2bu8 || buf[idx] == 0x2du8) {
        exp_neg = buf[idx] == 0x2du8;
        idx += 1;
    }
    if idx >= n || !is_digit(buf[idx]) {
        return Err(ErrorCode::InvalidNumber);
    }
    let (e, end) = fold_exponent(buf, idx);
    Ok((if exp_neg { -e } else { e }, end))
}

/// Put the parts together once the token is known to be well formed.
fn assemble(
    buf: &[u8],
    a: usize,
    b: usize,
    fs: usize,
    c: usize,
    mantissa: u64,
    e: i64,
    end: usize,
    negative: bool,
) -> (r: (Decimal, usize))
    requires
        a <= b <= fs <= c <= buf@.len(),
        buf@.len() < 0x4000_0000_0000_0000,
        -0x10_0000 * 10 - 10 < e < 0x10_0000 * 10 + 10,
        all_digits(buf@.subrange(a as int, b as int)),
        all_digits(buf@.subrange(fs as int, c as int)),
        mantissa == wrapping_fold(0, buf@.subrange(a as int, b as int) + buf@.subrange(fs as int, c as int)),
    ensures
        r == number_parts(buf@, a as int, b as int, fs as int, c as int, e as int, end as int, negative),
        r.0.mantissa < 10_000_000_000_000_000_000,
{
    let ghost s = buf@;
    let ghost digits = s.subrange(a as int, b as int) + s.subrange(fs as int, c as int);
    proof {
        assert(all_digits(digits)) by {
            assert forall|k: int| 0 <= k < digits.len() implies #[trigger] is_digit_byte(digits[k]) by {
                if k < b - a {
                    assert(digits[k] == s.subrange(a as int, b as int)[k]);
                } else {
                    assert(digits[k] == s.subrange(fs as int, c as int)[k - (b - a)]);
                }
            }
        }
        lemma_kept_bound(digits);
    }
    let int_digits = b - a;
    let frac_digits = c - fs;
    let exp10: i64 = e - frac_digits as i64;
    if int_digits + frac_digits > SAFE_DIGITS {
        proof {
            assert(buf@.subrange(a as int, a + int_digits) == s.subrange(a as int, b as int));
            assert(buf@.subrange(fs as int, fs + frac_digits) == s.subrange(fs as int, c as int));
        }
        let (m, x, t) = refold_long(&buf[a..a + int_digits], &buf[fs..fs + frac_digits], exp10);
        (Decimal { mantissa: m, exp10: x, negative, truncated: t }, end)
    } else {
        proof {
            assert(all_digits(digits)) by {
                assert forall|k: int| 0 <= k < digits.len() implies #[trigger] is_digit_byte(digits[k]) by {
                    if k < b - a {
                        assert(digits[k] == s.subrange(a as int, b as int)[k]);
                    } else {
                        assert(digits[k] == s.subrange(fs as int, c as int)[k - (b - a)]);
                    }
                }
            }
            lemma_short_digits(digits);
            lemma_decimal_value_bound(digits);
            lemma_pow10_19();
            lemma_pow10_monotone(digits.len(), 19);
            lemma_wrapping_fold_exact(digits);
        }
        (Decimal { mantissa, exp10, negative, truncated: false }, end)
    }
}

/// Scan the JSON number literal at `i` into its parts, returning them with
/// the index of the first byte after the token.
///
/// The digits are accumulated blind and counted afterwards; a leading zero
/// on the integer part, an empty fraction or exponent, and a count past
/// nineteen are all settled from the positions the folds stopped at.
pub fn scan(buf: &[u8], i: usize) -> (r: Result<(Decimal, usize), ErrorCode>)
    requires
        i <= buf@.len(),
        buf@.len() < 0x4000_0000_0000_0000,
    ensures
        r == spec_scan(buf@, i as int),
        r matches Ok((d, _)) ==> d.mantissa < 10_000_000_000_000_000_000,
{
    let ghost s = buf@;
    let n = buf.len();
    let negative = i < n && buf[i] == 0x2du8;
    let a = if negative { i + 1 } else { i };
    if a >= n || !is_digit(buf[a]) {
        return Err(ErrorCode::ExpectedNumber);
    }
    let (m0, b) = fold_digits(buf, a, 0);
    proof {
        lemma_digit_end(s, a as int);
    }
    if buf[a] == 0x30u8 && b - a > 1 {
        return Err(ErrorCode::InvalidNumber);
    }
    let mut mantissa = m0;
    let mut fs = b;
    let mut c = b;
    if b < n && buf[b] == 0x2eu8 {
        fs = b + 1;
        let (m1, x) = fold_digits(buf, fs, mantissa);
        proof {
            lemma_digit_end(s, fs as int);
            lemma_wrapping_fold_concat(0, s.subrange(a as int, b as int), s.subrange(fs as int, x as int));
        }
        if x == fs {
            return Err(ErrorCode::InvalidNumber);
        }
        mantissa = m1;
        c = x;
    } else {
        proof {
            assert(s.subrange(b as int, b as int) =~= Seq::<u8>::empty());
            assert(s.subrange(a as int, b as int) + s.subrange(b as int, b as int) =~= s.subrange(a as int, b as int));
        }
    }
    proof {
        assert(spec_fraction(s, b as int) == Ok::<(int, int), ErrorCode>((fs as int, c as int)));
    }
    let (e, end) = match scan_exponent(buf, c) {
        Ok(p) => p,
        Err(code) => return Err(code),
    };
    Ok(assemble(buf, a, b, fs, c, mantissa, e, end, negative))
}

/// The constants of a binary floating-point format that rounding needs.
#[derive(Clone, Copy)]
pub struct FloatFormat {
    pub mantissa_explicit_bits: i32,
    pub minimum_exponent: i32,
    pub infinite_power: i32,
    pub smallest_power_of_ten: i32,
    pub largest_power_of_ten: i32,
    pub min_exponent_round_to_even: i32,
    pub max_exponent_round_to_even: i32,
    /// Where the sign bit sits.
    pub sign_shift: u32,
}

/// IEEE binary64.
pub open spec fn spec_f64_format() -> FloatFormat {
    FloatFormat {
        mantissa_explicit_bits: 52,
        minimum_exponent: -1023i32,
        infinite_power: 0x7ff,
        smallest_power_of_ten: -342i32,
        largest_power_of_ten: 308,
        min_exponent_round_to_even: -4i32,
        max_exponent_round_to_even: 23,
        sign_shift: 63,
    }
}

/// IEEE binary32.
pub open spec fn spec_f32_format() -> FloatFormat {
    FloatFormat {
        mantissa_explicit_bits: 23,
        minimum_exponent: -127i32,
        infinite_power: 0xff,
        smallest_power_of_ten: -65i32,
        largest_power_of_ten: 38,
        min_exponent_round_to_even: -17i32,
        max_exponent_round_to_even: 10,
        sign_shift: 31,
    }
}

pub open spec fn known_format(f: FloatFormat) -> bool {
    f == spec_f64_format() || f == spec_f32_format()
}

impl FloatFormat {
    pub fn binary64() -> (f: FloatFormat)
        ensures
            f == spec_f64_format(),
    {
        FloatFormat {
            mantissa_explicit_bits: 52,
            minimum_exponent: -1023,
            infinite_power: 0x7ff,
            smallest_power_of_ten: -342,
            largest_power_of_ten: 308,
            min_exponent_round_to_even: -4,
            max_exponent_round_to_even: 23,
            sign_shift: 63,
        }
    }

    pub fn binary32() -> (f: FloatFormat)
        ensures
            f == spec_f32_format(),
    {
        FloatFormat {
            mantissa_explicit_bits: 23,
            minimum_exponent: -127,
            infinite_power: 0xff,
            smallest_power_of_ten: -65,
            largest_power_of_ten: 38,
            min_exponent_round_to_even: -17,
            max_exponent_round_to_even: 10,
            sign_shift: 31,
        }
    }
}

/// How many zero bits stand above the highest set bit of `x`: all 64 for
/// zero, and otherwise the count that leaves the highest set bit at
/// `63 - r`.
fn leading_zeros(x: u64) -> (r: u32)
    ensures
        r as int == vstd::std_specs::bits::u64_leading_zeros(x),
        r <= 64,
        (r == 64) == (x == 0),
        r < 64 ==> (x >> ((63 - r) as u64)) == 1,
{
    let r = x.leading_zeros();
    proof {
        vstd::std_specs::bits::axiom_u64_leading_zeros(x);
        let z = r as u64;
        if z < 64 {
            let hi = (x >> ((63 - z) as u64)) & 1;
            let above = x >> ((64 - z) as u64);
            assert(hi != 0);
            assert(above == 0);
            assert(x >> ((63 - z) as u64) == 1) by (bit_vector)
                requires
                    z < 64,
                    hi == (x >> ((63 - z) as u64)) & 1,
                    hi != 0,
                    above == x >> ((64 - z) as u64),
                    above == 0,
            ;
        }
    }
    r
}

/// The full 128-bit product of two words, as its low and high words.
fn full_mul(a: u64, b: u64) -> (r: (u64, u64))
    ensures
        r.1 * 0x1_0000_0000_0000_0000 + r.0 == a * b,
{
    proof {
        assert((a as u128) * (b as u128) <= 0xffff_ffff_ffff_ffffu128 * 0xffff_ffff_ffff_ffffu128) by (nonlinear_arith)
            requires
                a <= 0xffff_ffff_ffff_ffffu64,
                b <= 0xffff_ffff_ffff_ffffu64,
        ;
    }
    let r = (a as u128) * (b as u128);
    proof {
        assert(r == (r >> 64u128) * 0x1_0000_0000_0000_0000u128 + ((r as u64) as u128)) by (bit_vector);
        assert((r >> 64u128) < 0x1_0000_0000_0000_0000u128) by (bit_vector);
    }
    (r as u64, (r >> 64) as u64)
}

/// The product of `w` and the table's 128-bit power of five for `10^q`:
/// the high word's product, and the low word's carried in only when the
/// bits under the kept precision are all ones and could carry.
pub open spec fn approx_product(q: int, w: u64, precision: u32) -> int {
    let (bhi, blo) = pow5_entry(q - SMALLEST_POWER_OF_FIVE);
    let first = w * bhi;
    let mask = u64::MAX >> precision;
    if ((first / 0x1_0000_0000_0000_0000) as u64) & mask == mask {
        first + (w * blo) / 0x1_0000_0000_0000_0000
    } else {
        first
    }
}

/// Where the product leaves the rounding of `w * 10^q` unsettled: `w`
/// shifted up to its top bit, the product's low word saturated, and `q`
/// outside the window in which the product is exact, so that adding one
/// could carry across the rounding boundary.
pub open spec fn product_ambiguous(fmt: FloatFormat, q: int, w: u64) -> bool {
    let lz = vstd::std_specs::bits::u64_leading_zeros(w);
    let n = (w << (lz as u64)) as u64;
    &&& approx_product(q, n, (fmt.mantissa_explicit_bits + 3) as u32) % 0x1_0000_0000_0000_0000 == u64::MAX as int
    &&& !(-27 <= q <= 55)
}

/// The product of `w` and the power of five for `10^q`, to 128 bits, as
/// [`approx_product`] says.
fn product_approx(q: i64, w: u64, precision: u32) -> (r: (u64, u64))
    requires
        SMALLEST_POWER_OF_FIVE <= q <= LARGEST_POWER_OF_FIVE,
        precision < 64,
    ensures
        r.1 * 0x1_0000_0000_0000_0000 + r.0 == approx_product(q as int, w, precision),
        ({
            let (bhi, blo) = pow5_entry(q - SMALLEST_POWER_OF_FIVE);
            let first = w * bhi;
            let mask = u64::MAX >> precision;
            r.1 * 0x1_0000_0000_0000_0000 + r.0 == if ((first / 0x1_0000_0000_0000_0000) as u64) & mask == mask {
                first + (w * blo) / 0x1_0000_0000_0000_0000
            } else {
                first
            }
        }),
{
    let mask: u64 = u64::MAX >> precision;
    let (bhi, blo) = power_of_five_128(q);
    let (lo, hi) = full_mul(w, bhi);
    proof {
        assert(hi == (w * bhi) / 0x1_0000_0000_0000_0000) by (nonlinear_arith)
            requires
                hi * 0x1_0000_0000_0000_0000 + lo == w * bhi,
                lo < 0x1_0000_0000_0000_0000,
        {
        }
    }
    if hi & mask == mask {
        let (second_lo, second_hi) = full_mul(w, blo);
        proof {
            assert(second_hi == (w * blo) / 0x1_0000_0000_0000_0000) by (nonlinear_arith)
                requires
                    second_hi * 0x1_0000_0000_0000_0000 + second_lo == w * blo,
                    second_lo < 0x1_0000_0000_0000_0000,
            {
            }
            assert(hi < 0xffff_ffff_ffff_ffff) by (nonlinear_arith)
                requires
                    hi * 0x1_0000_0000_0000_0000 + lo == w * bhi,
                    w <= 0xffff_ffff_ffff_ffff,
                    bhi <= 0xffff_ffff_ffff_ffff,
                    lo >= 0,
            {
            }
        }
        let sum = lo as u128 + second_hi as u128;
        let lo2 = sum as u64;
        let carry: u64 = if sum >= 0x1_0000_0000_0000_0000u128 { 1 } else { 0 };
        proof {
            assert(sum == (carry as u128) * 0x1_0000_0000_0000_0000u128 + (lo2 as u128)) by (bit_vector)
                requires
                    sum < 0x2_0000_0000_0000_0000u128,
                    lo2 == sum as u64,
                    carry == (if sum >= 0x1_0000_0000_0000_0000u128 { 1u64 } else { 0u64 }),
            ;
        }
        (lo2, hi + carry)
    } else {
        (lo, hi)
    }
}

/// The binary exponent of `10^q`, exact over the range the table covers:
/// `217706 / 65536` approximates `log2(10)`.
fn power(q: i32) -> (r: i32)
    requires
        -342 <= q <= 308,
    ensures
        r == (((q * 217706) as i32) >> 16i32) + 63,
        -1200 <= r <= 1200,
{
    let x: i32 = q * 217706;
    proof {
        assert(-74455452 <= x <= 67053448);
        assert(-1200 <= (x >> 16i32) <= 1100) by (bit_vector)
            requires
                -74455452 <= x <= 67053448,
        ;
    }
    (x >> 16) + 63
}

proof fn lemma_shr_small(x: u64, s: u64)
    requires
        9 <= s < 64,
    ensures
        x >> s < 0x80_0000_0000_0000,
        (x >> s) & 1 <= 1,
{
    assert(x >> s < 0x80_0000_0000_0000 && (x >> s) & 1 <= 1) by (bit_vector)
        requires
            9 <= s < 64,
    ;
}

proof fn lemma_round_step(m: u64)
    requires
        m < 0x80_0000_0000_0000,
    ensures
        m & 1 <= 1,
        ((m + (m & 1)) as u64) >> 1u64 < 0x80_0000_0000_0000,
        (m >> 1u64) <= m,
{
    assert(m & 1 <= 1 && ((m + (m & 1)) as u64) >> 1u64 < 0x80_0000_0000_0000 && (m >> 1u64) <= m) by (bit_vector)
        requires
            m < 0x80_0000_0000_0000,
    ;
}

/// The biased mantissa and exponent of the float nearest `w * 10^q`, or
/// `None` where 128 bits of the power of five could not decide the
/// rounding (Eisel-Lemire).
///
/// A zero mantissa or an exponent below the format's reach is zero; one
/// above it is infinity.
pub fn compute_float(fmt: FloatFormat, q: i64, w: u64) -> (r: Option<(u64, i32)>)
    requires
        known_format(fmt),
    ensures
        (w == 0 || q < fmt.smallest_power_of_ten) ==> r == Some((0u64, 0i32)),
        (w != 0 && fmt.smallest_power_of_ten <= q && q > fmt.largest_power_of_ten) ==> r == Some(
            (0u64, fmt.infinite_power),
        ),
        r matches Some((m, e)) ==> 0 <= e <= fmt.infinite_power && (e == fmt.infinite_power ==> m == 0),
        r is None <==> (w != 0 && fmt.smallest_power_of_ten <= q <= fmt.largest_power_of_ten
            && product_ambiguous(fmt, q as int, w)),
{
    if w == 0 || q < fmt.smallest_power_of_ten as i64 {
        return Some((0, 0));
    }
    if q > fmt.largest_power_of_ten as i64 {
        return Some((0, fmt.infinite_power));
    }
    let lz = leading_zeros(w);
    let w = w << lz;
    let mbits = fmt.mantissa_explicit_bits as u32;
    let (lo, hi) = product_approx(q, w, mbits + 3);
    proof {
        let v = approx_product(q as int, w, (mbits + 3) as u32);
        assert((mbits + 3) as u32 == (fmt.mantissa_explicit_bits + 3) as u32);
        vstd::arithmetic::div_mod::lemma_fundamental_div_mod_converse(v, 0x1_0000_0000_0000_0000, hi as int, lo as int);
        assert(v % 0x1_0000_0000_0000_0000 == lo);
    }
    if lo == u64::MAX {
        // The approximation is saturated, so adding one could carry across
        // the rounding boundary; outside this window the product is exact.
        let inside_safe_exponent = -27 <= q && q <= 55;
        if !inside_safe_exponent {
            return None;
        }
    }
    let upperbit: u64 = hi >> 63;
    proof {
        assert(hi >> 63u64 <= 1) by (bit_vector);
    }
    let shift: u32 = upperbit as u32 + 64 - mbits - 3;
    let mut mantissa = hi >> shift;
    proof {
        lemma_shr_small(hi, shift as u64);
    }
    let mut power2 = power(q as i32) + upperbit as i32 - lz as i32 - fmt.minimum_exponent;
    if power2 <= 0 {
        if -power2 + 1 >= 64 {
            // More than 64 bits below the smallest subnormal.
            return Some((0, 0));
        }
        let m0 = mantissa;
        mantissa = mantissa >> ((-power2 + 1) as u32);
        proof {
            assert((m0 >> (((-power2 + 1) as u32) as u64)) <= m0) by (bit_vector);
            lemma_round_step(mantissa);
        }
        mantissa = mantissa + (mantissa & 1);
        mantissa = mantissa >> 1;
        // Rounding up out of the subnormal range lands on the smallest
        // normal, which the exponent field encodes as one.
        let e: i32 = if mantissa >= (1u64 << mbits) { 1 } else { 0 };
        return Some((mantissa, e));
    }
    // A tie with an even mantissa rounds down, not up; only reachable where
    // the product was exact, which is why the exponent window is checked.
    if lo <= 1 && q >= fmt.min_exponent_round_to_even as i64 && q <= fmt.max_exponent_round_to_even as i64
        && mantissa & 3 == 1 && (mantissa << shift) == hi {
        let m0 = mantissa;
        mantissa = mantissa & !1u64;
        proof {
            assert(m0 & !1u64 <= m0) by (bit_vector);
        }
    }
    proof {
        lemma_round_step(mantissa);
    }
    mantissa = mantissa + (mantissa & 1);
    mantissa = mantissa >> 1;
    if mantissa >= (2u64 << mbits) {
        mantissa = 1u64 << mbits;
        power2 = power2 + 1;
    }
    mantissa = mantissa & !(1u64 << mbits);
    if power2 >= fmt.infinite_power {
        return Some((0, fmt.infinite_power));
    }
    Some((mantissa, power2))
}

/// [`compute_float`] for a mantissa that had digits dropped from it: the
/// true value lies between `w` and `w + 1` times `10^q`, so both ends must
/// round the same way for the answer to be certain.
fn compute_float_truncated(fmt: FloatFormat, q: i64, w: u64) -> (r: Option<(u64, i32)>)
    requires
        known_format(fmt),
        0 < w < u64::MAX,
    ensures
        q < fmt.smallest_power_of_ten ==> r == Some((0u64, 0i32)),
        (fmt.smallest_power_of_ten <= q && q > fmt.largest_power_of_ten) ==> r == Some((0u64, fmt.infinite_power)),
        r matches Some((m, e)) ==> 0 <= e <= fmt.infinite_power && (e == fmt.infinite_power ==> m == 0),
        fmt.smallest_power_of_ten <= q <= fmt.largest_power_of_ten && (product_ambiguous(fmt, q as int, w)
            || product_ambiguous(fmt, q as int, (w + 1) as u64)) ==> r is None,
{
    let low = compute_float(fmt, q, w);
    let high = compute_float(fmt, q, w + 1);
    match (low, high) {
        (Some((m1, e1)), Some((m2, e2))) => {
            if m1 == m2 && e1 == e2 {
                Some((m1, e1))
            } else {
                None
            }
        },
        _ => None,
    }
}

/// The bits of the float with biased mantissa `m`, exponent field `e` and
/// the given sign, in the format's width.
pub open spec fn spec_float_bits(fmt: FloatFormat, m: u64, e: i32, negative: bool) -> u64 {
    if fmt.sign_shift == 63 {
        m | ((e as u64) << 52u64) | (if negative { 0x8000_0000_0000_0000u64 } else { 0u64 })
    } else {
        ((m as u32) | ((e as u32) << 23u32) | (if negative { 0x8000_0000u32 } else { 0u32 })) as u64
    }
}

fn float_bits(fmt: FloatFormat, m: u64, e: i32, negative: bool) -> (r: u64)
    requires
        known_format(fmt),
        0 <= e,
    ensures
        r == spec_float_bits(fmt, m, e, negative),
{
    if fmt.sign_shift == 63 {
        m | ((e as u64) << 52u64) | (if negative { 0x8000_0000_0000_0000u64 } else { 0u64 })
    } else {
        ((m as u32) | ((e as u32) << 23u32) | (if negative { 0x8000_0000u32 } else { 0u32 })) as u64
    }
}

/// Parse the JSON number at `i` to the bits of the nearest float of the
/// format, with the index after the token.
///
/// The bits are `None` for the rare input whose rounding 128 bits of the
/// power of five could not settle; the token is then known good, and the
/// caller converts it exactly.
pub fn parse_float(buf: &[u8], i: usize, fmt: FloatFormat) -> (r: Result<(Option<u64>, usize), ErrorCode>)
    requires
        i <= buf@.len(),
        buf@.len() < 0x4000_0000_0000_0000,
        known_format(fmt),
    ensures
        match spec_scan(buf@, i as int) {
            Err(code) => r == Err::<(Option<u64>, usize), ErrorCode>(code),
            Ok((d, end)) => r matches Ok((bits, x)) && x == end && {
                &&& (d.mantissa == 0 || d.exp10 < fmt.smallest_power_of_ten) ==> bits == Some(
                    spec_float_bits(fmt, 0, 0, d.negative),
                )
                &&& (d.mantissa != 0 && fmt.smallest_power_of_ten <= d.exp10 && d.exp10 > fmt.largest_power_of_ten)
                    ==> bits == Some(spec_float_bits(fmt, 0, fmt.infinite_power, d.negative))
                &&& bits matches Some(b) ==> exists|m: u64, e: i32|
                    0 <= e <= fmt.infinite_power && b == #[trigger] spec_float_bits(fmt, m, e, d.negative)
                &&& !d.truncated ==> (bits is None <==> (d.mantissa != 0 && fmt.smallest_power_of_ten <= d.exp10
                    <= fmt.largest_power_of_ten && product_ambiguous(fmt, d.exp10 as int, d.mantissa)))
                &&& d.truncated && d.mantissa != 0 && fmt.smallest_power_of_ten <= d.exp10 <= fmt.largest_power_of_ten
                    && (product_ambiguous(fmt, d.exp10 as int, d.mantissa) || product_ambiguous(
                    fmt,
                    d.exp10 as int,
                    (d.mantissa + 1) as u64,
                )) ==> bits is None
            },
        },
{
    let (d, end) = match scan(buf, i) {
        Ok(p) => p,
        Err(code) => return Err(code),
    };
    if d.mantissa == 0 {
        // Zero keeps its sign: `-0.0` is a distinct value.
        return Ok((Some(float_bits(fmt, 0, 0, d.negative)), end));
    }
    let resolved = if d.truncated {
        compute_float_truncated(fmt, d.exp10, d.mantissa)
    } else {
        compute_float(fmt, d.exp10, d.mantissa)
    };
    match resolved {
        Some((m, e)) => Ok((Some(float_bits(fmt, m, e, d.negative)), end)),
        None => Ok((None, end)),
    }
}

/// A number token is ASCII from its first byte to its last.
pub proof fn lemma_scan_ascii(s: Seq<u8>, i: int)
    requires
        0 <= i <= s.len(),
        s.len() <= usize::MAX,
    ensures
        spec_scan(s, i) matches Ok((_, end)) ==> i <= end <= s.len() && forall|k: int| i <= k < end ==> #[trigger] s[k] < 0x80,
{
    let negative = i < s.len() && s[i] == 0x2d;
    let a = if negative { i + 1 } else { i };
    if spec_scan(s, i) is Ok {
        let b = digit_end(s, a);
        lemma_digit_end(s, a);
        let has_frac = b < s.len() && s[b] == 0x2e;
        if has_frac {
            lemma_digit_end(s, b + 1);
        }
        let c = if has_frac { digit_end(s, b + 1) } else { b };
        if c < s.len() && (s[c] == 0x65 || s[c] == 0x45) {
            let signed = c + 1 < s.len() && (s[c + 1] == 0x2b || s[c + 1] == 0x2d);
            let ds = if signed { c + 2 } else { c + 1 };
            lemma_digit_end(s, ds);
        }
        let end = spec_scan(s, i).unwrap().1 as int;
        assert forall|k: int| i <= k < end implies #[trigger] s[k] < 0x80 by {
            if k < a {
            } else if k < b {
                assert(is_digit_byte(s[k]));
            } else if k == b {
            } else if k < c {
                assert(is_digit_byte(s[k]));
            } else if k == c {
            } else if k == c + 1 {
                if !(s[k] == 0x2b || s[k] == 0x2d) {
                    assert(is_digit_byte(s[k]));
                }
            } else {
                assert(is_digit_byte(s[k]));
            }
        }
    }
}

/// Walk a JSON number literal without converting it, returning the index
/// of the first byte after the token.
pub fn scan_number(buf: &[u8], i: usize) -> (r: Result<usize, ErrorCode>)
    requires
        i <= buf@.len(),
        buf@.len() < 0x4000_0000_0000_0000,
    ensures
        r == (match spec_scan(buf@, i as int) {
            Ok((_, end)) => Ok::<usize, ErrorCode>(end),
            Err(e) => Err(e),
        }),
{
    match scan(buf, i) {
        Ok((_, end)) => Ok(end),
        Err(e) => Err(e),
    }
}

/// The bytes are one JSON number literal and nothing else.
pub open spec fn spec_is_number(b: Seq<u8>) -> bool {
    spec_scan(b, 0) matches Ok((_, end)) && end == b.len()
}

/// Whether `s` is one JSON number literal and nothing else.
pub fn is_number(s: &str) -> (r: bool)
    requires
        s.spec_bytes().len() < 0x4000_0000_0000_0000,
    ensures
        r == spec_is_number(s.spec_bytes()),
{
    let bytes = s.as_bytes();
    match scan_number(bytes, 0) {
        Ok(end) => end == bytes.len(),
        Err(_) => false,
    }
}

} // verus!

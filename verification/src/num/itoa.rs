//! Integer serialization.
use vstd::prelude::*;
use crate::error::ErrorCode;
use crate::num::atoi::{
    all_digits, decimal_value, digit_end, digit_of, is_digit_byte, lemma_digit_end, spec_parse_i64,
    spec_parse_u64,
};

verus! {

/// The decimal spelling of `v`, most significant digit first, with no
/// leading zeros.
pub open spec fn decimal_digits(v: nat) -> Seq<u8>
    decreases v,
{
    if v < 10 {
        seq![(0x30 + v) as u8]
    } else {
        decimal_digits(v / 10).push((0x30 + v % 10) as u8)
    }
}

/// Widest decimal expansion of a `u64`.
pub const MAX_INT_DIGITS: usize = 20;

pub proof fn lemma_decimal_digits_len(v: nat)
    ensures
        decimal_digits(v).len() >= 1,
        v < 10 ==> decimal_digits(v).len() == 1,
        v >= 10 ==> decimal_digits(v).len() == decimal_digits(v / 10).len() + 1,
    decreases v,
{
    if v >= 10 {
        lemma_decimal_digits_len(v / 10);
    }
}

pub proof fn lemma_decimal_digits_ascii(v: nat)
    ensures
        forall|k: int|
            0 <= k < decimal_digits(v).len() ==> 0x30 <= #[trigger] decimal_digits(v)[k] <= 0x39,
    decreases v,
{
    if v >= 10 {
        lemma_decimal_digits_ascii(v / 10);
        let d = decimal_digits(v / 10);
        assert forall|k: int| 0 <= k < decimal_digits(v).len() implies 0x30
            <= #[trigger] decimal_digits(v)[k] <= 0x39 by {
            if k < d.len() {
                assert(decimal_digits(v)[k] == d[k]);
            }
        }
    }
}

/// The number of decimal digits `v` takes.
pub fn digit_count(v: u64) -> (n: usize)
    ensures
        n == decimal_digits(v as nat).len(),
        1 <= n <= MAX_INT_DIGITS,
    decreases v,
{
    proof {
        lemma_decimal_digits_len(v as nat);
    }
    if v < 10 {
        1
    } else {
        let n = digit_count(v / 10);
        proof {
            assert(n <= 19) by {
                                lemma_short(v / 10);
            }
        }
        n + 1
    }
}

proof fn lemma_short(v: u64)
    requires
        v <= 0x1999_9999_9999_9999,
    ensures
        decimal_digits(v as nat).len() <= 19,
{
    crate::num::atoi::lemma_pow10_19();
    lemma_digits_len_bound(v as nat, 19);
}

/// A number below `10^k` has at most `k` digits.
pub proof fn lemma_digits_len_bound(v: nat, k: nat)
    requires
        k >= 1,
        v < crate::num::atoi::pow10(k),
    ensures
        decimal_digits(v).len() <= k,
    decreases k,
{
    lemma_decimal_digits_len(v);
    reveal_with_fuel(crate::num::atoi::pow10, 2);
    if v >= 10 {
        assert(k >= 2) by {
            if k == 1 {
                assert(crate::num::atoi::pow10(1) == 10);
            }
        }
        assert(v / 10 < crate::num::atoi::pow10((k - 1) as nat));
        lemma_digits_len_bound(v / 10, (k - 1) as nat);
    }
}

/// Append the decimal form of `v` to `out`, returning its length.
pub fn write_u64(v: u64, out: &mut Vec<u8>) -> (n: usize)
    ensures
        final(out)@ == old(out)@ + decimal_digits(v as nat),
        n == decimal_digits(v as nat).len(),
        1 <= n <= MAX_INT_DIGITS,
    decreases v,
{
    let n = digit_count(v);
    if v >= 10 {
        write_u64(v / 10, out);
    }
    out.push(0x30u8 + (v % 10) as u8);
    proof {
        if v < 10 {
            assert(decimal_digits(v as nat) =~= seq![(0x30 + v) as u8]);
        }
    }
    n
}

/// Append the decimal form of a `u128`.
pub fn write_u128_digits(v: u128, out: &mut Vec<u8>)
    ensures
        final(out)@ == old(out)@ + decimal_digits(v as nat),
    decreases v,
{
    if v >= 10 {
        write_u128_digits(v / 10, out);
    }
    out.push(0x30u8 + (v % 10) as u8);
    proof {
        if v < 10 {
            assert(decimal_digits(v as nat) =~= seq![(0x30 + v) as u8]);
        }
    }
}

/// The digits of a number spell it back.
pub proof fn lemma_decimal_digits_value(v: nat)
    ensures
        decimal_value(decimal_digits(v)) == v,
        all_digits(decimal_digits(v)),
        v > 0 ==> decimal_digits(v)[0] != 0x30,
    decreases v,
{
    lemma_decimal_digits_len(v);
    lemma_decimal_digits_ascii(v);
    if v >= 10 {
        lemma_decimal_digits_value(v / 10);
        let d = decimal_digits(v);
        assert(d.drop_last() =~= decimal_digits(v / 10));
        assert(d[0] == decimal_digits(v / 10)[0]);
        assert(d.last() == (0x30 + v % 10) as u8);
        assert(digit_of(d.last()) == v % 10);
        assert(decimal_value(d) == decimal_value(d.drop_last()) * 10 + digit_of(d.last()));
        assert(v == (v / 10) * 10 + v % 10);
    } else {
        let d = decimal_digits(v);
        assert(d.drop_last() =~= Seq::<u8>::empty());
        assert(decimal_value(d.drop_last()) == 0);
        assert(d.last() == (0x30 + v) as u8);
        assert(decimal_value(d) == decimal_value(d.drop_last()) * 10 + digit_of(d.last()));
    }
    assert(all_digits(decimal_digits(v))) by {
        assert forall|k: int| 0 <= k < decimal_digits(v).len() implies #[trigger] is_digit_byte(decimal_digits(v)[k]) by {
        }
    }
}

proof fn lemma_digits_run(s: Seq<u8>, i: int)
    requires
        0 <= i <= s.len(),
        all_digits(s),
    ensures
        digit_end(s, i) == s.len(),
    decreases s.len() - i,
{
    if i < s.len() {
        assert(is_digit_byte(s[i]));
        lemma_digits_run(s, i + 1);
    }
}

/// Reading back the decimal text of a `u64` gives the number, and stops
/// after its last digit.
pub proof fn lemma_u64_reads_back(v: u64)
    ensures
        spec_parse_u64(decimal_digits(v as nat), 0) == Ok::<(u64, usize), ErrorCode>(
            (v, decimal_digits(v as nat).len() as usize),
        ),
        decimal_digits(v as nat).len() <= MAX_INT_DIGITS,
{
    let d = decimal_digits(v as nat);
    lemma_decimal_digits_value(v as nat);
    lemma_decimal_digits_len(v as nat);
    lemma_digits_run(d, 0);
    assert(d.subrange(0, d.len() as int) =~= d);
    assert(is_digit_byte(d[0]));
    lemma_digit_count_bound(v as nat);
}

proof fn lemma_digit_count_bound(v: nat)
    requires
        v <= u64::MAX,
    ensures
        decimal_digits(v).len() <= MAX_INT_DIGITS,
{
    crate::num::atoi::lemma_pow10_19();
    assert(crate::num::atoi::pow10(20) == 10 * crate::num::atoi::pow10(19));
    lemma_digits_len_bound(v, 20);
}

/// Reading back the text of an `i64`, sign and all, gives the number.
pub proof fn lemma_i64_reads_back(v: i64)
    ensures
        ({
            let text = if v < 0 {
                seq![0x2du8] + decimal_digits((-(v as int)) as nat)
            } else {
                decimal_digits(v as nat)
            };
            &&& spec_parse_i64(text, 0) == Ok::<(i64, usize), ErrorCode>((v, text.len() as usize))
            &&& text.len() <= 21
        }),
{
    if v < 0 {
        let m = (-(v as int)) as nat;
        let d = decimal_digits(m);
        let text = seq![0x2du8] + d;
        lemma_decimal_digits_value(m);
        lemma_decimal_digits_len(m);
        assert(text.subrange(1, text.len() as int) =~= d);
        lemma_digits_run(d, 0);
        lemma_digit_end_shift(text, d);
        assert(text[1] == d[0]);
        assert(is_digit_byte(d[0]));
        lemma_digit_count_bound(m);
        assert(text.subrange(1, digit_end(text, 1)) =~= d);
    } else {
        lemma_u64_reads_back(v as u64);
        let d = decimal_digits(v as nat);
        lemma_decimal_digits_len(v as nat);
        lemma_decimal_digits_ascii(v as nat);
        assert(d[0] != 0x2d);
    }
}

proof fn lemma_digit_end_shift(text: Seq<u8>, d: Seq<u8>)
    requires
        text.len() == d.len() + 1,
        text.subrange(1, text.len() as int) == d,
        all_digits(d),
    ensures
        digit_end(text, 1) == text.len(),
{
    assert(all_digits(text.subrange(1, text.len() as int)));
    lemma_digits_tail(text, 1);
}

proof fn lemma_digits_tail(s: Seq<u8>, i: int)
    requires
        0 <= i <= s.len(),
        all_digits(s.subrange(i, s.len() as int)),
    ensures
        digit_end(s, i) == s.len(),
    decreases s.len() - i,
{
    if i < s.len() {
        assert(s.subrange(i, s.len() as int)[0] == s[i]);
        assert(is_digit_byte(s[i]));
        assert(all_digits(s.subrange(i + 1, s.len() as int))) by {
            assert forall|k: int| 0 <= k < s.len() - (i + 1) implies #[trigger] is_digit_byte(s.subrange(i + 1, s.len() as int)[k]) by {
                assert(s.subrange(i + 1, s.len() as int)[k] == s.subrange(i, s.len() as int)[k + 1]);
            }
        }
        lemma_digits_tail(s, i + 1);
    }
}

} // verus!

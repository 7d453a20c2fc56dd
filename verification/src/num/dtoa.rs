//! Spelling a float's shortest digits as JSON text.
//!
//! The digits come from [`crate::num::zmij`]; this module decides how to
//! spell them:
//!
//! - fixed notation when the scientific exponent is in `[-4, max_fixed]`,
//!   scientific otherwise, `max_fixed` being 15 for binary64 and 6 for
//!   binary32;
//! - no trailing `.0`: an integral value writes as `5`, not `5.0`;
//! - an uppercase `E`, no `+` on a positive exponent and no leading zero in
//!   it;
//! - a negative zero writes as `-0`.
use vstd::prelude::*;
use crate::num::itoa::{decimal_digits, lemma_decimal_digits_ascii, write_u64};
use crate::text::all_ascii;
use crate::num::atoi::all_digits;
use crate::num::zmij::{digits_f32, digits_f64, Digits};

verus! {

/// The smallest scientific exponent still written in fixed notation.
pub const MIN_FIXED: i32 = -4;
/// The largest scientific exponent written in fixed notation for binary64.
pub const MAX_FIXED_F64: i32 = 15;
/// The largest scientific exponent written in fixed notation for binary32.
pub const MAX_FIXED_F32: i32 = 6;

/// `n` zero digits.
pub open spec fn zeros(n: nat) -> Seq<u8> {
    Seq::new(n, |_k: int| 0x30u8)
}

/// The exponent after `E`: a minus sign where it is negative, and its
/// digits with no leading zero.
pub open spec fn exponent_text(e: int) -> Seq<u8> {
    if e < 0 {
        seq![0x2du8] + decimal_digits((-e) as nat)
    } else {
        decimal_digits(e as nat)
    }
}

/// The text for the digits `ds` with scientific exponent `e10`, negative or
/// not, fixed notation reaching up to the exponent `max_fixed`.
pub open spec fn float_text(negative: bool, ds: Seq<u8>, e10: int, max_fixed: int) -> Seq<u8> {
    let sign = if negative { seq![0x2du8] } else { Seq::<u8>::empty() };
    let nd = ds.len() as int;
    sign + if MIN_FIXED <= e10 <= max_fixed {
        if e10 >= 0 {
            if e10 + 1 >= nd {
                ds + zeros((e10 + 1 - nd) as nat)
            } else {
                ds.subrange(0, e10 + 1) + seq![0x2eu8] + ds.subrange(e10 + 1, nd)
            }
        } else {
            seq![0x30u8, 0x2eu8] + zeros((-e10 - 1) as nat) + ds
        }
    } else {
        seq![ds[0]] + (if nd > 1 { seq![0x2eu8] + ds.subrange(1, nd) } else { Seq::<u8>::empty() })
            + seq![0x45u8] + exponent_text(e10)
    }
}

/// The text of a signed zero.
pub open spec fn zero_text(negative: bool) -> Seq<u8> {
    if negative { seq![0x2du8, 0x30u8] } else { seq![0x30u8] }
}

/// Append `src[from..to]`.
fn push_run(out: &mut Vec<u8>, src: &Vec<u8>, from: usize, to: usize)
    requires
        from <= to <= src@.len(),
    ensures
        final(out)@ == old(out)@ + src@.subrange(from as int, to as int),
{
    let mut i = from;
    while i < to
        invariant
            from <= i <= to,
            to <= src@.len(),
            out@ == old(out)@ + src@.subrange(from as int, i as int),
        decreases to - i,
    {
        out.push(src[i]);
        i += 1;
        proof {
            assert(out@ =~= old(out)@ + src@.subrange(from as int, i as int));
        }
    }
}

/// Append `n` zero digits.
fn push_zeros(out: &mut Vec<u8>, n: usize)
    ensures
        final(out)@ == old(out)@ + zeros(n as nat),
{
    let mut i: usize = 0;
    while i < n
        invariant
            i <= n,
            out@ == old(out)@ + zeros(i as nat),
        decreases n - i,
    {
        out.push(0x30u8);
        i += 1;
        proof {
            assert(out@ =~= old(out)@ + zeros(i as nat));
        }
    }
}

/// Append the text for `d`.
pub fn render(negative: bool, d: &Digits, max_fixed: i32, out: &mut Vec<u8>)
    requires
        d.digits@.len() >= 1,
        -1000 < d.e10 < 1000,
        MIN_FIXED <= max_fixed < 1000,
    ensures
        final(out)@ == old(out)@ + float_text(negative, d.digits@, d.e10 as int, max_fixed as int),
{
    let ghost start = out@;
    if negative {
        out.push(0x2du8);
    }
    let ghost signed = out@;
    let nd = d.digits.len();
    let e10 = d.e10;
    if e10 >= MIN_FIXED && e10 <= max_fixed {
        if e10 >= 0 {
            let int_digits = (e10 as usize) + 1;
            if int_digits >= nd {
                push_run(out, &d.digits, 0, nd);
                push_zeros(out, int_digits - nd);
                proof {
                    assert(d.digits@.subrange(0, nd as int) =~= d.digits@);
                }
            } else {
                push_run(out, &d.digits, 0, int_digits);
                out.push(0x2eu8);
                push_run(out, &d.digits, int_digits, nd);
            }
        } else {
            out.push(0x30u8);
            out.push(0x2eu8);
            push_zeros(out, (-e10 - 1) as usize);
            push_run(out, &d.digits, 0, nd);
            proof {
                assert(d.digits@.subrange(0, nd as int) =~= d.digits@);
            }
        }
    } else {
        out.push(d.digits[0]);
        if nd > 1 {
            out.push(0x2eu8);
            push_run(out, &d.digits, 1, nd);
        }
        out.push(0x45u8);
        if e10 < 0 {
            out.push(0x2du8);
            write_u64((-e10) as u64, out);
        } else {
            write_u64(e10 as u64, out);
        }
    }
    proof {
        assert(out@ =~= start + float_text(negative, d.digits@, d.e10 as int, max_fixed as int));
    }
}

/// Append the text of a signed zero, which has no digits to generate.
pub fn write_zero(negative: bool, out: &mut Vec<u8>)
    ensures
        final(out)@ == old(out)@ + zero_text(negative),
{
    if negative {
        out.push(0x2du8);
    }
    out.push(0x30u8);
    proof {
        assert(out@ =~= old(out)@ + zero_text(negative));
    }
}

/// `t` spells, in the layout above, some nonempty run of decimal digits
/// with some exponent.
pub open spec fn spells_float(t: Seq<u8>, negative: bool, max_fixed: int) -> bool {
    exists|ds: Seq<u8>, e10: int|
        ds.len() >= 1 && all_digits(ds) && -1000 < e10 < 1000 && t == #[trigger] float_text(negative, ds, e10, max_fixed)
}

/// The text of the binary64 with bits `bits`: `None` for NaN and the
/// infinities, and where the conversion leaves no digits; a signed zero;
/// otherwise the sign, if any, and the digits laid out.
pub open spec fn f64_text(bits: u64) -> Option<Seq<u8>> {
    if (bits >> 52u64) & 0x7ff == 0x7ff {
        None
    } else {
        let negative = bits >> 63u64 == 1;
        let mag = bits & 0x7fff_ffff_ffff_ffff;
        if mag == 0 {
            Some(zero_text(negative))
        } else {
            match crate::num::zmij::digits_f64_spec(mag) {
                Some((ds, e10)) => Some(float_text(negative, ds, e10 as int, MAX_FIXED_F64 as int)),
                None => None,
            }
        }
    }
}

/// The same for the binary32 with bits `bits`.
pub open spec fn f32_text(bits: u32) -> Option<Seq<u8>> {
    if (bits >> 23u32) & 0xff == 0xff {
        None
    } else {
        let negative = bits >> 31u32 == 1;
        let mag = bits & 0x7fff_ffff;
        if mag == 0 {
            Some(zero_text(negative))
        } else {
            match crate::num::zmij::digits_f32_spec(mag) {
                Some((ds, e10)) => Some(float_text(negative, ds, e10 as int, MAX_FIXED_F32 as int)),
                None => None,
            }
        }
    }
}

/// Append the text of the binary64 with bits `bits`. Returns `false`, with
/// nothing appended, for NaN and the infinities, which JSON cannot spell, and
/// where the conversion leaves no digits to lay out.
pub fn write_f64(bits: u64, out: &mut Vec<u8>) -> (r: bool)
    ensures
        (bits >> 52) & 0x7ff == 0x7ff ==> !r,
        (bits >> 52) & 0x7ff != 0x7ff && bits & 0x7fff_ffff_ffff_ffff == 0 ==> r && final(out)@ == old(out)@
            + zero_text(bits >> 63 == 1),
        r && bits & 0x7fff_ffff_ffff_ffff != 0 ==> exists|t: Seq<u8>|
            final(out)@ == old(out)@ + t && spells_float(t, bits >> 63 == 1, MAX_FIXED_F64 as int),
        !r ==> final(out)@ == old(out)@,
        match f64_text(bits) {
            Some(t) => r && final(out)@ == old(out)@ + t,
            None => !r,
        },
{
    if (bits >> 52) & 0x7ff == 0x7ff {
        return false;
    }
    let negative = bits >> 63 == 1;
    let mag = bits & 0x7fff_ffff_ffff_ffff;
    if mag == 0 {
        write_zero(negative, out);
        return true;
    }
    proof {
        assert(mag < 0x7ff0_0000_0000_0000) by (bit_vector)
            requires
                (bits >> 52) & 0x7ff != 0x7ff,
                mag == bits & 0x7fff_ffff_ffff_ffff,
        ;
    }
    match digits_f64(mag) {
        Some(d) => {
            render(negative, &d, MAX_FIXED_F64, out);
            proof {
                let t = float_text(negative, d.digits@, d.e10 as int, MAX_FIXED_F64 as int);
                assert(spells_float(t, negative, MAX_FIXED_F64 as int));
            }
            true
        },
        None => false,
    }
}

/// Append the text of the binary32 with bits `bits`; `false`, with nothing
/// appended, for NaN and the infinities and where no digits are laid out.
pub fn write_f32(bits: u32, out: &mut Vec<u8>) -> (r: bool)
    ensures
        (bits >> 23) & 0xff == 0xff ==> !r,
        (bits >> 23) & 0xff != 0xff && bits & 0x7fff_ffff == 0 ==> r && final(out)@ == old(out)@ + zero_text(
            bits >> 31 == 1,
        ),
        r && bits & 0x7fff_ffff != 0 ==> exists|t: Seq<u8>|
            final(out)@ == old(out)@ + t && spells_float(t, bits >> 31 == 1, MAX_FIXED_F32 as int),
        !r ==> final(out)@ == old(out)@,
        match f32_text(bits) {
            Some(t) => r && final(out)@ == old(out)@ + t,
            None => !r,
        },
{
    if (bits >> 23) & 0xff == 0xff {
        return false;
    }
    let negative = bits >> 31 == 1;
    let mag = bits & 0x7fff_ffff;
    if mag == 0 {
        write_zero(negative, out);
        return true;
    }
    proof {
        assert(mag < 0x7f80_0000) by (bit_vector)
            requires
                (bits >> 23) & 0xff != 0xff,
                mag == bits & 0x7fff_ffff,
        ;
    }
    match digits_f32(mag) {
        Some(d) => {
            render(negative, &d, MAX_FIXED_F32, out);
            proof {
                let t = float_text(negative, d.digits@, d.e10 as int, MAX_FIXED_F32 as int);
                assert(spells_float(t, negative, MAX_FIXED_F32 as int));
            }
            true
        },
        None => false,
    }
}

/// The text of a float is plain ASCII.
pub proof fn lemma_float_text_ascii(negative: bool, ds: Seq<u8>, e10: int, max_fixed: int)
    requires
        ds.len() >= 1,
        all_digits(ds),
    ensures
        all_ascii(float_text(negative, ds, e10, max_fixed)),
{
    let t = float_text(negative, ds, e10, max_fixed);
    lemma_decimal_digits_ascii(if e10 < 0 { (-e10) as nat } else { e10 as nat });
    assert forall|k: int| 0 <= k < t.len() implies #[trigger] t[k] < 0x80 by {
        assert forall|j: int| 0 <= j < ds.len() implies ds[j] < 0x80 by {
            assert(crate::num::atoi::is_digit_byte(ds[j]));
        }
    }
}

/// A text a float spells is plain ASCII.
pub proof fn lemma_spelled_ascii(t: Seq<u8>, negative: bool, max_fixed: int)
    requires
        spells_float(t, negative, max_fixed),
    ensures
        all_ascii(t),
{
    let (ds, e10) = choose|ds: Seq<u8>, e10: int|
        ds.len() >= 1 && all_digits(ds) && -1000 < e10 < 1000 && t == #[trigger] float_text(negative, ds, e10, max_fixed);
    lemma_float_text_ascii(negative, ds, e10, max_fixed);
}

} // verus!

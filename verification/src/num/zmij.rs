//! Eight decimal digits at a time.
//!
//! A value below `10^8` is split into its eight decimal digits, one per byte
//! of a `u64`, by three multiply-add steps in place of seven divisions: each
//! step divides every field of the word at once, halving the field width and
//! doubling the field count.
use vstd::prelude::*;
use vstd::arithmetic::power2::{lemma2_to64, lemma_pow2_adds, pow2};
use crate::num::atoi::{all_digits, is_digit_byte, lemma_pow10_monotone, pow10};
use crate::num::pow10::{pow10_128, pow10_entry, DEC_EXP_MIN};

verus! {

/// `2^40 / 10000`, rounded up: divides an eight-digit value by 10000.
const DIV10K_SIG: u64 = 109_951_163;
/// `2^32 - 10000`.
const NEG10K: u64 = 4_294_957_296;
/// `2^19 / 100`, rounded up: exact for the four-digit fields it sees.
const DIV100_SIG: u64 = 5_243;
/// `2^16 - 100`.
const NEG100: u64 = 65_436;
/// `2^10 / 10`, rounded up: exact for the two-digit fields it sees.
const DIV10_SIG: u64 = 103;
/// `2^8 - 10`.
const NEG10: u64 = 246;

/// The `k`th of the eight digits that spell `v`, the most significant
/// first, leading zeros included.
pub open spec fn digit8(v: int, k: int) -> int {
    (v / (pow10((7 - k) as nat) as int)) % 10
}

/// The eight digits of `v`, one per byte, the most significant in the
/// lowest byte.
pub open spec fn bcd8(v: int) -> int {
    digit8(v, 0) + digit8(v, 1) * 0x100 + digit8(v, 2) * 0x1_0000 + digit8(v, 3) * 0x100_0000
        + digit8(v, 4) * 0x1_0000_0000 + digit8(v, 5) * 0x100_0000_0000
        + digit8(v, 6) * 0x1_0000_0000_0000 + digit8(v, 7) * 0x100_0000_0000_0000
}

/// One past the last nonzero digit among the first `n` digits of `v`: where
/// its trailing zeros begin.
pub open spec fn digits_end(v: int, n: int) -> int
    decreases n,
{
    if n <= 0 {
        0
    } else if digit8(v, n - 1) != 0 {
        n
    } else {
        digits_end(v, n - 1)
    }
}

/// Byte `k` of `x`.
pub open spec fn byte_at(x: u64, k: int) -> u64 {
    (x >> ((8 * k) as u32)) & 0xff
}

/// One past the last nonzero byte among the first `n` bytes of `x`.
pub open spec fn bytes_end(x: u64, n: int) -> int
    decreases n,
{
    if n <= 0 {
        0
    } else if byte_at(x, n - 1) != 0 {
        n
    } else {
        bytes_end(x, n - 1)
    }
}

proof fn lemma_div_10k(v: u64)
    requires
        v < 100000000,
    ensures
        (((v * 109951163u64) as u64) >> 40u64) == v / 10000,
{
    let x: u64 = (v * 109951163u64) as u64;
    assert((x >> 40u64) == x / 0x100_0000_0000u64) by (bit_vector);
    assert(x / 0x100_0000_0000u64 == v / 10000) by (nonlinear_arith)
        requires
            x == v * 109951163,
            v < 100000000,
    {
        let q = v / 10000;
        let r = v % 10000;
        assert(v == 10000 * q + r);
        assert(x == q * 0x100_0000_0000 + (q * 2224 + r * 109951163));
    }
}

proof fn lemma_div_100(v: u64)
    requires
        v < 10000,
    ensures
        (((v * 5243u64) as u64) >> 19u64) == v / 100,
{
    let x: u64 = (v * 5243u64) as u64;
    assert((x >> 19u64) == x / 0x8_0000u64) by (bit_vector);
    assert(x / 0x8_0000u64 == v / 100) by (nonlinear_arith)
        requires
            x == v * 5243,
            v < 10000,
    {
        let q = v / 100;
        let r = v % 100;
        assert(v == 100 * q + r);
        assert(x == q * 0x8_0000 + (q * 12 + r * 5243));
    }
}

proof fn lemma_div_10(v: u64)
    requires
        v < 100,
    ensures
        (((v * 103u64) as u64) >> 10u64) == v / 10,
{
    let x: u64 = (v * 103u64) as u64;
    assert((x >> 10u64) == x / 0x400u64) by (bit_vector);
    assert(x / 0x400u64 == v / 10) by (nonlinear_arith)
        requires
            x == v * 103,
            v < 100,
    {
        let q = v / 10;
        let r = v % 10;
        assert(v == 10 * q + r);
        assert(x == q * 0x400 + (q * 6 + r * 103));
    }
}

/// Two products 32 bits apart, shifted and masked, keep to their lanes.
proof fn lemma_two_lanes(a: u64, b: u64)
    requires
        a < 0x400_0000,
        b < 0x400_0000,
    ensures
        ((((a + b * 0x1_0000_0000u64) as u64) >> 19u64) & 0x7f_0000_007fu64) == (a >> 19u64) + (b >> 19u64) * 0x1_0000_0000u64,
        (a >> 19u64) < 0x80,
        (b >> 19u64) < 0x80,
{
    assert(((((a + b * 0x1_0000_0000u64) as u64) >> 19u64) & 0x7f_0000_007fu64) == (a >> 19u64) + (b >> 19u64) * 0x1_0000_0000u64
        && (a >> 19u64) < 0x80 && (b >> 19u64) < 0x80) by (bit_vector)
        requires
            a < 0x400_0000,
            b < 0x400_0000,
    ;
}

/// Four products 16 bits apart, shifted and masked, keep to their lanes.
proof fn lemma_four_lanes(a: u64, b: u64, c: u64, d: u64)
    requires
        a < 0x4000,
        b < 0x4000,
        c < 0x4000,
        d < 0x4000,
    ensures
        ((((a + b * 0x1_0000u64 + c * 0x1_0000_0000u64 + d * 0x1_0000_0000_0000u64) as u64) >> 10u64)
            & 0xf_000f_000f_000fu64) == (a >> 10u64) + (b >> 10u64) * 0x1_0000u64 + (c >> 10u64) * 0x1_0000_0000u64
            + (d >> 10u64) * 0x1_0000_0000_0000u64,
{
    assert(((((a + b * 0x1_0000u64 + c * 0x1_0000_0000u64 + d * 0x1_0000_0000_0000u64) as u64) >> 10u64)
        & 0xf_000f_000f_000fu64) == (a >> 10u64) + (b >> 10u64) * 0x1_0000u64 + (c >> 10u64) * 0x1_0000_0000u64
        + (d >> 10u64) * 0x1_0000_0000_0000u64) by (bit_vector)
        requires
            a < 0x4000,
            b < 0x4000,
            c < 0x4000,
            d < 0x4000,
    ;
}

/// Reversing the bytes of a word puts each byte at the mirrored place.
proof fn lemma_reverse(d0: u64, d1: u64, d2: u64, d3: u64, d4: u64, d5: u64, d6: u64, d7: u64)
    requires
        d0 < 0x100,
        d1 < 0x100,
        d2 < 0x100,
        d3 < 0x100,
        d4 < 0x100,
        d5 < 0x100,
        d6 < 0x100,
        d7 < 0x100,
    ensures
        ({
            let x: u64 = (d0 + d1 * 0x100u64 + d2 * 0x1_0000u64 + d3 * 0x100_0000u64 + d4 * 0x1_0000_0000u64
                + d5 * 0x100_0000_0000u64 + d6 * 0x1_0000_0000_0000u64 + d7 * 0x100_0000_0000_0000u64) as u64;
            (x >> 56u64) | ((x >> 40u64) & 0xff00u64) | ((x >> 24u64) & 0xff_0000u64) | ((x >> 8u64) & 0xff00_0000u64)
                | ((x << 8u64) & 0xff_0000_0000u64) | ((x << 24u64) & 0xff00_0000_0000u64)
                | ((x << 40u64) & 0xff_0000_0000_0000u64) | (x << 56u64)
        }) == d7 + d6 * 0x100u64 + d5 * 0x1_0000u64 + d4 * 0x100_0000u64 + d3 * 0x1_0000_0000u64
            + d2 * 0x100_0000_0000u64 + d1 * 0x1_0000_0000_0000u64 + d0 * 0x100_0000_0000_0000u64,
{
    assert(({
        let x: u64 = (d0 + d1 * 0x100u64 + d2 * 0x1_0000u64 + d3 * 0x100_0000u64 + d4 * 0x1_0000_0000u64
            + d5 * 0x100_0000_0000u64 + d6 * 0x1_0000_0000_0000u64 + d7 * 0x100_0000_0000_0000u64) as u64;
        (x >> 56u64) | ((x >> 40u64) & 0xff00u64) | ((x >> 24u64) & 0xff_0000u64) | ((x >> 8u64) & 0xff00_0000u64)
            | ((x << 8u64) & 0xff_0000_0000u64) | ((x << 24u64) & 0xff00_0000_0000u64)
            | ((x << 40u64) & 0xff_0000_0000_0000u64) | (x << 56u64)
    }) == d7 + d6 * 0x100u64 + d5 * 0x1_0000u64 + d4 * 0x100_0000u64 + d3 * 0x1_0000_0000u64
        + d2 * 0x100_0000_0000u64 + d1 * 0x1_0000_0000_0000u64 + d0 * 0x100_0000_0000_0000u64) by (bit_vector)
        requires
            d0 < 0x100,
            d1 < 0x100,
            d2 < 0x100,
            d3 < 0x100,
            d4 < 0x100,
            d5 < 0x100,
            d6 < 0x100,
            d7 < 0x100,
    ;
}

/// The bytes of a word laid out byte by byte.
proof fn lemma_bytes(x: u64, e0: u64, e1: u64, e2: u64, e3: u64, e4: u64, e5: u64, e6: u64, e7: u64)
    requires
        e0 < 0x100,
        e1 < 0x100,
        e2 < 0x100,
        e3 < 0x100,
        e4 < 0x100,
        e5 < 0x100,
        e6 < 0x100,
        e7 < 0x100,
        x == e0 + e1 * 0x100u64 + e2 * 0x1_0000u64 + e3 * 0x100_0000u64 + e4 * 0x1_0000_0000u64
            + e5 * 0x100_0000_0000u64 + e6 * 0x1_0000_0000_0000u64 + e7 * 0x100_0000_0000_0000u64,
    ensures
        byte_at(x, 0) == e0,
        byte_at(x, 1) == e1,
        byte_at(x, 2) == e2,
        byte_at(x, 3) == e3,
        byte_at(x, 4) == e4,
        byte_at(x, 5) == e5,
        byte_at(x, 6) == e6,
        byte_at(x, 7) == e7,
{
    assert(((x >> 0u32) & 0xff) == e0 && ((x >> 8u32) & 0xff) == e1 && ((x >> 16u32) & 0xff) == e2
        && ((x >> 24u32) & 0xff) == e3 && ((x >> 32u32) & 0xff) == e4 && ((x >> 40u32) & 0xff) == e5
        && ((x >> 48u32) & 0xff) == e6 && ((x >> 56u32) & 0xff) == e7) by (bit_vector)
        requires
            e0 < 0x100,
            e1 < 0x100,
            e2 < 0x100,
            e3 < 0x100,
            e4 < 0x100,
            e5 < 0x100,
            e6 < 0x100,
            e7 < 0x100,
            x == e0 + e1 * 0x100u64 + e2 * 0x1_0000u64 + e3 * 0x100_0000u64 + e4 * 0x1_0000_0000u64
                + e5 * 0x100_0000_0000u64 + e6 * 0x1_0000_0000_0000u64 + e7 * 0x100_0000_0000_0000u64,
    ;
}

/// The digit at `10^j` of a number laid out around it.
proof fn lemma_digit_at(v: int, j: nat, pj: int, above: int, dj: int, below: int)
    requires
        pj == pow10(j),
        v == (above * 10 + dj) * pj + below,
        0 <= dj < 10,
        0 <= below < pj,
        0 <= above,
    ensures
        (v / (pow10(j) as int)) % 10 == dj,
{
    vstd::arithmetic::div_mod::lemma_fundamental_div_mod_converse(v, pj, above * 10 + dj, below);
    vstd::arithmetic::div_mod::lemma_fundamental_div_mod_converse(above * 10 + dj, 10, above, dj);
}

/// The digits of a number below `10^8`, read off its two four-digit halves
/// and their two-digit quarters.
proof fn lemma_digits(v: int)
    requires
        0 <= v < 100000000,
    ensures
        ({
            let lo = v % 10000;
            let hi = v / 10000;
            &&& digit8(v, 7) == (lo % 100) % 10
            &&& digit8(v, 6) == (lo % 100) / 10
            &&& digit8(v, 5) == (lo / 100) % 10
            &&& digit8(v, 4) == (lo / 100) / 10
            &&& digit8(v, 3) == (hi % 100) % 10
            &&& digit8(v, 2) == (hi % 100) / 10
            &&& digit8(v, 1) == (hi / 100) % 10
            &&& digit8(v, 0) == (hi / 100) / 10
        }),
{
    reveal_with_fuel(pow10, 9);
    let lo = v % 10000;
    let hi = v / 10000;
    let d0 = (lo % 100) % 10;
    let d1 = (lo % 100) / 10;
    let d2 = (lo / 100) % 10;
    let d3 = (lo / 100) / 10;
    let d4 = (hi % 100) % 10;
    let d5 = (hi % 100) / 10;
    let d6 = (hi / 100) % 10;
    let d7 = (hi / 100) / 10;
    assert(v == d0 + d1 * 10 + d2 * 100 + d3 * 1000 + d4 * 10000 + d5 * 100000 + d6 * 1000000 + d7 * 10000000);
    assert(pow10(0) == 1 && pow10(1) == 10 && pow10(2) == 100 && pow10(3) == 1000 && pow10(4) == 10000
        && pow10(5) == 100000 && pow10(6) == 1000000 && pow10(7) == 10000000 && pow10(8) == 100000000);
    lemma_digit_at(v, 0, 1, d7 * 1000000 + d6 * 100000 + d5 * 10000 + d4 * 1000 + d3 * 100 + d2 * 10 + d1, d0, 0);
    lemma_digit_at(v, 1, 10, d7 * 100000 + d6 * 10000 + d5 * 1000 + d4 * 100 + d3 * 10 + d2, d1, d0);
    lemma_digit_at(v, 2, 100, d7 * 10000 + d6 * 1000 + d5 * 100 + d4 * 10 + d3, d2, d1 * 10 + d0);
    lemma_digit_at(v, 3, 1000, d7 * 1000 + d6 * 100 + d5 * 10 + d4, d3, d2 * 100 + d1 * 10 + d0);
    lemma_digit_at(v, 4, 10000, d7 * 100 + d6 * 10 + d5, d4, d3 * 1000 + d2 * 100 + d1 * 10 + d0);
    lemma_digit_at(v, 5, 100000, d7 * 10 + d6, d5, d4 * 10000 + d3 * 1000 + d2 * 100 + d1 * 10 + d0);
    lemma_digit_at(v, 6, 1000000, d7, d6, d5 * 100000 + d4 * 10000 + d3 * 1000 + d2 * 100 + d1 * 10 + d0);
    lemma_digit_at(v, 7, 10000000, 0, d7, d6 * 1000000 + d5 * 100000 + d4 * 10000 + d3 * 1000 + d2 * 100 + d1 * 10 + d0);
}

proof fn lemma_ends(x: u64, v: int, n: int)
    requires
        0 <= n <= 8,
        forall|k: int| 0 <= k < 8 ==> byte_at(x, k) == digit8(v, k),
    ensures
        bytes_end(x, n) == digits_end(v, n),
    decreases n,
{
    if n > 0 {
        assert(byte_at(x, n - 1) == digit8(v, n - 1));
        lemma_ends(x, v, n - 1);
    }
}

/// One past the last nonzero byte of `bcd`, so a position rather than a
/// count: where the trailing zeros of a word laid out by [`to_bcd8`] begin,
/// and zero for an all-zero word.
fn nonzero_end(bcd: u64) -> (n: usize)
    ensures
        n == bytes_end(bcd, 8),
{
    let mut n: usize = 8;
    while n > 0 && (bcd >> ((8 * (n - 1)) as u32)) & 0xff == 0
        invariant
            n <= 8,
            bytes_end(bcd, 8) == bytes_end(bcd, n as int),
        decreases n,
    {
        n -= 1;
    }
    n
}

/// Split a number below `10^8` into its eight decimal digits, one per byte
/// with the most significant in the lowest byte, and say where its trailing
/// zeros begin.
///
/// The fields come out of the three steps least significant first;
/// reversing the bytes puts the leading digit in the lowest byte, which is
/// the first byte in memory.
pub fn to_bcd8(v: u32) -> (r: (u64, usize))
    requires
        v < 100_000_000,
    ensures
        r.0 == bcd8(v as int),
        r.1 == digits_end(v as int, 8),
        forall|k: int| 0 <= k < 8 ==> byte_at(r.0, k) == digit8(v as int, k),
{
    let v = v as u64;
    proof {
        lemma_div_10k(v);
    }
    // One 8-digit field becomes two 4-digit fields, 32 bits apart.
    let hi = (v * DIV10K_SIG) >> 40;
    let d4 = v + NEG10K * hi;
    let ghost lo: u64 = (v % 10000) as u64;
    let ghost l0: u64 = (lo % 100) as u64;
    let ghost l1: u64 = (lo / 100) as u64;
    let ghost l2: u64 = (hi % 100) as u64;
    let ghost l3: u64 = (hi / 100) as u64;
    proof {
        assert(d4 == lo + hi * 0x1_0000_0000);
        lemma_div_100(lo);
        lemma_div_100(hi);
        lemma_two_lanes((lo * 5243u64) as u64, (hi * 5243u64) as u64);
    }
    // Two 4-digit fields become four 2-digit fields, 16 bits apart.
    let p2 = d4 * DIV100_SIG;
    proof {
        assert(p2 == ((((lo * 5243u64) as u64) + ((hi * 5243u64) as u64) * 0x1_0000_0000u64) as u64));
    }
    let m2 = (p2 >> 19) & 0x7f_0000_007f;
    proof {
        assert(m2 == l1 + l3 * 0x1_0000_0000);
    }
    let d2 = d4 + NEG100 * m2;
    proof {
        assert(d2 == l0 + l1 * 0x1_0000 + l2 * 0x1_0000_0000 + l3 * 0x1_0000_0000_0000);
        lemma_div_10(l0);
        lemma_div_10(l1);
        lemma_div_10(l2);
        lemma_div_10(l3);
        lemma_four_lanes((l0 * 103u64) as u64, (l1 * 103u64) as u64, (l2 * 103u64) as u64, (l3 * 103u64) as u64);
    }
    // Four 2-digit fields become eight 1-digit fields, one byte apart.
    let p1 = d2 * DIV10_SIG;
    proof {
        assert(p1 == ((((l0 * 103u64) as u64) + ((l1 * 103u64) as u64) * 0x1_0000u64 + ((l2 * 103u64) as u64)
            * 0x1_0000_0000u64 + ((l3 * 103u64) as u64) * 0x1_0000_0000_0000u64) as u64));
    }
    let m1 = (p1 >> 10) & 0xf_000f_000f_000f;
    proof {
        assert(m1 == l0 / 10 + (l1 / 10) * 0x1_0000 + (l2 / 10) * 0x1_0000_0000 + (l3 / 10) * 0x1_0000_0000_0000);
    }
    let d1 = d2 + NEG10 * m1;
    let ghost e0: u64 = l0 % 10;
    let ghost e1: u64 = l0 / 10;
    let ghost e2: u64 = l1 % 10;
    let ghost e3: u64 = l1 / 10;
    let ghost e4: u64 = l2 % 10;
    let ghost e5: u64 = l2 / 10;
    let ghost e6: u64 = l3 % 10;
    let ghost e7: u64 = l3 / 10;
    proof {
        assert(d1 == ((e0 + e1 * 0x100u64 + e2 * 0x1_0000u64 + e3 * 0x100_0000u64 + e4 * 0x1_0000_0000u64
            + e5 * 0x100_0000_0000u64 + e6 * 0x1_0000_0000_0000u64 + e7 * 0x100_0000_0000_0000u64) as u64));
        lemma_reverse(e0, e1, e2, e3, e4, e5, e6, e7);
    }
    let bcd = (d1 >> 56) | ((d1 >> 40) & 0xff00) | ((d1 >> 24) & 0xff_0000) | ((d1 >> 8) & 0xff00_0000)
        | ((d1 << 8) & 0xff_0000_0000) | ((d1 << 24) & 0xff00_0000_0000) | ((d1 << 40) & 0xff_0000_0000_0000)
        | (d1 << 56);
    proof {
        lemma_digits(v as int);
        lemma_bytes(bcd, e7, e6, e5, e4, e3, e2, e1, e0);
        assert forall|k: int| 0 <= k < 8 implies byte_at(bcd, k) == digit8(v as int, k) by {
            if k == 0 {
            } else if k == 1 {
            } else if k == 2 {
            } else if k == 3 {
            } else if k == 4 {
            } else if k == 5 {
            } else if k == 6 {
            } else {
            }
        }
        lemma_ends(bcd, v as int, 8);
    }
    (bcd, nonzero_end(bcd))
}

// ---------------------------------------------------------------------------
// Laying digits out
// ---------------------------------------------------------------------------

/// The eight digits that spell `v`, leading zeros included, as ASCII.
pub open spec fn digits8_text(v: int) -> Seq<u8> {
    Seq::new(8, |k: int| (0x30 + digit8(v, k)) as u8)
}

/// The digits a significand spells at its fixed width: sixteen, as two runs
/// of eight, for binary64, and eight for binary32.
pub open spec fn sig_text(sig: int, wide: bool) -> Seq<u8> {
    if wide {
        digits8_text(sig / 100_000_000) + digits8_text(sig % 100_000_000)
    } else {
        digits8_text(sig)
    }
}

/// The length of `t` once its trailing zero digits are dropped.
pub open spec fn trimmed_len(t: Seq<u8>) -> nat
    decreases t.len(),
{
    if t.len() == 0 {
        0
    } else if t.last() != 0x30 {
        t.len()
    } else {
        trimmed_len(t.drop_last())
    }
}

proof fn lemma_trimmed_bound(t: Seq<u8>)
    ensures
        trimmed_len(t) <= t.len(),
    decreases t.len(),
{
    if t.len() > 0 && t.last() == 0x30 {
        lemma_trimmed_bound(t.drop_last());
    }
}

/// Where the trailing zeros of the first `n` digits begin is where the
/// trailing zeros of their text begin.
proof fn lemma_digits_end_text(v: int, n: int)
    requires
        0 <= v,
        0 <= n <= 8,
    ensures
        digits_end(v, n) == trimmed_len(digits8_text(v).subrange(0, n)),
    decreases n,
{
    let t = digits8_text(v).subrange(0, n);
    if n > 0 {
        lemma_digits_end_text(v, n - 1);
        assert(t.drop_last() =~= digits8_text(v).subrange(0, n - 1));
        assert(t.last() == (0x30 + digit8(v, n - 1)) as u8);
        assert(0 <= digit8(v, n - 1) < 10);
    } else {
        assert(t.len() == 0);
    }
}

/// Dropping trailing zeros from two runs back to back: the second run's
/// count where it has a nonzero digit, the first run's where it has none.
proof fn lemma_trimmed_concat(a: Seq<u8>, b: Seq<u8>)
    ensures
        trimmed_len(a + b) == (if trimmed_len(b) > 0 { (a.len() + trimmed_len(b)) as nat } else { trimmed_len(a) }),
    decreases b.len(),
{
    if b.len() == 0 {
        assert(a + b =~= a);
    } else {
        assert((a + b).last() == b.last());
        if b.last() == 0x30 {
            assert((a + b).drop_last() =~= a + b.drop_last());
            lemma_trimmed_concat(a, b.drop_last());
        }
    }
}

/// Append the eight digits of `v` as ASCII, and say where their trailing
/// zeros begin.
fn push_digits8(v: u32, out: &mut Vec<u8>) -> (end: usize)
    requires
        v < 100_000_000,
    ensures
        final(out)@ == old(out)@ + digits8_text(v as int),
        end == trimmed_len(digits8_text(v as int)),
{
    let (bcd, end) = to_bcd8(v);
    let mut k: usize = 0;
    while k < 8
        invariant
            k <= 8,
            v < 100_000_000,
            forall|j: int| 0 <= j < 8 ==> byte_at(bcd, j) == digit8(v as int, j),
            out@ == old(out)@ + digits8_text(v as int).subrange(0, k as int),
        decreases 8 - k,
    {
        let b = (bcd >> ((8 * k) as u32)) & 0xff;
        proof {
            assert(b == byte_at(bcd, k as int));
            assert(0 <= digit8(v as int, k as int) < 10);
        }
        out.push(0x30u8 + b as u8);
        k += 1;
        proof {
            assert(out@ =~= old(out)@ + digits8_text(v as int).subrange(0, k as int));
        }
    }
    proof {
        assert(digits8_text(v as int).subrange(0, 8) =~= digits8_text(v as int));
        lemma_digits_end_text(v as int, 8);
    }
    end
}

/// A float's shortest decimal: ASCII digits `d1 d2 d3 ...`, standing for
/// `d1.d2d3... * 10^e10`.
pub struct Digits {
    pub digits: Vec<u8>,
    /// Scientific exponent: the power of ten on the leading digit.
    pub e10: i32,
}

/// A decimal significand at fixed width, plus the one digit past it that
/// rounding may or may not require.
#[derive(Clone, Copy)]
pub struct Decimal {
    /// Fifteen or sixteen digits for binary64, seven or eight for binary32.
    pub sig: u64,
    pub exp: i32,
    pub last_digit: u32,
    /// Whether `last_digit` is needed for the value to round trip. When it
    /// is not, the shortest form is `sig` with its trailing zeros dropped.
    pub has_last_digit: bool,
}

/// The digits a decimal lays out as: its fixed-width text with the held
/// digit after it where that digit is needed, and with its trailing zeros
/// dropped where it is not, less the leading pad digit where there is one.
pub open spec fn laid_digits(d: Decimal, wide: bool, padded: bool) -> Seq<u8> {
    let t = sig_text(d.sig as int, wide);
    let start: int = if padded { 1 } else { 0 };
    if d.has_last_digit {
        t.push((0x30 + d.last_digit) as u8).subrange(start, t.len() + 1int)
    } else if trimmed_len(t) <= start {
        Seq::empty()
    } else {
        t.subrange(start, trimmed_len(t) as int)
    }
}

/// Lay a decimal out as ASCII digits, `None` where no digit would be left.
pub fn lay_out(d: &Decimal, wide: bool, padded: bool) -> (r: Option<Vec<u8>>)
    requires
        wide ==> d.sig < 10_000_000_000_000_000,
        !wide ==> d.sig < 100_000_000,
        d.has_last_digit ==> d.last_digit < 10,
    ensures
        match r {
            Some(ds) => ds@ == laid_digits(*d, wide, padded) && ds@.len() >= 1,
            None => laid_digits(*d, wide, padded).len() == 0,
        },
{
    let mut buf: Vec<u8> = Vec::new();
    let ghost t = sig_text(d.sig as int, wide);
    let end = if wide {
        let hi = (d.sig / 100_000_000) as u32;
        let lo = (d.sig % 100_000_000) as u32;
        let end_hi = push_digits8(hi, &mut buf);
        let end_lo = push_digits8(lo, &mut buf);
        proof {
            lemma_trimmed_concat(digits8_text(hi as int), digits8_text(lo as int));
            lemma_trimmed_bound(digits8_text(lo as int));
            assert(buf@ =~= t);
        }
        if end_lo == 0 { end_hi } else { 8 + end_lo }
    } else {
        let end = push_digits8(d.sig as u32, &mut buf);
        proof {
            assert(buf@ =~= t);
        }
        end
    };
    proof {
        lemma_trimmed_bound(t);
        assert(t.len() <= 16);
    }
    let width = buf.len();
    let start: usize = if padded { 1 } else { 0 };
    let mut ds: Vec<u8> = Vec::new();
    if d.has_last_digit {
        buf.push(0x30u8 + d.last_digit as u8);
        let mut i = start;
        while i < width + 1
            invariant
                start <= i <= width + 1,
                buf@ == t.push((0x30 + d.last_digit) as u8),
                width == t.len(),
                width <= 16,
                ds@ == buf@.subrange(start as int, i as int),
            decreases width + 1 - i,
        {
            ds.push(buf[i]);
            i += 1;
            proof {
                assert(ds@ =~= buf@.subrange(start as int, i as int));
            }
        }
        Some(ds)
    } else {
        if end <= start {
            return None;
        }
        let mut i = start;
        while i < end
            invariant
                start <= i <= end,
                end <= buf@.len(),
                buf@ == t,
                ds@ == buf@.subrange(start as int, i as int),
            decreases end - i,
        {
            ds.push(buf[i]);
            i += 1;
            proof {
                assert(ds@ =~= buf@.subrange(start as int, i as int));
            }
        }
        Some(ds)
    }
}

// ---------------------------------------------------------------------------
// Exponent arithmetic
// ---------------------------------------------------------------------------

/// `floor(bin_exp * log10(2))`, the logarithm taken as a 20-bit
/// fixed-point constant, or `floor(bin_exp * log10(2) - log10(4/3))` when
/// the value sits at a power of two and its rounding interval is lopsided.
pub open spec fn dec_exp_of(bin_exp: i64, regular: bool) -> i64 {
    ((bin_exp * 315653i64 - (if regular { 0i64 } else { 131072i64 })) as i64) >> 20u64
}

/// How far to shift a significand so that its product with `10^-dec_exp`
/// lands with the wanted number of integral digits: the binary exponent of
/// `10^-dec_exp`, `log2(10)` taken as a 16-bit fixed-point constant, plus the
/// significand's own and one.
pub open spec fn exp_shift_of(bin_exp: i64, dec_exp: i64) -> i64 {
    (bin_exp + (((-dec_exp * 217707i64) as i64) >> 16u64) + 1) as i64
}

/// Over every binary64 exponent, the direct path shifts by 3 to 6 bits and
/// reads a power of ten inside the table.
proof fn lemma_f64_exponent(b: i64)
    requires
        -1074 <= b <= 971,
    ensures
        3 <= exp_shift_of(b, (dec_exp_of(b, true) + 1) as i64) + 6 <= 6,
        -293 <= -dec_exp_of(b, true) - 1 <= 324,
{
    assert(3 <= exp_shift_of(b, (dec_exp_of(b, true) + 1) as i64) + 6 <= 6 && -293 <= -dec_exp_of(b, true) - 1 <= 324)
        by (bit_vector)
        requires
            -1074 <= b <= 971,
    ;
}

/// Over every binary64 exponent, the path for a power of two shifts by 4
/// to 7 bits and reads a power of ten inside the table.
proof fn lemma_irregular_exponent(b: i64)
    requires
        -1074 <= b <= 971,
    ensures
        4 <= exp_shift_of(b, (dec_exp_of(b, false) + 1) as i64) + 6 <= 7,
        -293 <= -dec_exp_of(b, false) - 1 <= 324,
{
    assert(4 <= exp_shift_of(b, (dec_exp_of(b, false) + 1) as i64) + 6 <= 7 && -293 <= -dec_exp_of(b, false) - 1
        <= 324) by (bit_vector)
        requires
            -1074 <= b <= 971,
    ;
}

/// Over every binary32 exponent, the direct path shifts by 31 to 34 bits and
/// reads a power of ten inside the table.
proof fn lemma_f32_exponent(b: i64)
    requires
        -149 <= b <= 104,
    ensures
        31 <= exp_shift_of(b, (dec_exp_of(b, true) + 1) as i64) + 34 <= 34,
        -293 <= -dec_exp_of(b, true) - 1 <= 324,
{
    assert(31 <= exp_shift_of(b, (dec_exp_of(b, true) + 1) as i64) + 34 <= 34 && -293 <= -dec_exp_of(b, true) - 1
        <= 324) by (bit_vector)
        requires
            -149 <= b <= 104,
    ;
}

/// [`dec_exp_of`], for a binary exponent in range.
fn compute_dec_exp(bin_exp: i32, regular: bool) -> (r: i32)
    requires
        -1100 <= bin_exp <= 1100,
    ensures
        r == dec_exp_of(bin_exp as i64, regular),
        -400 <= r <= 400,
{
    let n: i64 = bin_exp as i64 * 315653 - (if regular { 0 } else { 131072 });
    let q = n >> 20;
    proof {
        let b = bin_exp as i64;
        assert(-400 <= dec_exp_of(b, regular) <= 400) by (bit_vector)
            requires
                -1100 <= b <= 1100,
        ;
        assert(q == dec_exp_of(b, regular));
    }
    q as i32
}

/// [`exp_shift_of`], for exponents in range.
fn compute_exp_shift(bin_exp: i32, dec_exp: i32) -> (r: i32)
    requires
        -1100 <= bin_exp <= 1100,
        -400 <= dec_exp <= 400,
    ensures
        r == exp_shift_of(bin_exp as i64, dec_exp as i64),
{
    let pow10_bin_exp = (-(dec_exp as i64) * 217707) >> 16;
    proof {
        let d = dec_exp as i64;
        assert(-2000 <= (((-d * 217707i64) as i64) >> 16u64) <= 2000) by (bit_vector)
            requires
                -400 <= d <= 400,
        ;
    }
    (bin_exp as i64 + pow10_bin_exp + 1) as i32
}

// ---------------------------------------------------------------------------
// Wide multiplies
// ---------------------------------------------------------------------------

/// `2^64`.
pub open spec fn word() -> int {
    0x1_0000_0000_0000_0000
}

/// A value split at a word boundary divides back to its high part.
proof fn lemma_split_word(v: int, hi: int, lo: int)
    requires
        v == hi * word() + lo,
        0 <= lo < word(),
    ensures
        v / word() == hi,
{
    vstd::arithmetic::div_mod::lemma_fundamental_div_mod_converse(v, word(), hi, lo);
}

/// `x * y + c` as a high and a low word.
fn mul_add_wide(x: u64, y: u64, c: u64) -> (r: (u64, u64))
    ensures
        r.0 * word() + r.1 == x * y + c,
{
    proof {
        assert((x as u128) * (y as u128) + (c as u128) <= 0xffff_ffff_ffff_ffffu128 * 0xffff_ffff_ffff_ffffu128
            + 0xffff_ffff_ffff_ffffu128) by (nonlinear_arith)
            requires
                x <= 0xffff_ffff_ffff_ffffu64,
                y <= 0xffff_ffff_ffff_ffffu64,
                c <= 0xffff_ffff_ffff_ffffu64,
        ;
    }
    let p = (x as u128) * (y as u128) + (c as u128);
    proof {
        assert(p == (p >> 64u128) * 0x1_0000_0000_0000_0000u128 + ((p as u64) as u128)) by (bit_vector);
        assert((p >> 64u128) < 0x1_0000_0000_0000_0000u128) by (bit_vector);
    }
    ((p >> 64) as u64, p as u64)
}

/// The high word of `x * y`.
fn umul_hi(x: u64, y: u64) -> (r: u64)
    ensures
        r == (x * y) / word(),
{
    let (hi, lo) = mul_add_wide(x, y, 0);
    proof {
        lemma_split_word(x * y, hi as int, lo as int);
    }
    hi
}

/// The high word of `x * y + c`.
fn umul_add_hi(x: u64, y: u64, c: u64) -> (r: u64)
    ensures
        r == (x * y + c) / word(),
{
    let (hi, lo) = mul_add_wide(x, y, c);
    proof {
        lemma_split_word(x * y + c, hi as int, lo as int);
    }
    hi
}

/// The high 128 bits of the 192-bit product of `x_hi:x_lo` and `y`.
fn umul192_hi128(x_hi: u64, x_lo: u64, y: u64) -> (r: (u64, u64))
    ensures
        r.0 * word() + r.1 == ((x_hi * word() + x_lo) * y) / word(),
{
    let (p_hi, p_lo) = mul_add_wide(x_hi, y, 0);
    let mid = umul_hi(x_lo, y);
    let lo = p_lo.wrapping_add(mid);
    let carry: u64 = if lo < p_lo { 1 } else { 0 };
    proof {
        let t = x_lo * y;
        assert(0 <= t);
        assert(t / word() < word()) by (nonlinear_arith)
            requires
                t == x_lo * y,
                x_lo < word(),
                y < word(),
        ;
        lemma_split_word(t, t / word(), t % word());
        assert(((x_hi * word() + x_lo) * y) == (x_hi * y + t / word()) * word() + t % word()) by (nonlinear_arith)
            requires
                t == x_lo * y,
                t == (t / word()) * word() + t % word(),
        ;
        lemma_split_word(((x_hi * word() + x_lo) * y), x_hi * y + t / word(), t % word());
        assert(p_lo + mid == lo + carry * word());
        assert(x_hi * y + mid == (p_hi + carry) * word() + lo);
        assert(x_hi * y + mid < word() * word()) by (nonlinear_arith)
            requires
                x_hi < word(),
                y < word(),
                mid < word(),
        ;
        assert(p_hi + carry < word()) by (nonlinear_arith)
            requires
                (p_hi + carry) * word() + lo < word() * word(),
                0 <= lo,
        ;
    }
    (p_hi + carry, lo)
}

// ---------------------------------------------------------------------------
// Decimal conversion
// ---------------------------------------------------------------------------

/// The value of a 128-bit table entry.
pub open spec fn entry_value(e: (u64, u64)) -> int {
    e.0 * word() + e.1
}

/// The integral part of a binary significand scaled into a fixed number of
/// decimal digits: `bin_sig * 2^shift` times the table's `10^(-dec_exp - 1)`,
/// with the 128 bits of the table and the guard bits below the digits
/// dropped.
pub open spec fn scaled_sig(bin_sig: int, bin_exp: i64, regular: bool) -> int {
    let d = dec_exp_of(bin_exp, regular);
    let s = exp_shift_of(bin_exp, (d + 1) as i64) + 6;
    (entry_value(pow10_entry(-d - 1 - DEC_EXP_MIN)) * (bin_sig * pow2(s as nat))) / (pow2(134) as int)
}

impl Decimal {
    /// The held-back digit, or zero when the significand round trips
    /// without it.
    pub fn held_digit(&self) -> (r: u64)
        ensures
            r == (if self.has_last_digit { self.last_digit as u64 } else { 0 }),
    {
        if self.has_last_digit {
            self.last_digit as u64
        } else {
            0
        }
    }
}

/// `x * 2^s` shifted right by 134 bits after the 192-bit product: the
/// integral digits of the product of a table entry and a shifted
/// significand.
proof fn lemma_integral(p10: int, x: int, p_hi: int, p_lo: int)
    requires
        0 <= p10,
        0 <= x,
        0 <= p_lo < word(),
        0 <= p_hi,
        p_hi * word() + p_lo == (p10 * x) / word(),
    ensures
        p_hi / 64 == (p10 * x) / (pow2(134) as int),
{
    lemma2_to64();
    lemma_pow2_adds(64, 64);
    lemma_pow2_adds(128, 6);
    vstd::arithmetic::mul::lemma_mul_nonnegative(p10, x);
    lemma_split_word((p10 * x) / word(), p_hi, p_lo);
    vstd::arithmetic::div_mod::lemma_div_denominator(p10 * x, word(), word());
    vstd::arithmetic::div_mod::lemma_div_denominator(p10 * x, word() * word(), 64);
}

/// The 128-bit product a direct path reads: the high 128 bits of the
/// table's 192-bit `10^(-dec_exp - 1)` times the shifted significand, as
/// its high and low words.
pub open spec fn product_words(e: (u64, u64), x: u64) -> (u64, u64) {
    let big = (entry_value(e) * x) / word();
    ((big / word()) as u64, (big % word()) as u64)
}

/// What the path for irregular spacing computes for the significand and
/// binary exponent: the scaled significand, rounded up where the interval
/// reaches the next integer, the held-back digit, and whether it is needed.
pub open spec fn decimal_irregular_spec(bin_sig: u64, bin_exp: i32) -> Decimal {
    let dec_exp = dec_exp_of(bin_exp as i64, false);
    let shift = exp_shift_of(bin_exp as i64, (dec_exp + 1) as i64) + 6;
    let e = pow10_entry(-dec_exp - 1 - DEC_EXP_MIN);
    let x = bin_sig << (shift as u64);
    let (p_hi, p_lo) = product_words(e, x);
    let integral = p_hi >> 6u64;
    let fractional = (p_hi << 58u64) | (p_lo >> 6u64);
    let half_ulp = e.0 >> ((7 - shift) as u64);
    let round_up = half_ulp > u64::MAX - fractional;
    let round_down = (half_ulp >> 1u64) > fractional;
    let nearest = ((fractional * 10 + 0x7fff_ffff_ffff_ffff) / word()) as u64;
    let lowest = ((fractional.wrapping_sub(half_ulp >> 1u64) * 10 + u64::MAX) / word()) as u64;
    Decimal {
        sig: (integral + if round_up { 1u64 } else { 0u64 }) as u64,
        exp: dec_exp as i32,
        last_digit: if nearest < lowest { lowest as u32 } else { nearest as u32 },
        has_last_digit: !(round_up || round_down),
    }
}

/// What the binary64 path computes for a significand and raw exponent.
pub open spec fn decimal_f64_spec(bin_sig: u64, raw_exp: i32, regular: bool) -> Decimal {
    let bin_exp = (raw_exp - 1075) as i32;
    if !regular {
        decimal_irregular_spec(bin_sig, bin_exp)
    } else {
        let dec_exp = dec_exp_of(bin_exp as i64, true);
        let shift = exp_shift_of(bin_exp as i64, (dec_exp + 1) as i64) + 6;
        let e = pow10_entry(-dec_exp - 1 - DEC_EXP_MIN);
        let x = bin_sig << (shift as u64);
        let (p_hi, p_lo) = product_words(e, x);
        let integral = p_hi >> 6u64;
        let fractional = (p_hi << 58u64) | (p_lo >> 6u64);
        let even = (1 - (bin_sig & 1)) as u64;
        let half_ulp = ((e.0 >> ((7 - shift) as u64)) + even) as u64;
        let round_up = fractional.wrapping_add(half_ulp) < fractional;
        let round_down = half_ulp > fractional;
        let nearest = ((fractional * 10 + 0x8000_0000_0000_0006u64) / word()) as u64;
        let last_digit = if fractional == 0x4000_0000_0000_0000 { 2u64 } else { nearest };
        Decimal {
            sig: (integral + if round_up { 1u64 } else { 0u64 }) as u64,
            exp: dec_exp as i32,
            last_digit: last_digit as u32,
            has_last_digit: !(round_up || round_down),
        }
    }
}

/// The lopsided-interval case: the value is a power of two, so its lower
/// neighbour is half as far away as its upper one.
fn to_decimal_irregular(bin_sig: u64, bin_exp: i32) -> (d: Decimal)
    requires
        -1074 <= bin_exp <= 971,
        bin_sig < 0x20_0000_0000_0000,
    ensures
        d == decimal_irregular_spec(bin_sig, bin_exp),
        d.exp == dec_exp_of(bin_exp as i64, false),
        d.sig == scaled_sig(bin_sig as int, bin_exp as i64, false) || d.sig == scaled_sig(bin_sig as int,
            bin_exp as i64, false) + 1,
        d.last_digit <= 10,
        d.sig <= 0x400_0000_0000_0000,
        -400 <= d.exp <= 400,
{
    proof {
        lemma_irregular_exponent(bin_exp as i64);
    }
    let dec_exp = compute_dec_exp(bin_exp, false);
    let shift = compute_exp_shift(bin_exp, dec_exp + 1) + 6;
    let (p10_hi, p10_lo) = pow10_128(-dec_exp - 1);
    proof {
        lemma2_to64();
        assert(bin_sig * pow2(shift as nat) <= u64::MAX) by (nonlinear_arith)
            requires
                bin_sig < 0x20_0000_0000_0000,
                pow2(shift as nat) <= 0x80,
        ;
        vstd::bits::lemma_u64_shl_is_mul(bin_sig, shift as u64);
    }
    let x = bin_sig << (shift as u64);
    let (p_hi, p_lo) = umul192_hi128(p10_hi, p10_lo, x);
    proof {
        let big = (entry_value((p10_hi, p10_lo)) * x) / word();
        vstd::arithmetic::div_mod::lemma_fundamental_div_mod_converse(big, word(), p_hi as int, p_lo as int);
        assert(product_words((p10_hi, p10_lo), x) == (p_hi, p_lo));
    }
    let integral = p_hi >> 6;
    let fractional = (p_hi << 58) | (p_lo >> 6);
    let half_ulp = p10_hi >> ((7 - shift) as u64);
    let round_up = half_ulp > u64::MAX - fractional;
    let round_down = (half_ulp >> 1) > fractional;
    let nearest = umul_add_hi(fractional, 10, 0x7fff_ffff_ffff_ffff);
    let lowest = umul_add_hi(fractional.wrapping_sub(half_ulp >> 1), 10, u64::MAX);
    proof {
        vstd::bits::lemma_u64_shr_is_div(p_hi, 6);
        lemma_integral(entry_value((p10_hi, p10_lo)), x as int, p_hi as int, p_lo as int);
        assert(integral < 0x400_0000_0000_0000) by (bit_vector)
            requires
                integral == p_hi >> 6,
        ;
        assert(nearest <= 10 && lowest <= 10) by (nonlinear_arith)
            requires
                nearest == (fractional * 10 + 0x7fff_ffff_ffff_ffff) / word(),
                lowest == (fractional.wrapping_sub(half_ulp >> 1) * 10 + u64::MAX) / word(),
                fractional < word(),
                fractional.wrapping_sub(half_ulp >> 1) < word(),
        ;
    }
    Decimal {
        sig: integral + if round_up { 1 } else { 0 },
        exp: dec_exp,
        last_digit: if nearest < lowest { lowest as u32 } else { nearest as u32 },
        has_last_digit: !(round_up || round_down),
    }
}

/// A binary64 significand, its implicit bit included, and its biased
/// exponent, as a sixteen-digit decimal significand and the digit after it.
fn to_decimal_f64(bin_sig: u64, raw_exp: i32, regular: bool) -> (d: Decimal)
    requires
        1 <= raw_exp <= 2046,
        bin_sig < 0x20_0000_0000_0000,
    ensures
        d == decimal_f64_spec(bin_sig, raw_exp, regular),
        d.exp == dec_exp_of((raw_exp - 1075) as i64, regular),
        d.sig == scaled_sig(bin_sig as int, (raw_exp - 1075) as i64, regular) || d.sig == scaled_sig(
            bin_sig as int,
            (raw_exp - 1075) as i64,
            regular,
        ) + 1,
        d.last_digit <= 10,
        d.sig <= 0x400_0000_0000_0000,
        -400 <= d.exp <= 400,
{
    let bin_exp = raw_exp - 1075;
    if !regular {
        return to_decimal_irregular(bin_sig, bin_exp);
    }
    proof {
        lemma_f64_exponent(bin_exp as i64);
    }
    let dec_exp = compute_dec_exp(bin_exp, true);
    let shift = compute_exp_shift(bin_exp, dec_exp + 1) + 6;
    let (p10_hi, p10_lo) = pow10_128(-dec_exp - 1);
    proof {
        lemma2_to64();
        assert(bin_sig * pow2(shift as nat) <= u64::MAX) by (nonlinear_arith)
            requires
                bin_sig < 0x20_0000_0000_0000,
                pow2(shift as nat) <= 0x40,
        ;
        vstd::bits::lemma_u64_shl_is_mul(bin_sig, shift as u64);
    }
    let x = bin_sig << (shift as u64);
    let (p_hi, p_lo) = umul192_hi128(p10_hi, p10_lo, x);
    proof {
        let big = (entry_value((p10_hi, p10_lo)) * x) / word();
        vstd::arithmetic::div_mod::lemma_fundamental_div_mod_converse(big, word(), p_hi as int, p_lo as int);
        assert(product_words((p10_hi, p10_lo), x) == (p_hi, p_lo));
    }
    let integral = p_hi >> 6;
    let fractional = (p_hi << 58) | (p_lo >> 6);
    // An even significand may sit exactly on the boundary and still round
    // back, which is what round-half-to-even means here.
    proof {
        assert(p10_hi >> ((7 - shift) as u64) < 0x8000_0000_0000_0000u64) by (bit_vector)
            requires
                1 <= 7 - shift <= 4,
        ;
        assert((bin_sig & 1) <= 1) by (bit_vector);
    }
    let even = 1 - (bin_sig & 1);
    let half_ulp = (p10_hi >> ((7 - shift) as u64)) + even;
    let round_up = fractional.wrapping_add(half_ulp) < fractional;
    let round_down = half_ulp > fractional;
    let nearest = umul_add_hi(fractional, 10, 0x8000_0000_0000_0006);
    let mut last_digit = nearest;
    if fractional == 0x4000_0000_0000_0000 {
        // Dead centre between two digits. The bias above would round up; the
        // even neighbour is the one that round-trips.
        last_digit = 2;
    }
    proof {
        vstd::bits::lemma_u64_shr_is_div(p_hi, 6);
        lemma_integral(entry_value((p10_hi, p10_lo)), x as int, p_hi as int, p_lo as int);
        assert(integral < 0x400_0000_0000_0000) by (bit_vector)
            requires
                integral == p_hi >> 6,
        ;
        assert(nearest <= 10) by (nonlinear_arith)
            requires
                nearest == (fractional * 10 + 0x8000_0000_0000_0006) / word(),
                fractional < word(),
        ;
    }
    Decimal {
        sig: integral + if round_up { 1 } else { 0 },
        exp: dec_exp,
        last_digit: last_digit as u32,
        has_last_digit: !(round_up || round_down),
    }
}

/// The integral part of a binary32 significand scaled into eight decimal
/// digits: `bin_sig * 2^shift` times the high word of the table's
/// `10^(-dec_exp - 1)` rounded up, with the 98 bits below the digits
/// dropped.
pub open spec fn scaled_sig32(bin_sig: int, bin_exp: i64) -> int {
    let d = dec_exp_of(bin_exp, true);
    let s = exp_shift_of(bin_exp, (d + 1) as i64) + 34;
    let h = pow10_entry(-d - 1 - DEC_EXP_MIN).0;
    let h1: int = if h == u64::MAX { 0 } else { h + 1 };
    (h1 * (bin_sig * pow2(s as nat))) / (pow2(98) as int)
}

/// What the binary32 path computes for a significand and raw exponent.
pub open spec fn decimal_f32_spec(bin_sig: u32, raw_exp: i32, regular: bool) -> Decimal {
    let bin_exp = (raw_exp - 150) as i32;
    if !regular {
        decimal_irregular_spec(bin_sig as u64, bin_exp)
    } else {
        let dec_exp = dec_exp_of(bin_exp as i64, true);
        let shift = exp_shift_of(bin_exp as i64, (dec_exp + 1) as i64) + 34;
        let h = pow10_entry(-dec_exp - 1 - DEC_EXP_MIN).0;
        let x = (bin_sig as u64) << (shift as u64);
        let p = ((h.wrapping_add(1) * x) / word()) as u64;
        let integral = p >> 34u64;
        let fractional = p & 0x3_ffff_ffffu64;
        let even = (1 - ((bin_sig as u64) & 1)) as u64;
        let half_ulp = ((h >> ((65 - shift) as u64)) + even) as u64;
        let round_up = ((fractional + half_ulp) as u64) >> 34u64 != 0;
        let round_down = half_ulp > fractional;
        let prod = (fractional * 10) as u64;
        let first = prod >> 34u64;
        let rem = prod & 0x3_ffff_ffffu64;
        let half: u64 = 0x2_0000_0000;
        let last_digit = if rem > half || (rem == half && first & 1 != 0) { (first + 1) as u64 } else { first };
        Decimal {
            sig: (integral + if round_up { 1u64 } else { 0u64 }) as u64,
            exp: dec_exp as i32,
            last_digit: last_digit as u32,
            has_last_digit: !(round_up || round_down),
        }
    }
}

/// A binary32 significand, its implicit bit included, and its biased
/// exponent, as an eight-digit decimal significand and the digit after it.
fn to_decimal_f32(bin_sig: u32, raw_exp: i32, regular: bool) -> (d: Decimal)
    requires
        1 <= raw_exp <= 254,
        bin_sig < 0x100_0000,
    ensures
        d == decimal_f32_spec(bin_sig, raw_exp, regular),
        !regular ==> d.exp == dec_exp_of((raw_exp - 150) as i64, false) && (d.sig == scaled_sig(
            bin_sig as int,
            (raw_exp - 150) as i64,
            false,
        ) || d.sig == scaled_sig(bin_sig as int, (raw_exp - 150) as i64, false) + 1),
        regular ==> d.exp == dec_exp_of((raw_exp - 150) as i64, true) && (d.sig == scaled_sig32(
            bin_sig as int,
            (raw_exp - 150) as i64,
        ) || d.sig == scaled_sig32(bin_sig as int, (raw_exp - 150) as i64) + 1),
        d.last_digit <= 10,
        d.sig <= 0x400_0000_0000_0000,
        -400 <= d.exp <= 400,
{
    let bin_exp = raw_exp - 150;
    if !regular {
        return to_decimal_irregular(bin_sig as u64, bin_exp);
    }
    proof {
        lemma_f32_exponent(bin_exp as i64);
    }
    let dec_exp = compute_dec_exp(bin_exp, true);
    let shift = compute_exp_shift(bin_exp, dec_exp + 1) + 34;
    // Only the top half of the power of ten is needed at this precision. The
    // `+ 1` rounds it up, so the product is never short.
    let p10_hi = pow10_128(-dec_exp - 1).0;
    let sig64 = bin_sig as u64;
    proof {
        lemma2_to64();
        vstd::arithmetic::power2::lemma_pow2_strictly_increases(shift as nat, 35);
        assert(pow2(35) == 0x8_0000_0000) by {
            lemma_pow2_adds(32, 3);
        }
        assert(sig64 * pow2(shift as nat) <= u64::MAX) by (nonlinear_arith)
            requires
                sig64 < 0x100_0000,
                pow2(shift as nat) <= 0x8_0000_0000,
        ;
        vstd::bits::lemma_u64_shl_is_mul(sig64, shift as u64);
    }
    let x = sig64 << (shift as u64);
    let p = umul_hi(p10_hi.wrapping_add(1), x);
    let integral = p >> 34;
    let fractional = p & 0x3_ffff_ffff;
    proof {
        assert((sig64 & 1) <= 1) by (bit_vector);
    }
    let even = 1 - (sig64 & 1);
    proof {
        assert(p10_hi >> ((65 - shift) as u64) < 0x2_0000_0000u64) by (bit_vector)
            requires
                31 <= 65 - shift <= 34,
        ;
        assert(fractional < 0x4_0000_0000) by (bit_vector)
            requires
                fractional == p & 0x3_ffff_ffff,
        ;
    }
    let half_ulp = (p10_hi >> ((65 - shift) as u64)) + even;
    let round_up = (fractional + half_ulp) >> 34 != 0;
    let round_down = half_ulp > fractional;
    let prod = fractional * 10;
    let mut last_digit = prod >> 34;
    let rem = prod & 0x3_ffff_ffff;
    let half: u64 = 0x2_0000_0000;
    proof {
        assert(last_digit <= 9) by (bit_vector)
            requires
                prod == fractional * 10,
                fractional < 0x4_0000_0000,
                last_digit == prod >> 34,
        ;
    }
    if rem > half || (rem == half && last_digit & 1 != 0) {
        last_digit = last_digit + 1;
    }
    proof {
        vstd::bits::lemma_u64_shr_is_div(p, 34);
        assert(p10_hi.wrapping_add(1) == (if p10_hi == u64::MAX { 0 } else { p10_hi + 1 }));
        assert(integral == (p10_hi.wrapping_add(1) * x) / (pow2(98) as int)) by {
            lemma_pow2_adds(64, 34);
            assert(pow2(34) == 0x4_0000_0000) by {
                lemma_pow2_adds(32, 2);
            }
            vstd::arithmetic::mul::lemma_mul_nonnegative(p10_hi.wrapping_add(1) as int, x as int);
            vstd::arithmetic::div_mod::lemma_div_denominator(p10_hi.wrapping_add(1) * x, word(), pow2(34) as int);
        }
        assert(integral < 0x4000_0000) by (bit_vector)
            requires
                integral == p >> 34,
        ;
    }
    Decimal {
        sig: integral + if round_up { 1 } else { 0 },
        exp: dec_exp,
        last_digit: last_digit as u32,
        has_last_digit: !(round_up || round_down),
    }
}

/// A subnormal's digits and exponent, the digits times ten and the
/// exponent less one until the digits reach `threshold`, at most `n` times.
pub open spec fn rescaled(sig: int, exp: int, threshold: int, n: nat) -> (int, int)
    decreases n,
{
    if n == 0 || sig >= threshold {
        (sig, exp)
    } else {
        rescaled(sig * 10, exp - 1, threshold, (n - 1) as nat)
    }
}

/// What rescaling a subnormal's decimal gives: its digits, the held-back
/// one included, brought up to `threshold`, with the last of them held
/// back again.
pub open spec fn rescale_spec(d: Decimal, threshold: u64) -> Decimal {
    let s0 = d.sig * 10 + (if d.has_last_digit { d.last_digit as int } else { 0 });
    let (sig, exp) = rescaled(s0, d.exp as int, threshold as int, 17);
    Decimal { sig: (sig / 10) as u64, exp: exp as i32, last_digit: (sig % 10) as u32, has_last_digit: sig % 10 != 0 }
}

/// Rescale a subnormal's significand, with its held digit, up to the
/// fixed width: a subnormal has no implicit bit, so its product can come out
/// with fewer digits than the width.
fn rescale_subnormal(d: &Decimal, threshold: u64) -> (r: Decimal)
    requires
        d.sig <= 0x400_0000_0000_0000,
        d.has_last_digit ==> d.last_digit <= 10,
        d.sig * 10 + (if d.has_last_digit { d.last_digit as int } else { 0 }) > 0,
        1 <= threshold <= 1_000_000_000_000_000,
        -1000 <= d.exp <= 1000,
    ensures
        r == rescale_spec(*d, threshold),
        ({
            let s0 = d.sig * 10 + (if d.has_last_digit { d.last_digit as int } else { 0 });
            let k = d.exp - r.exp;
            &&& 0 <= k <= 16
            &&& r.sig * 10 + r.last_digit == s0 * pow10(k as nat)
            &&& r.sig * 10 + r.last_digit >= threshold
            &&& k > 0 ==> r.sig * 10 + r.last_digit < threshold * 10
            &&& r.last_digit < 10
            &&& r.has_last_digit == (r.last_digit != 0)
        }),
{
    let mut sig = d.sig * 10 + d.held_digit();
    let mut exp = d.exp;
    let ghost s0 = sig as int;
    proof {
        reveal_with_fuel(pow10, 17);
        assert(pow10(16) == 10_000_000_000_000_000);
        assert(pow10(0) == 1);
        assert(s0 * pow10(0) == s0) by (nonlinear_arith)
            requires
                pow10(0) == 1,
        ;
    }
    while sig < threshold
        invariant
            s0 >= 1,
            1 <= threshold <= 1_000_000_000_000_000,
            -1000 <= d.exp <= 1000,
            exp <= d.exp,
            d.exp - exp <= 16,
            pow10(16) == 10_000_000_000_000_000,
            sig == s0 * pow10((d.exp - exp) as nat),
            sig >= pow10((d.exp - exp) as nat),
            d.exp - exp > 0 ==> sig < threshold * 10,
            rescaled(s0, d.exp as int, threshold as int, 17) == rescaled(sig as int, exp as int, threshold as int,
                (17 - (d.exp - exp)) as nat),
        decreases 16 - (d.exp - exp),
    {
        let ghost k = (d.exp - exp) as nat;
        proof {
            lemma_pow10_monotone(0, k);
            assert(pow10(0) == 1);
        }
        sig = sig * 10;
        exp = exp - 1;
        proof {
            assert(pow10(k + 1) == 10 * pow10(k));
            assert(sig == s0 * pow10(k + 1)) by (nonlinear_arith)
                requires
                    sig == 10 * (s0 * pow10(k)),
                    pow10(k + 1) == 10 * pow10(k),
            ;
            if k + 1 > 16 {
                lemma_pow10_monotone(16, k + 1);
            }
        }
    }
    let last_digit = (sig % 10) as u32;
    Decimal { sig: sig / 10, exp, last_digit, has_last_digit: last_digit != 0 }
}

// ---------------------------------------------------------------------------
// Digit generation
// ---------------------------------------------------------------------------

proof fn lemma_digits8_ascii(v: int)
    requires
        0 <= v,
    ensures
        all_digits(digits8_text(v)),
{
    assert forall|k: int| 0 <= k < 8 implies #[trigger] is_digit_byte(digits8_text(v)[k]) by {
        assert(0 <= digit8(v, k) < 10);
    }
}

/// The digits a decimal lays out as are all decimal digits.
proof fn lemma_laid_digits_ascii(d: Decimal, wide: bool, padded: bool)
    requires
        d.has_last_digit ==> d.last_digit < 10,
    ensures
        all_digits(laid_digits(d, wide, padded)),
{
    let t = sig_text(d.sig as int, wide);
    if wide {
        lemma_digits8_ascii(d.sig as int / 100_000_000);
        lemma_digits8_ascii(d.sig as int % 100_000_000);
        assert forall|k: int| 0 <= k < t.len() implies #[trigger] is_digit_byte(t[k]) by {
            if k < 8 {
                assert(t[k] == digits8_text(d.sig as int / 100_000_000)[k]);
            } else {
                assert(t[k] == digits8_text(d.sig as int % 100_000_000)[k - 8]);
            }
        }
    } else {
        lemma_digits8_ascii(d.sig as int);
    }
    lemma_trimmed_bound(t);
    let l = laid_digits(d, wide, padded);
    let start: int = if padded { 1 } else { 0 };
    assert forall|k: int| 0 <= k < l.len() implies #[trigger] is_digit_byte(l[k]) by {
        if d.has_last_digit {
            if start + k < t.len() {
                assert(l[k] == t[start + k]);
            }
        } else {
            assert(l[k] == t[start + k]);
        }
    }
}

/// The held-back digit of a decimal, or zero where none is held.
pub open spec fn held(d: Decimal) -> u64 {
    if d.has_last_digit { d.last_digit as u64 } else { 0 }
}

/// The digits and scientific exponent laid out for a positive, finite
/// binary64 given by its bits; `None` where the conversion leaves no
/// digits to lay out.
pub open spec fn digits_f64_spec(bits: u64) -> Option<(Seq<u8>, i32)> {
    let e = (bits >> 52u64) & 0x7ff;
    let bin_sig = bits & 0xf_ffff_ffff_ffff;
    let t = decimal_f64_spec(bin_sig, 1, true);
    if e == 0 && t.sig == 0 && held(t) == 0 {
        None
    } else {
        let d = if e == 0 {
            rescale_spec(t, 1_000_000_000_000_000)
        } else {
            decimal_f64_spec(bin_sig | 0x10_0000_0000_0000, e as i32, bin_sig != 0)
        };
        if d.sig >= 10_000_000_000_000_000 || (d.has_last_digit && d.last_digit >= 10) {
            None
        } else {
            let full_width = d.sig >= 1_000_000_000_000_000;
            let e10 = (d.exp + 15 + if full_width { 1int } else { 0int }) as i32;
            let ds = laid_digits(d, true, !full_width);
            if ds.len() == 0 { None } else { Some((ds, e10)) }
        }
    }
}

/// The same for a positive, finite binary32.
pub open spec fn digits_f32_spec(bits: u32) -> Option<(Seq<u8>, i32)> {
    let e = (bits >> 23u32) & 0xff;
    let bin_sig = bits & 0x7f_ffff;
    let t = decimal_f32_spec(bin_sig, 1, true);
    if e == 0 && t.sig == 0 && held(t) == 0 {
        None
    } else {
        let d = if e == 0 {
            rescale_spec(t, 10_000_000)
        } else {
            decimal_f32_spec(bin_sig | 0x80_0000, e as i32, bin_sig != 0)
        };
        if d.sig >= 100_000_000 || (d.has_last_digit && d.last_digit >= 10) {
            None
        } else {
            let full_width = d.sig >= 10_000_000;
            let e10 = (d.exp + 7 + if full_width { 1int } else { 0int }) as i32;
            let d2 = if d.sig < 1_000_000 {
                Decimal { sig: (d.sig * 10 + held(d)) as u64, has_last_digit: false, ..d }
            } else {
                d
            };
            let e10b = if d.sig < 1_000_000 { (e10 - 1) as i32 } else { e10 };
            let ds = laid_digits(d2, false, !full_width);
            if ds.len() == 0 { None } else { Some((ds, e10b)) }
        }
    }
}

/// Shortest round-tripping digits for a positive, finite binary64 given by
/// its bits; `None` where the conversion leaves no digits to lay out.
pub fn digits_f64(bits: u64) -> (r: Option<Digits>)
    requires
        0 < bits < 0x7ff0_0000_0000_0000,
    ensures
        r matches Some(ds) ==> ds.digits@.len() >= 1 && all_digits(ds.digits@) && -500 < ds.e10 < 500,
        match r {
            Some(ds) => digits_f64_spec(bits) == Some((ds.digits@, ds.e10)),
            None => digits_f64_spec(bits) is None,
        },
{
    let e = (bits >> 52) & 0x7ff;
    let bin_sig = bits & 0xf_ffff_ffff_ffff;
    proof {
        assert(e <= 2046 && (e == 0 ==> bin_sig > 0) && bin_sig < 0x10_0000_0000_0000 && (bin_sig
            | 0x10_0000_0000_0000) < 0x20_0000_0000_0000) by (bit_vector)
            requires
                0 < bits,
                bits < 0x7ff0_0000_0000_0000,
                e == ((bits >> 52) & 0x7ff),
                bin_sig == bits & 0xf_ffff_ffff_ffff,
        ;
    }
    let raw_exp = e as i32;
    let d = if raw_exp == 0 {
        let t = to_decimal_f64(bin_sig, 1, true);
        if t.sig == 0 && t.held_digit() == 0 {
            return None;
        }
        rescale_subnormal(&t, 1_000_000_000_000_000)
    } else {
        to_decimal_f64(bin_sig | 0x10_0000_0000_0000, raw_exp, bin_sig != 0)
    };
    if d.sig >= 10_000_000_000_000_000 || (d.has_last_digit && d.last_digit >= 10) {
        return None;
    }
    // `sig` spells sixteen digits, so its leading digit sits fifteen places
    // above the one `d.exp` names, or fourteen when the top digit is the pad.
    let full_width = d.sig >= 1_000_000_000_000_000;
    let e10 = d.exp + 15 + if full_width { 1 } else { 0 };
    match lay_out(&d, true, !full_width) {
        Some(digits) => {
            proof {
                lemma_laid_digits_ascii(d, true, !full_width);
            }
            Some(Digits { digits, e10 })
        },
        None => None,
    }
}

/// Shortest round-tripping digits for a positive, finite binary32 given by
/// its bits; `None` where the conversion leaves no digits to lay out.
pub fn digits_f32(bits: u32) -> (r: Option<Digits>)
    requires
        0 < bits < 0x7f80_0000,
    ensures
        r matches Some(ds) ==> ds.digits@.len() >= 1 && all_digits(ds.digits@) && -500 < ds.e10 < 500,
        match r {
            Some(ds) => digits_f32_spec(bits) == Some((ds.digits@, ds.e10)),
            None => digits_f32_spec(bits) is None,
        },
{
    let e = (bits >> 23) & 0xff;
    let bin_sig = bits & 0x7f_ffff;
    proof {
        assert(e <= 254 && (e == 0 ==> bin_sig > 0) && bin_sig < 0x80_0000 && (bin_sig | 0x80_0000)
            < 0x100_0000) by (bit_vector)
            requires
                0 < bits,
                bits < 0x7f80_0000,
                e == ((bits >> 23) & 0xff),
                bin_sig == bits & 0x7f_ffff,
        ;
    }
    let raw_exp = e as i32;
    let mut d = if raw_exp == 0 {
        let t = to_decimal_f32(bin_sig, 1, true);
        if t.sig == 0 && t.held_digit() == 0 {
            return None;
        }
        rescale_subnormal(&t, 10_000_000)
    } else {
        to_decimal_f32(bin_sig | 0x80_0000, raw_exp, bin_sig != 0)
    };
    if d.sig >= 100_000_000 || (d.has_last_digit && d.last_digit >= 10) {
        return None;
    }
    // `sig` spells eight digits, so its leading digit sits seven places
    // above the one `d.exp` names, or six when the top digit is the pad.
    let full_width = d.sig >= 10_000_000;
    let mut e10 = d.exp + 7 + if full_width { 1 } else { 0 };
    if d.sig < 1_000_000 {
        // A digit short even of the padded width. Shifting up restores it,
        // and there is nothing left to hold back. The vacated place is a
        // trailing zero unless the held-back digit fills it, which the layout
        // then trims.
        d.sig = d.sig * 10 + d.held_digit();
        d.has_last_digit = false;
        e10 = e10 - 1;
    }
    match lay_out(&d, false, !full_width) {
        Some(digits) => {
            proof {
                lemma_laid_digits_ascii(d, false, !full_width);
            }
            Some(Digits { digits, e10 })
        },
        None => None,
    }
}

} // verus!

//! Perfect hashing of object keys.
//!
//! A [`KeyMap`] is built from a key list and maps the key at the start of a
//! buffer to a candidate field index. The builder walks a ladder of
//! increasingly general schemes and stops at the first that works; every
//! scheme only proposes a candidate, which the caller confirms with a full
//! comparison. What the builder guarantees, and what is proved here, is that
//! each declared key followed by its closing quote is mapped to its own
//! index.
use vstd::prelude::*;
use vstd::string::StringSliceAdditionalSpecFns;
use crate::swar::{find_byte, first_byte_from, lemma_first_byte_from, spec_needs_escape};

verus! {

/// Field indices are stored as `u8` with `n` itself as the "no match"
/// sentinel, so a hashed map addresses at most this many keys.
pub const MAX_HASHED_KEYS: usize = 255;

/// Slots in the bucket table.
pub const SLOT_CAP: usize = 256;

/// Basis for the whole-key digest: odd, so that the first multiply loses
/// nothing.
pub const DIGEST_BASIS: u64 = 0x9E37_79B9_7F4A_7C15;

/// How many seeds to try before giving up on a scheme.
pub const SEED_ATTEMPTS: u64 = 4096;

/// Widest object the whole-key search is attempted for.
pub const MAX_SEARCHED_KEYS: usize = 72;

/// How a key's bytes are turned into a candidate field index.
#[derive(Clone, Copy, PartialEq, Eq, Debug, Structural)]
pub enum HashKind {
    /// No keys.
    Empty,
    /// Exactly one key; the index is always 0.
    SingleElement,
    /// `key[0] % 4`, which lands directly on the field index.
    Mod4,
    /// `(key[0] ^ c0) % 4`.
    XorMod4,
    /// `(key[0] - c0) % 4`.
    MinusMod4,
    /// Two keys distinguished by one byte at `unique_index`.
    UniqueIndexTwo,
    /// `table[key[unique_index]]`, a direct 256-entry map.
    UniqueIndex,
    /// `table[bitmix(key[unique_index] | len << 8, seed) & mask]`.
    UniqueIndexSized,
    /// `table[bitmix(front 2 bytes, seed) & mask]`.
    FrontHash2,
    /// `table[bitmix(front 4 bytes, seed) & mask]`.
    FrontHash4,
    /// `table[rich_bitmix(front 8 bytes, seed) & mask]`.
    FrontHash8,
    /// Like `UniqueIndexSized`, but the byte column is chosen per key length.
    UniquePerLength,
    /// Hash of the entire key.
    FullFlat,
    /// Compare against each key in turn. Correct for any key set.
    Linear,
}

// ---------------------------------------------------------------------------
// Hash primitives
// ---------------------------------------------------------------------------

pub open spec fn spec_rotr49(h: u64) -> u64 {
    (h >> 49u64) | (h << 15u64)
}

#[verifier::opaque]
pub open spec fn spec_bitmix(h: u64, seed: u64) -> u64 {
    let x = vstd::wrapping::u64_specs::wrapping_mul(h, seed);
    x ^ spec_rotr49(x)
}

pub fn bitmix(h: u64, seed: u64) -> (r: u64)
    ensures
        r == spec_bitmix(h, seed),
{
    reveal(spec_bitmix);
    let x = h.wrapping_mul(seed);
    x ^ ((x >> 49u64) | (x << 15u64))
}

#[verifier::opaque]
pub open spec fn spec_rich_bitmix(h: u64, seed: u64) -> u64 {
    let a = h ^ (h >> 23u64);
    let b = vstd::wrapping::u64_specs::wrapping_mul(a, 0x2127_599b_f432_5c37u64);
    let c = b ^ seed;
    let d = vstd::wrapping::u64_specs::wrapping_mul(c, 0x8803_55f2_1e6d_1965u64);
    d ^ (d >> 47u64)
}

/// For hashing large, mostly similar chunks, where `bitmix` alone leaves
/// too much structure in the low bits.
pub fn rich_bitmix(h: u64, seed: u64) -> (r: u64)
    ensures
        r == spec_rich_bitmix(h, seed),
{
    reveal(spec_rich_bitmix);
    let mut h = h;
    h = h ^ (h >> 23u64);
    h = h.wrapping_mul(0x2127_599b_f432_5c37u64);
    h = h ^ seed;
    h = h.wrapping_mul(0x8803_55f2_1e6d_1965u64);
    h = h ^ (h >> 47u64);
    h
}

/// The little-endian value of up to eight bytes.
pub open spec fn le_value(s: Seq<u8>) -> u64
    decreases s.len(),
{
    if s.len() == 0 {
        0
    } else {
        le_value(s.drop_last()) | ((s.last() as u64) << ((8 * (s.len() - 1)) as u64))
    }
}

/// Little-endian load of `n < 8` bytes, zero filled.
pub fn to_u64_below_8(data: &[u8], n: usize) -> (r: u64)
    requires
        n <= 8,
        n <= data@.len(),
    ensures
        r == le_value(data@.subrange(0, n as int)),
{
    let mut v: u64 = 0;
    let mut i: usize = 0;
    while i < n
        invariant
            i <= n,
            n <= 8,
            n <= data@.len(),
            v == le_value(data@.subrange(0, i as int)),
        decreases n - i,
    {
        proof {
            assert(data@.subrange(0, i + 1).drop_last() =~= data@.subrange(0, i as int));
        }
        v = v | ((data[i] as u64) << ((8 * i) as u64));
        i += 1;
    }
    v
}

/// The little-endian value of the eight bytes at `off`.
pub open spec fn word_at(s: Seq<u8>, off: int) -> u64 {
    (s[off] as u64) | ((s[off + 1] as u64) << 8u64) | ((s[off + 2] as u64) << 16u64)
        | ((s[off + 3] as u64) << 24u64) | ((s[off + 4] as u64) << 32u64)
        | ((s[off + 5] as u64) << 40u64) | ((s[off + 6] as u64) << 48u64)
        | ((s[off + 7] as u64) << 56u64)
}

pub fn to_u64_at(data: &[u8], off: usize) -> (r: u64)
    requires
        off + 8 <= data@.len(),
    ensures
        r == word_at(data@, off as int),
{
    (data[off] as u64) | ((data[off + 1] as u64) << 8u64) | ((data[off + 2] as u64) << 16u64)
        | ((data[off + 3] as u64) << 24u64) | ((data[off + 4] as u64) << 32u64)
        | ((data[off + 5] as u64) << 40u64) | ((data[off + 6] as u64) << 48u64)
        | ((data[off + 7] as u64) << 56u64)
}

/// The fold of the whole 8-byte chunks of `s` from `i`, starting from `h`.
pub open spec fn digest_chunks(s: Seq<u8>, i: int, h: u64) -> u64
    decreases s.len() - i,
{
    if 0 <= i && i + 8 <= s.len() {
        digest_chunks(s, i + 8, spec_bitmix(word_at(s, i), h))
    } else {
        h
    }
}

/// The seed-independent fold of a whole key.
pub open spec fn spec_key_digest(s: Seq<u8>) -> u64 {
    if s.len() < 8 {
        le_value(s)
    } else {
        spec_rich_bitmix(word_at(s, s.len() - 8), digest_chunks(s, 0, DIGEST_BASIS))
    }
}

/// The seed-independent fold of the first `n` bytes of `data`: chunks of
/// eight, then the final eight re-read as the tail.
pub fn key_digest(data: &[u8], n: usize) -> (r: u64)
    requires
        n <= data@.len(),
    ensures
        r == spec_key_digest(data@.subrange(0, n as int)),
{
    let ghost s = data@.subrange(0, n as int);
    if n < 8 {
        return to_u64_below_8(data, n);
    }
    let mut h: u64 = DIGEST_BASIS;
    let mut i: usize = 0;
    while i <= n - 8
        invariant
            8 <= n <= data@.len(),
            s == data@.subrange(0, n as int),
            i <= n,
            digest_chunks(s, i as int, h) == digest_chunks(s, 0, DIGEST_BASIS),
        decreases n - i,
    {
        proof {
            assert(word_at(s, i as int) == word_at(data@, i as int));
        }
        h = bitmix(to_u64_at(data, i), h);
        i += 8;
    }
    proof {
        assert(word_at(s, n - 8) == word_at(data@, n - 8));
    }
    rich_bitmix(to_u64_at(data, n - 8), h)
}

pub open spec fn spec_full_hash(s: Seq<u8>, seed: u64) -> u64 {
    spec_bitmix(spec_key_digest(s), seed)
}

/// Hash of a whole key: the fold, then the seed.
pub fn full_hash(data: &[u8], n: usize, seed: u64) -> (r: u64)
    requires
        n <= data@.len(),
    ensures
        r == spec_full_hash(data@.subrange(0, n as int), seed),
{
    bitmix(key_digest(data, n), seed)
}

#[verifier::opaque]
pub open spec fn spec_seed_at(i: u64) -> u64 {
    let z0 = vstd::wrapping::u64_specs::wrapping_mul(
        vstd::wrapping::u64_specs::wrapping_add(i, 1),
        0x9E37_79B9_7F4A_7C15u64,
    );
    let z1 = vstd::wrapping::u64_specs::wrapping_mul(z0 ^ (z0 >> 30u64), 0xBF58_476D_1CE4_E5B9u64);
    let z2 = vstd::wrapping::u64_specs::wrapping_mul(z1 ^ (z1 >> 27u64), 0x94D0_49BB_1331_11EBu64);
    z2 ^ (z2 >> 31u64)
}

/// Deterministic seed sequence for the perfect-hash search: SplitMix64.
pub fn seed_at(i: u64) -> (r: u64)
    ensures
        r == spec_seed_at(i),
{
    reveal(spec_seed_at);
    let mut z = (i.wrapping_add(1)).wrapping_mul(0x9E37_79B9_7F4A_7C15u64);
    z = (z ^ (z >> 30u64)).wrapping_mul(0xBF58_476D_1CE4_E5B9u64);
    z = (z ^ (z >> 27u64)).wrapping_mul(0x94D0_49BB_1331_11EBu64);
    z ^ (z >> 31u64)
}

// ---------------------------------------------------------------------------
// Construction helpers
// ---------------------------------------------------------------------------

/// The bytes of each key.
pub open spec fn key_seqs(keys: Seq<&str>) -> Seq<Seq<u8>> {
    Seq::new(keys.len(), |i: int| keys[i].spec_bytes())
}

/// The smallest power of two at or above `sq`, counting up from `s`.
pub open spec fn pow2_from(s: nat, sq: nat) -> nat
    decreases (if s < sq { sq - s } else { 0 }),
{
    if s == 0 || s >= sq {
        s
    } else {
        pow2_from(s * 2, sq)
    }
}

/// Bucket count for `n` keys: half the power of two at or above `n * n`,
/// clamped to the table.
pub open spec fn spec_slots_for(n: nat) -> nat {
    if n <= 1 {
        1
    } else {
        let s = pow2_from(1, n * n) / 2;
        if s > SLOT_CAP { SLOT_CAP as nat } else { s }
    }
}

proof fn lemma_pow2_from(s: nat, sq: nat)
    requires
        1 <= s,
    ensures
        s <= pow2_from(s, sq),
        s < sq ==> pow2_from(s, sq) < 2 * sq,
        s >= sq ==> pow2_from(s, sq) == s,
    decreases (if s < sq { sq - s } else { 0 }),
{
    if s < sq {
        lemma_pow2_from(s * 2, sq);
    }
}

pub fn slots_for(n: usize) -> (r: usize)
    requires
        n <= MAX_HASHED_KEYS,
    ensures
        r == spec_slots_for(n as nat),
        1 <= r <= SLOT_CAP,
{
    if n <= 1 {
        return 1;
    }
    proof {
        assert(n * n <= 65025) by (nonlinear_arith)
            requires
                n <= 255,
        ;
        assert(n * n >= 4) by (nonlinear_arith)
            requires
                n >= 2,
        ;
    }
    let sq = n * n;
    let mut s: usize = 1;
    while s < sq
        invariant
            1 <= s,
            sq <= 65025,
            s < 2 * sq,
            sq == n * n,
            pow2_from(s as nat, sq as nat) == pow2_from(1, sq as nat),
        decreases 2 * sq - s,
    {
        s = s * 2;
    }
    proof {
        lemma_pow2_from(1, sq as nat);
    }
    let s = s / 2;
    if s > SLOT_CAP {
        SLOT_CAP
    } else {
        s
    }
}

/// Byte equality of two strings.
pub fn const_str_eq(a: &str, b: &str) -> (r: bool)
    ensures
        r == (a.spec_bytes() == b.spec_bytes()),
{
    let x = a.as_bytes();
    let y = b.as_bytes();
    if x.len() != y.len() {
        return false;
    }
    let mut i: usize = 0;
    while i < x.len()
        invariant
            i <= x@.len(),
            x@.len() == y@.len(),
            x@ == a.spec_bytes(),
            y@ == b.spec_bytes(),
            forall|k: int| 0 <= k < i ==> x@[k] == y@[k],
        decreases x@.len() - i,
    {
        if x[i] != y[i] {
            proof {
                assert(x@[i as int] != y@[i as int]);
            }
            return false;
        }
        i += 1;
    }
    proof {
        assert(x@ =~= y@);
    }
    true
}

/// First `"` at or after `from`.
pub fn find_quote(buf: &[u8], from: usize) -> (r: Option<usize>)
    ensures
        r == (match first_byte_from(buf@, from as int, 0x22u8) {
            Some(k) => Some(k as usize),
            None => None::<usize>,
        }),
{
    find_byte(buf, from, 0x22u8)
}

/// The first byte of every key maps onto its index by `% 4`.
pub open spec fn mod4_fits(ks: Seq<Seq<u8>>) -> bool {
    forall|i: int| 0 <= i < ks.len() ==> #[trigger] ks[i][0] % 4 == i
}

/// The first byte of every key, xored with the first key's, maps onto its
/// index by `% 4`.
pub open spec fn xor_mod4_fits(ks: Seq<Seq<u8>>) -> bool {
    forall|i: int| 0 <= i < ks.len() ==> (#[trigger] ks[i][0] ^ ks[0][0]) % 4 == i
}

/// The first byte of every key, less the first key's, maps onto its index
/// by `% 4`.
pub open spec fn minus_mod4_fits(ks: Seq<Seq<u8>>) -> bool {
    forall|i: int| 0 <= i < ks.len() ==> vstd::wrapping::u8_specs::wrapping_sub(#[trigger] ks[i][0], ks[0][0]) % 4 == i
}

/// Every key has at least `n` bytes.
pub open spec fn all_at_least(ks: Seq<Seq<u8>>, n: int) -> bool {
    forall|i: int| 0 <= i < ks.len() ==> n <= #[trigger] ks[i].len()
}

/// `key[0]` mapped onto `0..4` by one of three cheap operations, landing
/// exactly on the field index.
pub fn try_mod4(keys: &[&str]) -> (r: Option<HashKind>)
    requires
        1 <= keys@.len() <= MAX_HASHED_KEYS,
        all_at_least(key_seqs(keys@), 1),
    ensures
        r == (if mod4_fits(key_seqs(keys@)) {
            Some(HashKind::Mod4)
        } else if xor_mod4_fits(key_seqs(keys@)) {
            Some(HashKind::XorMod4)
        } else if minus_mod4_fits(key_seqs(keys@)) {
            Some(HashKind::MinusMod4)
        } else {
            None
        }),
{
    let ghost ks = key_seqs(keys@);
    let n = keys.len();
    proof {
        assert(ks[0].len() >= 1);
    }
    let c0 = keys[0].as_bytes()[0];
    let mut ok = true;
    let mut i: usize = 0;
    while i < n
        invariant
            n == keys@.len(),
            ks == key_seqs(keys@),
            all_at_least(ks, 1),
            i <= n,
            n <= MAX_HASHED_KEYS,
            ok == (forall|k: int| 0 <= k < i ==> #[trigger] ks[k][0] % 4 == k),
        decreases n - i,
    {
        proof {
            assert(ks[i as int].len() >= 1);
        }
        let b = keys[i].as_bytes()[0];
        let fails = b % 4 != i as u8;
        proof {
            assert(b == ks[i as int][0]);
            assert(fails == !(ks[i as int][0] % 4 == i));
        }
        if fails {
            ok = false;
        }
        i += 1;
    }
    if ok {
        return Some(HashKind::Mod4);
    }
    ok = true;
    i = 0;
    while i < n
        invariant
            n == keys@.len(),
            ks == key_seqs(keys@),
            all_at_least(ks, 1),
            c0 == ks[0][0],
            i <= n,
            n <= MAX_HASHED_KEYS,
            ok == (forall|k: int| 0 <= k < i ==> (#[trigger] ks[k][0] ^ ks[0][0]) % 4 == k),
        decreases n - i,
    {
        proof {
            assert(ks[i as int].len() >= 1);
        }
        let b = keys[i].as_bytes()[0];
        let fails = (b ^ c0) % 4 != i as u8;
        proof {
            assert(b == ks[i as int][0]);
            assert(fails == !((ks[i as int][0] ^ ks[0][0]) % 4 == i));
        }
        if fails {
            ok = false;
        }
        i += 1;
    }
    if ok {
        return Some(HashKind::XorMod4);
    }
    ok = true;
    i = 0;
    while i < n
        invariant
            n == keys@.len(),
            ks == key_seqs(keys@),
            all_at_least(ks, 1),
            c0 == ks[0][0],
            i <= n,
            n <= MAX_HASHED_KEYS,
            ok == (forall|k: int| 0 <= k < i ==> vstd::wrapping::u8_specs::wrapping_sub(#[trigger] ks[k][0], ks[0][0]) % 4 == k),
        decreases n - i,
    {
        proof {
            assert(ks[i as int].len() >= 1);
        }
        let b = keys[i].as_bytes()[0];
        let fails = b.wrapping_sub(c0) % 4 != i as u8;
        proof {
            assert(b == ks[i as int][0]);
            assert(fails == !(vstd::wrapping::u8_specs::wrapping_sub(ks[i as int][0], ks[0][0]) % 4 == i));
        }
        if fails {
            ok = false;
        }
        i += 1;
    }
    if ok {
        return Some(HashKind::MinusMod4);
    }
    None
}

/// No two keys share their byte at `col`.
pub open spec fn col_distinct(ks: Seq<Seq<u8>>, col: int) -> bool {
    forall|i: int, j: int| 0 <= i < j < ks.len() ==> #[trigger] ks[i][col] != #[trigger] ks[j][col]
}

/// No two keys of the same length share their byte at `col`.
pub open spec fn sized_col_distinct(ks: Seq<Seq<u8>>, col: int) -> bool {
    forall|i: int, j: int| 0 <= i < j < ks.len() && ks[i].len() == ks[j].len()
        ==> #[trigger] ks[i][col] != #[trigger] ks[j][col]
}

/// No two keys of length `len` share their byte at `col`.
pub open spec fn class_col_distinct(ks: Seq<Seq<u8>>, len: int, col: int) -> bool {
    forall|i: int, j: int| 0 <= i < j < ks.len() && ks[i].len() == len && ks[j].len() == len
        ==> #[trigger] ks[i][col] != #[trigger] ks[j][col]
}

/// Some key has length `len`.
pub open spec fn has_len(ks: Seq<Seq<u8>>, len: int) -> bool {
    exists|i: int| 0 <= i < ks.len() && #[trigger] ks[i].len() == len
}

/// Whether no two keys share their byte at `col`, by marking each byte
/// value as it is met.
fn column_unique(keys: &[&str], col: usize) -> (r: bool)
    requires
        all_at_least(key_seqs(keys@), col + 1),
    ensures
        r == col_distinct(key_seqs(keys@), col as int),
{
    let ghost ks = key_seqs(keys@);
    let n = keys.len();
    let mut seen: Vec<bool> = vec![false; 256];
    let mut i: usize = 0;
    while i < n
        invariant
            n == keys@.len(),
            ks == key_seqs(keys@),
            all_at_least(ks, col + 1),
            i <= n,
            seen@.len() == 256,
            forall|k: int| 0 <= k < i ==> seen@[#[trigger] ks[k][col as int] as int],
            forall|v: int| 0 <= v < 256 && #[trigger] seen@[v] ==> exists|k: int| 0 <= k < i && ks[k][col as int] == v,
            forall|a: int, b: int| 0 <= a < b < i ==> #[trigger] ks[a][col as int] != #[trigger] ks[b][col as int],
        decreases n - i,
    {
        proof {
            assert(ks[i as int].len() >= col + 1);
        }
        let c = keys[i].as_bytes()[col];
        proof {
            assert(c == ks[i as int][col as int]);
        }
        if seen[c as usize] {
            proof {
                let k = choose|k: int| 0 <= k < i && ks[k][col as int] == c;
                assert(ks[k][col as int] == ks[i as int][col as int]);
            }
            return false;
        }
        seen.set(c as usize, true);
        proof {
            assert forall|a: int, b: int| 0 <= a < b < i + 1 implies #[trigger] ks[a][col as int] != #[trigger] ks[b][col as int] by {
                if b == i {
                    if ks[a][col as int] == c {
                        assert(seen@[ks[a][col as int] as int]);
                    }
                }
            }
        }
        i += 1;
    }
    true
}

/// Whether no two keys of the same length share their byte at `col`.
fn sized_column_unique(keys: &[&str], col: usize) -> (r: bool)
    requires
        all_at_least(key_seqs(keys@), col + 1),
    ensures
        r == sized_col_distinct(key_seqs(keys@), col as int),
{
    let ghost ks = key_seqs(keys@);
    let n = keys.len();
    let mut i: usize = 0;
    while i < n
        invariant
            n == keys@.len(),
            ks == key_seqs(keys@),
            all_at_least(ks, col + 1),
            i <= n,
            forall|a: int, b: int| 0 <= a < i && a < b < n && ks[a].len() == ks[b].len()
                ==> #[trigger] ks[a][col as int] != #[trigger] ks[b][col as int],
        decreases n - i,
    {
        let mut j = i + 1;
        while j < n
            invariant
                n == keys@.len(),
                ks == key_seqs(keys@),
                all_at_least(ks, col + 1),
                i < n,
                i + 1 <= j <= n,
                forall|a: int, b: int| 0 <= a < i && a < b < n && ks[a].len() == ks[b].len()
                    ==> #[trigger] ks[a][col as int] != #[trigger] ks[b][col as int],
                forall|b: int| i < b < j && ks[i as int].len() == ks[b].len()
                    ==> ks[i as int][col as int] != #[trigger] ks[b][col as int],
            decreases n - j,
        {
            proof {
                assert(ks[i as int].len() >= col + 1);
                assert(ks[j as int].len() >= col + 1);
            }
            let ki = keys[i].as_bytes();
            let kj = keys[j].as_bytes();
            if ki.len() == kj.len() && ki[col] == kj[col] {
                proof {
                    assert(ks[i as int][col as int] == ks[j as int][col as int]);
                }
                return false;
            }
            j += 1;
        }
        i += 1;
    }
    true
}

/// The first byte column, within reach of every key, whose values are all
/// distinct.
pub fn find_unique_index(keys: &[&str], min_len: usize) -> (r: Option<usize>)
    requires
        all_at_least(key_seqs(keys@), min_len as int),
    ensures
        match r {
            Some(c) => c < min_len && col_distinct(key_seqs(keys@), c as int)
                && forall|d: int| 0 <= d < c ==> !col_distinct(key_seqs(keys@), d),
            None => forall|d: int| 0 <= d < min_len ==> !col_distinct(key_seqs(keys@), d),
        },
{
    if min_len == 0 {
        return None;
    }
    let mut col: usize = 0;
    while col < min_len
        invariant
            all_at_least(key_seqs(keys@), min_len as int),
            col <= min_len,
            forall|d: int| 0 <= d < col ==> !col_distinct(key_seqs(keys@), d),
        decreases min_len - col,
    {
        if column_unique(keys, col) {
            return Some(col);
        }
        col += 1;
    }
    None
}

/// The shortest key's length, or `usize::MAX` for no keys.
pub fn min_key_len(keys: &[&str]) -> (r: usize)
    ensures
        all_at_least(key_seqs(keys@), r as int),
        keys@.len() > 0 ==> exists|i: int| 0 <= i < keys@.len() && #[trigger] key_seqs(keys@)[i].len() == r,
        keys@.len() == 0 ==> r == usize::MAX,
{
    let ghost ks = key_seqs(keys@);
    let mut m = usize::MAX;
    let mut i: usize = 0;
    while i < keys.len()
        invariant
            ks == key_seqs(keys@),
            i <= keys@.len(),
            forall|k: int| 0 <= k < i ==> m <= #[trigger] ks[k].len(),
            i > 0 ==> exists|k: int| 0 <= k < i && #[trigger] ks[k].len() == m,
            i == 0 ==> m == usize::MAX,
        decreases keys@.len() - i,
    {
        let l = keys[i].as_bytes().len();
        proof {
            assert(l == ks[i as int].len());
        }
        if l < m {
            m = l;
        }
        i += 1;
    }
    m
}

/// Like [`find_unique_index`], but the key length joins the byte, so a
/// column only has to be distinct within each length class.
pub fn find_sized_unique_index(keys: &[&str]) -> (r: Option<usize>)
    ensures
        match r {
            Some(c) => all_at_least(key_seqs(keys@), c + 1) && sized_col_distinct(key_seqs(keys@), c as int)
                && forall|d: int| 0 <= d < c ==> !sized_col_distinct(key_seqs(keys@), d),
            None => forall|d: int| 0 <= d && all_at_least(key_seqs(keys@), d + 1) ==> !sized_col_distinct(key_seqs(keys@), d),
        },
{
    let min_len = min_key_len(keys);
    if min_len == 0 {
        proof {
            let ks = key_seqs(keys@);
            assert forall|d: int| 0 <= d && all_at_least(ks, d + 1) implies !sized_col_distinct(ks, d) by {
                let w = choose|k: int| 0 <= k < keys@.len() && #[trigger] ks[k].len() == min_len;
                assert(ks[w].len() >= d + 1);
            }
        }
        return None;
    }
    let mut col: usize = 0;
    while col < min_len
        invariant
            all_at_least(key_seqs(keys@), min_len as int),
            col <= min_len,
            keys@.len() > 0 ==> exists|i: int| 0 <= i < keys@.len() && #[trigger] key_seqs(keys@)[i].len() == min_len,
            keys@.len() == 0 ==> min_len == usize::MAX,
            forall|d: int| 0 <= d < col ==> !sized_col_distinct(key_seqs(keys@), d),
        decreases min_len - col,
    {
        if sized_column_unique(keys, col) {
            return Some(col);
        }
        col += 1;
    }
    proof {
        let ks = key_seqs(keys@);
        if keys@.len() == 0 {
            assert(sized_col_distinct(ks, 0));
        }
        assert forall|d: int| 0 <= d && all_at_least(ks, d + 1) implies !sized_col_distinct(ks, d) by {
            if d >= min_len {
                if keys@.len() > 0 {
                    let w = choose|k: int| 0 <= k < keys@.len() && #[trigger] ks[k].len() == min_len;
                    assert(ks[w].len() >= d + 1);
                }
            }
        }
    }
    None
}

/// Whether the leading `width` bytes of the keys are pairwise distinct.
pub fn front_bytes_distinct(keys: &[&str], width: usize) -> (r: bool)
    requires
        width <= 8,
        all_at_least(key_seqs(keys@), width as int),
    ensures
        r == (forall|i: int, j: int| 0 <= i < j < keys@.len()
            ==> #[trigger] le_value(key_seqs(keys@)[i].subrange(0, width as int))
                != #[trigger] le_value(key_seqs(keys@)[j].subrange(0, width as int))),
{
    let ghost ks = key_seqs(keys@);
    let n = keys.len();
    let mut i: usize = 0;
    while i < n
        invariant
            n == keys@.len(),
            ks == key_seqs(keys@),
            width <= 8,
            all_at_least(ks, width as int),
            i <= n,
            forall|a: int, b: int| 0 <= a < i && a < b < n
                ==> #[trigger] le_value(ks[a].subrange(0, width as int)) != #[trigger] le_value(ks[b].subrange(0, width as int)),
        decreases n - i,
    {
        proof {
            assert(ks[i as int].len() >= width);
        }
        let a = to_u64_below_8(keys[i].as_bytes(), width);
        let mut j = i + 1;
        while j < n
            invariant
                n == keys@.len(),
                ks == key_seqs(keys@),
                width <= 8,
                all_at_least(ks, width as int),
                i < n,
                i + 1 <= j <= n,
                a == le_value(ks[i as int].subrange(0, width as int)),
                forall|x: int, b: int| 0 <= x < i && x < b < n
                    ==> #[trigger] le_value(ks[x].subrange(0, width as int)) != #[trigger] le_value(ks[b].subrange(0, width as int)),
                forall|b: int| i < b < j ==> a != #[trigger] le_value(ks[b].subrange(0, width as int)),
            decreases n - j,
        {
            proof {
                assert(ks[j as int].len() >= width);
            }
            if a == to_u64_below_8(keys[j].as_bytes(), width) {
                return false;
            }
            j += 1;
        }
        i += 1;
    }
    true
}

/// Whether some key has length `len`.
fn has_key_of_len(keys: &[&str], len: usize) -> (r: bool)
    ensures
        r == has_len(key_seqs(keys@), len as int),
{
    let ghost ks = key_seqs(keys@);
    let mut i: usize = 0;
    while i < keys.len()
        invariant
            ks == key_seqs(keys@),
            i <= keys@.len(),
            forall|k: int| 0 <= k < i ==> #[trigger] ks[k].len() != len,
        decreases keys@.len() - i,
    {
        if keys[i].as_bytes().len() == len {
            proof {
                assert(ks[i as int].len() == len);
            }
            return true;
        }
        i += 1;
    }
    false
}

/// Whether no two keys of length `len` share their byte at `col`, by
/// marking each byte value as it is met.
fn class_column_unique(keys: &[&str], len: usize, col: usize) -> (r: bool)
    requires
        col < len,
    ensures
        r == class_col_distinct(key_seqs(keys@), len as int, col as int),
{
    let ghost ks = key_seqs(keys@);
    let n = keys.len();
    let mut seen: Vec<bool> = vec![false; 256];
    let mut i: usize = 0;
    while i < n
        invariant
            n == keys@.len(),
            ks == key_seqs(keys@),
            col < len,
            i <= n,
            seen@.len() == 256,
            forall|k: int| 0 <= k < i && ks[k].len() == len ==> seen@[#[trigger] ks[k][col as int] as int],
            forall|v: int| 0 <= v < 256 && #[trigger] seen@[v]
                ==> exists|k: int| 0 <= k < i && ks[k].len() == len && ks[k][col as int] == v,
            forall|a: int, b: int| 0 <= a < b < i && ks[a].len() == len && ks[b].len() == len
                ==> #[trigger] ks[a][col as int] != #[trigger] ks[b][col as int],
        decreases n - i,
    {
        let k = keys[i].as_bytes();
        if k.len() == len {
            let c = k[col];
            proof {
                assert(c == ks[i as int][col as int]);
            }
            if seen[c as usize] {
                proof {
                    let w = choose|w: int| 0 <= w < i && ks[w].len() == len && ks[w][col as int] == c;
                    assert(ks[w][col as int] == ks[i as int][col as int]);
                }
                return false;
            }
            seen.set(c as usize, true);
            proof {
                assert forall|a: int, b: int| 0 <= a < b < i + 1 && ks[a].len() == len && ks[b].len() == len
                    implies #[trigger] ks[a][col as int] != #[trigger] ks[b][col as int] by {
                    if b == i {
                        if ks[a][col as int] == c {
                            assert(seen@[ks[a][col as int] as int]);
                        }
                    }
                }
            }
        }
        i += 1;
    }
    true
}

/// The first column telling apart the keys of length `len`.
fn first_class_column(keys: &[&str], len: usize) -> (r: Option<usize>)
    ensures
        match r {
            Some(col) => col < len && class_col_distinct(key_seqs(keys@), len as int, col as int)
                && forall|c: int| 0 <= c < col ==> !class_col_distinct(key_seqs(keys@), len as int, c),
            None => forall|c: int| 0 <= c < len ==> !class_col_distinct(key_seqs(keys@), len as int, c),
        },
{
    let mut col: usize = 0;
    while col < len
        invariant
            col <= len,
            forall|c: int| 0 <= c < col ==> !class_col_distinct(key_seqs(keys@), len as int, c),
        decreases len - col,
    {
        if class_column_unique(keys, len, col) {
            return Some(col);
        }
        col += 1;
    }
    None
}

/// Every key's length lies in `[min_len, max_len]`.
pub open spec fn lens_within(ks: Seq<Seq<u8>>, min_len: int, max_len: int) -> bool {
    forall|i: int| 0 <= i < ks.len() ==> min_len <= #[trigger] ks[i].len() <= max_len
}

/// `out[len]` is the first column telling apart the keys of length `len`.
pub open spec fn per_len_fits(ks: Seq<Seq<u8>>, out: Seq<u8>) -> bool {
    &&& out.len() == SLOT_CAP
    &&& forall|l: int| 0 <= l < SLOT_CAP && has_len(ks, l) ==> {
        &&& (#[trigger] out[l]) < l
        &&& class_col_distinct(ks, l, out[l] as int)
        &&& forall|c: int| 0 <= c < out[l] ==> !class_col_distinct(ks, l, c)
    }
    &&& forall|l: int| 0 <= l < SLOT_CAP && !has_len(ks, l) ==> #[trigger] out[l] == 255
}

/// One distinguishing byte column per key length, or `None` if some length
/// class has none.
pub fn unique_per_length(keys: &[&str], min_len: usize, max_len: usize) -> (r: Option<Vec<u8>>)
    requires
        lens_within(key_seqs(keys@), min_len as int, max_len as int),
    ensures
        match r {
            Some(out) => min_len > 0 && max_len < SLOT_CAP && per_len_fits(key_seqs(keys@), out@),
            None => min_len == 0 || max_len >= SLOT_CAP || exists|l: int| has_len(key_seqs(keys@), l)
                && forall|c: int| 0 <= c < l ==> !class_col_distinct(key_seqs(keys@), l, c),
        },
{
    let ghost ks = key_seqs(keys@);
    if min_len == 0 || max_len >= SLOT_CAP {
        return None;
    }
    let mut out: Vec<u8> = vec![255u8; 256];
    let mut len = min_len;
    while len <= max_len
        invariant
            ks == key_seqs(keys@),
            lens_within(ks, min_len as int, max_len as int),
            0 < min_len <= len,
            len <= max_len + 1 || len == min_len,
            max_len < SLOT_CAP,
            out@.len() == SLOT_CAP,
            forall|l: int| 0 <= l < len && has_len(ks, l) ==> {
                &&& (#[trigger] out@[l]) < l
                &&& class_col_distinct(ks, l, out@[l] as int)
                &&& forall|c: int| 0 <= c < out@[l] ==> !class_col_distinct(ks, l, c)
            },
            forall|l: int| 0 <= l < SLOT_CAP && (l >= len || !has_len(ks, l)) ==> #[trigger] out@[l] == 255,
        decreases max_len + 1 - len,
    {
        if has_key_of_len(keys, len) {
            match first_class_column(keys, len) {
                Some(col) => {
                    out.set(len, col as u8);
                },
                None => return None,
            }
        }
        len += 1;
    }
    proof {
        assert forall|l: int| 0 <= l < SLOT_CAP && has_len(ks, l) implies l <= max_len by {
            let w = choose|w: int| 0 <= w < ks.len() && #[trigger] ks[w].len() == l;
            assert(ks[w].len() <= max_len);
        }
    }
    Some(out)
}

// --- seed searches ---------------------------------------------------------

/// Which quantity the seed search feeds into the final mix.
#[derive(Clone, Copy, PartialEq, Eq, Debug, Structural)]
pub enum SearchMode {
    Front2,
    Front4,
    Front8,
    Sized,
    PerLength,
    Full,
}

/// What a key must hold for its preimage under `mode` to be taken.
pub open spec fn preimage_ok(k: Seq<u8>, mode: SearchMode, uidx: int, per_len: Seq<u8>) -> bool {
    match mode {
        SearchMode::Front2 => k.len() >= 2,
        SearchMode::Front4 => k.len() >= 4,
        SearchMode::Front8 => k.len() >= 8,
        SearchMode::Sized => 0 <= uidx < k.len(),
        SearchMode::PerLength => k.len() < per_len.len() && per_len[k.len() as int] < k.len(),
        SearchMode::Full => true,
    }
}

/// The part of a key's hash that does not depend on the seed.
pub open spec fn spec_preimage(k: Seq<u8>, mode: SearchMode, uidx: int, per_len: Seq<u8>) -> u64 {
    match mode {
        SearchMode::Front2 => le_value(k.subrange(0, 2)),
        SearchMode::Front4 => le_value(k.subrange(0, 4)),
        SearchMode::Front8 => le_value(k.subrange(0, 8)),
        SearchMode::Sized => (k[uidx] as u64) | ((k.len() as u64) << 8u64),
        SearchMode::PerLength => (k[per_len[k.len() as int] as int] as u64) | ((k.len() as u64) << 8u64),
        SearchMode::Full => spec_key_digest(k),
    }
}

pub fn search_preimage(key: &[u8], mode: SearchMode, uidx: usize, per_len: &Vec<u8>) -> (r: u64)
    requires
        preimage_ok(key@, mode, uidx as int, per_len@),
    ensures
        r == spec_preimage(key@, mode, uidx as int, per_len@),
{
    proof {
        assert(key@.subrange(0, key@.len() as int) =~= key@);
    }
    match mode {
        SearchMode::Front2 => to_u64_below_8(key, 2),
        SearchMode::Front4 => to_u64_below_8(key, 4),
        SearchMode::Front8 => to_u64_below_8(key, 8),
        SearchMode::Sized => (key[uidx] as u64) | ((key.len() as u64) << 8u64),
        SearchMode::PerLength => {
            let col = per_len[key.len()] as usize;
            (key[col] as u64) | ((key.len() as u64) << 8u64)
        },
        SearchMode::Full => key_digest(key, key.len()),
    }
}

/// The seed-dependent step.
pub open spec fn spec_mix(pre: u64, seed: u64, mode: SearchMode) -> u64 {
    match mode {
        SearchMode::Front8 => spec_rich_bitmix(pre, seed),
        _ => spec_bitmix(pre, seed),
    }
}

pub fn mix_preimage(pre: u64, seed: u64, mode: SearchMode) -> (r: u64)
    ensures
        r == spec_mix(pre, seed, mode),
{
    match mode {
        SearchMode::Front8 => rich_bitmix(pre, seed),
        SearchMode::Front2 | SearchMode::Front4 | SearchMode::Sized | SearchMode::PerLength
        | SearchMode::Full => bitmix(pre, seed),
    }
}

/// The bucket a preimage lands in.
pub open spec fn slot(pre: u64, seed: u64, mode: SearchMode, mask: u64) -> u64 {
    spec_mix(pre, seed, mode) & mask
}

/// Every preimage lands in its own bucket.
#[verifier::opaque]
pub open spec fn places(pres: Seq<u64>, seed: u64, mode: SearchMode, mask: u64) -> bool {
    forall|i: int, j: int| 0 <= i < j < pres.len()
        ==> #[trigger] slot(pres[i], seed, mode, mask) != #[trigger] slot(pres[j], seed, mode, mask)
}

/// The table of a placement: each preimage's bucket holds its index, every
/// other bucket the sentinel `n`.
#[verifier::opaque]
pub open spec fn table_of(pres: Seq<u64>, seed: u64, mode: SearchMode, mask: u64, table: Seq<u8>) -> bool {
    &&& table.len() == SLOT_CAP
    &&& forall|i: int| 0 <= i < pres.len() ==> table[#[trigger] slot(pres[i], seed, mode, mask) as int] == i
    &&& forall|x: int| 0 <= x < SLOT_CAP && (forall|i: int| 0 <= i < pres.len() ==> #[trigger] slot(pres[i], seed, mode, mask) != x)
        ==> #[trigger] table[x] == pres.len()
}

proof fn lemma_mask_bound(h: u64, mask: u64)
    requires
        mask < 256,
    ensures
        h & mask <= mask,
{
    assert(h & mask <= mask) by (bit_vector);
}

/// Place every preimage under `seed`, or report the first collision.
fn place(pres: &Vec<u64>, seed: u64, mode: SearchMode, mask: u64) -> (r: Option<Vec<u8>>)
    requires
        pres@.len() <= MAX_HASHED_KEYS,
        mask < SLOT_CAP,
    ensures
        match r {
            Some(t) => places(pres@, seed, mode, mask) && table_of(pres@, seed, mode, mask, t@)
                && t@.len() == SLOT_CAP,
            None => !places(pres@, seed, mode, mask),
        },
{
    reveal(places);
    reveal(table_of);
    let n = pres.len();
    let mut table: Vec<u8> = vec![n as u8; 256];
    let mut i: usize = 0;
    while i < n
        invariant
            n == pres@.len(),
            n <= MAX_HASHED_KEYS,
            mask < SLOT_CAP,
            i <= n,
            table@.len() == SLOT_CAP,
            forall|k: int| 0 <= k < i ==> table@[#[trigger] slot(pres@[k], seed, mode, mask) as int] == k,
            forall|x: int| 0 <= x < SLOT_CAP && (forall|k: int| 0 <= k < i ==> #[trigger] slot(pres@[k], seed, mode, mask) != x)
                ==> #[trigger] table@[x] == n,
            forall|a: int, b: int| 0 <= a < b < i
                ==> #[trigger] slot(pres@[a], seed, mode, mask) != #[trigger] slot(pres@[b], seed, mode, mask),
        decreases n - i,
    {
        let h = mix_preimage(pres[i], seed, mode) & mask;
        proof {
            lemma_mask_bound(spec_mix(pres@[i as int], seed, mode), mask);
            assert(h == slot(pres@[i as int], seed, mode, mask));
        }
        if table[h as usize] != n as u8 {
            proof {
                if forall|k: int| 0 <= k < i ==> #[trigger] slot(pres@[k], seed, mode, mask) != h {
                    assert(table@[h as int] == n);
                }
                let k = choose|k: int| 0 <= k < i && #[trigger] slot(pres@[k], seed, mode, mask) == h;
                assert(slot(pres@[k], seed, mode, mask) == slot(pres@[i as int], seed, mode, mask));
                reveal(places);
            }
            return None;
        }
        proof {
            assert forall|k: int| 0 <= k < i implies #[trigger] slot(pres@[k], seed, mode, mask) != h by {
                if slot(pres@[k], seed, mode, mask) == h {
                    assert(table@[h as int] == k);
                }
            }
        }
        let ghost before = table@;
        table.set(h as usize, i as u8);
        proof {
            assert forall|k: int| 0 <= k < i + 1 implies table@[#[trigger] slot(pres@[k], seed, mode, mask) as int] == k by {
                if k < i {
                    lemma_mask_bound(spec_mix(pres@[k], seed, mode), mask);
                    assert(before[slot(pres@[k], seed, mode, mask) as int] == k);
                }
            }
        }
        i += 1;
    }
    proof {
        reveal(places);
        reveal(table_of);
    }
    Some(table)
}

/// Every key's preimage under `mode` can be taken.
pub open spec fn all_preimages_ok(ks: Seq<Seq<u8>>, mode: SearchMode, uidx: int, per_len: Seq<u8>) -> bool {
    forall|i: int| 0 <= i < ks.len() ==> preimage_ok(#[trigger] ks[i], mode, uidx, per_len)
}

/// The preimages of the keys.
pub open spec fn preimages(ks: Seq<Seq<u8>>, mode: SearchMode, uidx: int, per_len: Seq<u8>) -> Seq<u64> {
    Seq::new(ks.len(), |i: int| spec_preimage(ks[i], mode, uidx, per_len))
}

/// Attempt `a` of the search fails: its seed is zero, or places two keys
/// in one bucket.
#[verifier::opaque]
pub open spec fn attempt_fails(pres: Seq<u64>, a: u64, mode: SearchMode, mask: u64) -> bool {
    spec_seed_at(a) == 0 || !places(pres, spec_seed_at(a), mode, mask)
}

proof fn lemma_found(pres: Seq<u64>, a: u64, seed: u64, table: Seq<u8>, mode: SearchMode, mask: u64)
    requires
        a < SEED_ATTEMPTS,
        seed == spec_seed_at(a),
        seed != 0,
        places(pres, seed, mode, mask),
        table_of(pres, seed, mode, mask, table),
        forall|b: u64| b < a ==> #[trigger] attempt_fails(pres, b, mode, mask),
    ensures
        exists|x: u64| #![trigger spec_seed_at(x)]
            x < SEED_ATTEMPTS && seed == spec_seed_at(x) && seed != 0
            && places(pres, seed, mode, mask) && table_of(pres, seed, mode, mask, table)
            && forall|b: u64| b < x ==> #[trigger] attempt_fails(pres, b, mode, mask),
{
}

/// Find the first seed that places every key in a distinct bucket.
pub fn search_seed(keys: &[&str], slots: usize, mode: SearchMode, uidx: usize, per_len: &Vec<u8>)
    -> (r: Option<(u64, Vec<u8>)>)
    requires
        keys@.len() <= MAX_HASHED_KEYS,
        1 <= slots <= SLOT_CAP,
        all_preimages_ok(key_seqs(keys@), mode, uidx as int, per_len@),
    ensures
        ({
            let pres = preimages(key_seqs(keys@), mode, uidx as int, per_len@);
            let mask = (slots - 1) as u64;
            match r {
                Some((seed, table)) => seed != 0 && table@.len() == SLOT_CAP && places(pres, seed, mode, mask)
                    && table_of(pres, seed, mode, mask, table@)
                    && exists|a: u64| #![trigger spec_seed_at(a)]
                    a < SEED_ATTEMPTS && seed == spec_seed_at(a) && seed != 0
                    && places(pres, seed, mode, mask) && table_of(pres, seed, mode, mask, table@)
                    && forall|b: u64| b < a ==> #[trigger] attempt_fails(pres, b, mode, mask),
                None => forall|b: u64| b < SEED_ATTEMPTS ==> #[trigger] attempt_fails(pres, b, mode, mask),
            }
        }),
{
    let ghost ks = key_seqs(keys@);
    let ghost want = preimages(ks, mode, uidx as int, per_len@);
    let n = keys.len();
    let mask = (slots - 1) as u64;
    let mut pres: Vec<u64> = Vec::new();
    let mut i: usize = 0;
    while i < n
        invariant
            n == keys@.len(),
            ks == key_seqs(keys@),
            want == preimages(ks, mode, uidx as int, per_len@),
            all_preimages_ok(ks, mode, uidx as int, per_len@),
            i <= n,
            pres@.len() == i,
            forall|k: int| 0 <= k < i ==> pres@[k] == want[k],
        decreases n - i,
    {
        proof {
            assert(preimage_ok(ks[i as int], mode, uidx as int, per_len@));
        }
        let p = search_preimage(keys[i].as_bytes(), mode, uidx, per_len);
        pres.push(p);
        i += 1;
    }
    proof {
        assert(pres@ =~= want);
    }
    let mut attempt: u64 = 0;
    while attempt < SEED_ATTEMPTS
        invariant
            pres@ == want,
            want == preimages(key_seqs(keys@), mode, uidx as int, per_len@),
            pres@.len() <= MAX_HASHED_KEYS,
            mask < SLOT_CAP,
            mask == (slots - 1) as u64,
            attempt <= SEED_ATTEMPTS,
            forall|b: u64| b < attempt ==> #[trigger] attempt_fails(want, b, mode, mask),
        decreases SEED_ATTEMPTS - attempt,
    {
        let seed = seed_at(attempt);
        if seed != 0 {
            match place(&pres, seed, mode, mask) {
                Some(table) => {
                    proof {
                        lemma_found(want, attempt, seed, table@, mode, mask);
                    }
                    return Some((seed, table));
                },
                None => {},
            }
        }
        assert(attempt_fails(want, attempt, mode, mask)) by {
            reveal(attempt_fails);
        }
        attempt += 1;
    }
    None
}

// ---------------------------------------------------------------------------
// The map
// ---------------------------------------------------------------------------

/// A perfect hash over an object's keys.
#[derive(Clone)]
pub struct KeyMap {
    /// Which scheme `lookup` runs.
    pub kind: HashKind,
    /// Number of keys. Also the "no match" sentinel returned by `lookup`.
    pub n: u32,
    /// Multiplier found by the seed search, or the reference byte of the
    /// schemes that compare against one.
    pub seed: u64,
    /// Byte column that distinguishes the keys, for the `UniqueIndex` schemes.
    pub unique_index: u32,
    /// Shortest key length.
    pub min_len: u32,
    /// Longest key length.
    pub max_len: u32,
    /// `slots - 1`, the hash mask.
    pub mask: u32,
    /// Bucket table mapping a hash to a candidate field index.
    pub table: Vec<u8>,
    /// For `UniquePerLength`: the distinguishing column for each key length.
    pub per_len: Vec<u8>,
}

impl KeyMap {
    /// The shape every map has, which is what keeps `lookup` in bounds.
    pub open spec fn shape_ok(&self) -> bool {
        &&& self.table@.len() == SLOT_CAP
        &&& self.per_len@.len() == SLOT_CAP
        &&& self.mask < SLOT_CAP
        &&& self.kind == HashKind::UniquePerLength ==> self.max_len < SLOT_CAP
        &&& (self.kind == HashKind::UniqueIndexSized || self.kind == HashKind::UniqueIndex
            || self.kind == HashKind::UniqueIndexTwo) ==> self.unique_index < self.min_len
        &&& (self.kind == HashKind::Mod4 || self.kind == HashKind::XorMod4
            || self.kind == HashKind::MinusMod4) ==> self.min_len >= 1
        &&& self.kind == HashKind::FrontHash2 ==> self.min_len >= 2
        &&& self.kind == HashKind::FrontHash4 ==> self.min_len >= 4
        &&& self.kind == HashKind::FrontHash8 ==> self.min_len >= 8
    }
}

/// The length of the key at the start of `buf`, if it could be one of the
/// map's: the first quote at or after `min_len`, no further than `max_len`.
pub open spec fn spec_key_len(m: KeyMap, buf: Seq<u8>) -> Option<int> {
    if buf.len() < m.min_len {
        None
    } else {
        match first_byte_from(buf, m.min_len as int, 0x22u8) {
            None => None,
            Some(e) => if e > m.max_len { None } else { Some(e) },
        }
    }
}

/// The first index from `i` whose key is `k`, or `none`.
pub open spec fn first_index(ks: Seq<Seq<u8>>, k: Seq<u8>, i: int, none: int) -> int
    decreases ks.len() - i,
{
    if i < 0 || i >= ks.len() {
        none
    } else if ks[i] == k {
        i
    } else {
        first_index(ks, k, i + 1, none)
    }
}

/// The table entry under hash `h`.
pub open spec fn bucket(m: KeyMap, h: u64) -> int {
    m.table@[(h & (m.mask as u64)) as int] as int
}

/// The candidate index `lookup` gives for the key at the start of `buf`.
pub open spec fn spec_lookup(m: KeyMap, ks: Seq<Seq<u8>>, buf: Seq<u8>) -> int {
    let n = m.n as int;
    let u = m.unique_index as int;
    match m.kind {
        HashKind::Empty => n,
        HashKind::SingleElement => 0,
        HashKind::Mod4 => if buf.len() == 0 { n } else { (buf[0] & 3u8) as int },
        HashKind::XorMod4 => if buf.len() == 0 { n } else { ((buf[0] ^ (m.seed as u8)) & 3u8) as int },
        HashKind::MinusMod4 => if buf.len() == 0 {
            n
        } else {
            (vstd::wrapping::u8_specs::wrapping_sub(buf[0], m.seed as u8) & 3u8) as int
        },
        HashKind::UniqueIndexTwo => if buf.len() <= u { n } else if buf[u] != m.seed as u8 { 1 } else { 0 },
        HashKind::UniqueIndex => if buf.len() <= u { n } else { m.table@[buf[u] as int] as int },
        HashKind::FrontHash2 => if buf.len() < 2 { n } else { bucket(m, spec_bitmix(le_value(buf.subrange(0, 2)), m.seed)) },
        HashKind::FrontHash4 => if buf.len() < 4 { n } else { bucket(m, spec_bitmix(le_value(buf.subrange(0, 4)), m.seed)) },
        HashKind::FrontHash8 => if buf.len() < 8 { n } else { bucket(m, spec_rich_bitmix(le_value(buf.subrange(0, 8)), m.seed)) },
        HashKind::UniqueIndexSized => match spec_key_len(m, buf) {
            None => n,
            Some(len) => bucket(m, spec_bitmix((buf[u] as u64) | ((len as u64) << 8u64), m.seed)),
        },
        HashKind::UniquePerLength => match spec_key_len(m, buf) {
            None => n,
            Some(len) => {
                let col = m.per_len@[len] as int;
                if col >= len { n } else { bucket(m, spec_bitmix((buf[col] as u64) | ((len as u64) << 8u64), m.seed)) }
            },
        },
        HashKind::FullFlat => match spec_key_len(m, buf) {
            None => n,
            Some(len) => bucket(m, spec_full_hash(buf.subrange(0, len), m.seed)),
        },
        HashKind::Linear => match spec_key_len(m, buf) {
            None => n,
            Some(len) => first_index(ks, buf.subrange(0, len), 0, n),
        },
    }
}

/// Every declared key, followed by its closing quote and anything at all,
/// is mapped to its own index.
pub open spec fn locates(m: KeyMap, ks: Seq<Seq<u8>>) -> bool {
    forall|j: int, rest: Seq<u8>| 0 <= j < ks.len()
        ==> #[trigger] spec_lookup(m, ks, ks[j] + seq![0x22u8] + rest) == j
}

/// The candidate index `lookup_sized` gives for a key whose length is
/// known.
pub open spec fn spec_lookup_sized(m: KeyMap, ks: Seq<Seq<u8>>, key: Seq<u8>) -> int {
    let n = m.n as int;
    let u = m.unique_index as int;
    let len = key.len() as int;
    if len < m.min_len || len > m.max_len {
        n
    } else {
        match m.kind {
            HashKind::Empty => n,
            HashKind::SingleElement => 0,
            HashKind::Mod4 => (key[0] & 3u8) as int,
            HashKind::XorMod4 => ((key[0] ^ (m.seed as u8)) & 3u8) as int,
            HashKind::MinusMod4 => (vstd::wrapping::u8_specs::wrapping_sub(key[0], m.seed as u8) & 3u8) as int,
            HashKind::UniqueIndexTwo => if key[u] != m.seed as u8 { 1 } else { 0 },
            HashKind::UniqueIndex => m.table@[key[u] as int] as int,
            HashKind::FrontHash2 => bucket(m, spec_bitmix(le_value(key.subrange(0, 2)), m.seed)),
            HashKind::FrontHash4 => bucket(m, spec_bitmix(le_value(key.subrange(0, 4)), m.seed)),
            HashKind::FrontHash8 => bucket(m, spec_rich_bitmix(le_value(key.subrange(0, 8)), m.seed)),
            HashKind::UniqueIndexSized => bucket(m, spec_bitmix((key[u] as u64) | ((len as u64) << 8u64), m.seed)),
            HashKind::UniquePerLength => {
                let col = m.per_len@[len] as int;
                if col >= len { n } else { bucket(m, spec_bitmix((key[col] as u64) | ((len as u64) << 8u64), m.seed)) }
            },
            HashKind::FullFlat => bucket(m, spec_full_hash(key, m.seed)),
            HashKind::Linear => first_index(ks, key, 0, n),
        }
    }
}

/// Every declared key, given with its length, is mapped to its own index.
pub open spec fn locates_sized(m: KeyMap, ks: Seq<Seq<u8>>) -> bool {
    forall|j: int| 0 <= j < ks.len() ==> #[trigger] spec_lookup_sized(m, ks, ks[j]) == j
}

/// Byte equality of two slices.
pub fn slice_eq(a: &[u8], b: &[u8]) -> (r: bool)
    ensures
        r == (a@ == b@),
{
    if a.len() != b.len() {
        return false;
    }
    let mut i: usize = 0;
    while i < a.len()
        invariant
            i <= a@.len(),
            a@.len() == b@.len(),
            forall|k: int| 0 <= k < i ==> a@[k] == b@[k],
        decreases a@.len() - i,
    {
        if a[i] != b[i] {
            proof {
                assert(a@[i as int] != b@[i as int]);
            }
            return false;
        }
        i += 1;
    }
    proof {
        assert(a@ =~= b@);
    }
    true
}

impl KeyMap {
    /// Length of the key at `buf[0]`, if it could be one of ours.
    pub fn key_len(&self, buf: &[u8]) -> (r: Option<usize>)
        ensures
            match r {
                Some(e) => spec_key_len(*self, buf@) == Some(e as int) && self.min_len <= e < buf@.len()
                    && e <= self.max_len,
                None => spec_key_len(*self, buf@) is None,
            },
    {
        proof {
            lemma_first_byte_from(buf@, self.min_len as int, 0x22u8);
        }
        let min = self.min_len as usize;
        if buf.len() < min {
            return None;
        }
        let end = match find_quote(buf, min) {
            Some(e) => e,
            None => return None,
        };
        if end > self.max_len as usize {
            return None;
        }
        Some(end)
    }

    /// Map the key starting at `buf[0]` to a candidate field index: `n`
    /// when there is certainly no match, otherwise an index the caller must
    /// confirm with a full comparison.
    pub fn lookup(&self, keys: &[&'static str], buf: &[u8]) -> (r: usize)
        requires
            self.shape_ok(),
        ensures
            r == spec_lookup(*self, key_seqs(keys@), buf@),
    {
        let n = self.n as usize;
        let mask = self.mask as u64;
        proof {
            lemma_mask_bound(0, mask);
        }
        match self.kind {
            HashKind::Empty => {
                assert(n == spec_lookup(*self, key_seqs(keys@), buf@));
                n
            },
            HashKind::SingleElement => {
                assert(0 == spec_lookup(*self, key_seqs(keys@), buf@));
                0
            },
            HashKind::Mod4 => {
                if buf.len() == 0 {
                    return n;
                }
                (buf[0] & 3u8) as usize
            },
            HashKind::XorMod4 => {
                if buf.len() == 0 {
                    return n;
                }
                ((buf[0] ^ (self.seed as u8)) & 3u8) as usize
            },
            HashKind::MinusMod4 => {
                if buf.len() == 0 {
                    return n;
                }
                (buf[0].wrapping_sub(self.seed as u8) & 3u8) as usize
            },
            HashKind::UniqueIndexTwo => {
                let u = self.unique_index as usize;
                if buf.len() <= u {
                    return n;
                }
                if buf[u] != self.seed as u8 { 1 } else { 0 }
            },
            HashKind::UniqueIndex => {
                let u = self.unique_index as usize;
                if buf.len() <= u {
                    return n;
                }
                self.table[buf[u] as usize] as usize
            },
            HashKind::FrontHash2 => {
                if buf.len() < 2 {
                    return n;
                }
                let h = bitmix(to_u64_below_8(buf, 2), self.seed);
                proof {
                    lemma_mask_bound(h, mask);
                }
                let r = self.table[(h & mask) as usize] as usize;
                proof {
                    assert(r == spec_lookup(*self, key_seqs(keys@), buf@));
                }
                r
            },
            HashKind::FrontHash4 => {
                if buf.len() < 4 {
                    return n;
                }
                let h = bitmix(to_u64_below_8(buf, 4), self.seed);
                proof {
                    lemma_mask_bound(h, mask);
                }
                let r = self.table[(h & mask) as usize] as usize;
                proof {
                    assert(r == spec_lookup(*self, key_seqs(keys@), buf@));
                }
                r
            },
            HashKind::FrontHash8 => {
                if buf.len() < 8 {
                    return n;
                }
                let h = rich_bitmix(to_u64_below_8(buf, 8), self.seed);
                proof {
                    lemma_mask_bound(h, mask);
                }
                let r = self.table[(h & mask) as usize] as usize;
                proof {
                    assert(r == spec_lookup(*self, key_seqs(keys@), buf@));
                }
                r
            },
            HashKind::UniqueIndexSized => {
                let len = match self.key_len(buf) {
                    Some(l) => l,
                    None => return n,
                };
                proof {
                    assert(spec_key_len(*self, buf@) == Some(len as int));
                }
                let u = self.unique_index as usize;
                let h = bitmix((buf[u] as u64) | ((len as u64) << 8u64), self.seed);
                proof {
                    lemma_mask_bound(h, mask);
                }
                let r = self.table[(h & mask) as usize] as usize;
                proof {
                    assert(r == spec_lookup(*self, key_seqs(keys@), buf@));
                }
                r
            },
            HashKind::UniquePerLength => {
                let len = match self.key_len(buf) {
                    Some(l) => l,
                    None => return n,
                };
                proof {
                    assert(spec_key_len(*self, buf@) == Some(len as int));
                }
                let col = self.per_len[len] as usize;
                if col >= len {
                    return n;
                }
                let h = bitmix((buf[col] as u64) | ((len as u64) << 8u64), self.seed);
                proof {
                    lemma_mask_bound(h, mask);
                }
                let r = self.table[(h & mask) as usize] as usize;
                proof {
                    assert(r == spec_lookup(*self, key_seqs(keys@), buf@));
                }
                r
            },
            HashKind::FullFlat => {
                let len = match self.key_len(buf) {
                    Some(l) => l,
                    None => return n,
                };
                proof {
                    assert(spec_key_len(*self, buf@) == Some(len as int));
                }
                let h = full_hash(buf, len, self.seed);
                proof {
                    lemma_mask_bound(h, mask);
                }
                let r = self.table[(h & mask) as usize] as usize;
                proof {
                    assert(r == spec_lookup(*self, key_seqs(keys@), buf@));
                }
                r
            },
            HashKind::Linear => {
                let len = match self.key_len(buf) {
                    Some(l) => l,
                    None => return n,
                };
                proof {
                    assert(spec_key_len(*self, buf@) == Some(len as int));
                }
                let key = &buf[0..len];
                let ghost ks = key_seqs(keys@);
                let mut i: usize = 0;
                while i < keys.len()
                    invariant
                        ks == key_seqs(keys@),
                        i <= keys@.len(),
                        key@ == buf@.subrange(0, len as int),
                        n == self.n,
                        first_index(ks, key@, i as int, n as int) == first_index(ks, key@, 0, n as int),
                        spec_lookup(*self, ks, buf@) == first_index(ks, key@, 0, n as int),
                    decreases keys@.len() - i,
                {
                    let kb = keys[i].as_bytes();
                    proof {
                        assert(kb@ == ks[i as int]);
                    }
                    if slice_eq(kb, key) {
                        return i;
                    }
                    i += 1;
                }
                n
            },
        }
    }
}

impl KeyMap {
    /// Map a key whose length is already known to a candidate field index:
    /// the same table, seeds and hashes as [`KeyMap::lookup`], minus the
    /// search for the closing quote.
    pub fn lookup_sized(&self, keys: &[&'static str], key: &[u8]) -> (r: usize)
        requires
            self.shape_ok(),
        ensures
            r == spec_lookup_sized(*self, key_seqs(keys@), key@),
    {
        let n = self.n as usize;
        let len = key.len();
        let mask = self.mask as u64;
        if len < self.min_len as usize || len > self.max_len as usize {
            return n;
        }
        match self.kind {
            HashKind::Empty => n,
            HashKind::SingleElement => 0,
            HashKind::Mod4 => (key[0] & 3u8) as usize,
            HashKind::XorMod4 => ((key[0] ^ (self.seed as u8)) & 3u8) as usize,
            HashKind::MinusMod4 => (key[0].wrapping_sub(self.seed as u8) & 3u8) as usize,
            HashKind::UniqueIndexTwo => {
                if key[self.unique_index as usize] != self.seed as u8 { 1 } else { 0 }
            },
            HashKind::UniqueIndex => self.table[key[self.unique_index as usize] as usize] as usize,
            HashKind::FrontHash2 => {
                let h = bitmix(to_u64_below_8(key, 2), self.seed);
                proof {
                    lemma_mask_bound(h, mask);
                }
                self.table[(h & mask) as usize] as usize
            },
            HashKind::FrontHash4 => {
                let h = bitmix(to_u64_below_8(key, 4), self.seed);
                proof {
                    lemma_mask_bound(h, mask);
                }
                self.table[(h & mask) as usize] as usize
            },
            HashKind::FrontHash8 => {
                let h = rich_bitmix(to_u64_below_8(key, 8), self.seed);
                proof {
                    lemma_mask_bound(h, mask);
                }
                self.table[(h & mask) as usize] as usize
            },
            HashKind::UniqueIndexSized => {
                let u = self.unique_index as usize;
                let h = bitmix((key[u] as u64) | ((len as u64) << 8u64), self.seed);
                proof {
                    lemma_mask_bound(h, mask);
                }
                self.table[(h & mask) as usize] as usize
            },
            HashKind::UniquePerLength => {
                let col = self.per_len[len] as usize;
                if col >= len {
                    return n;
                }
                let h = bitmix((key[col] as u64) | ((len as u64) << 8u64), self.seed);
                proof {
                    lemma_mask_bound(h, mask);
                }
                self.table[(h & mask) as usize] as usize
            },
            HashKind::FullFlat => {
                let h = full_hash(key, len, self.seed);
                proof {
                    lemma_mask_bound(h, mask);
                    assert(key@.subrange(0, len as int) =~= key@);
                }
                self.table[(h & mask) as usize] as usize
            },
            HashKind::Linear => {
                let ghost ks = key_seqs(keys@);
                let mut i: usize = 0;
                while i < keys.len()
                    invariant
                        ks == key_seqs(keys@),
                        i <= keys@.len(),
                        n == self.n,
                        first_index(ks, key@, i as int, n as int) == first_index(ks, key@, 0, n as int),
                        spec_lookup_sized(*self, ks, key@) == first_index(ks, key@, 0, n as int),
                    decreases keys@.len() - i,
                {
                    let kb = keys[i].as_bytes();
                    proof {
                        assert(kb@ == ks[i as int]);
                    }
                    if slice_eq(kb, key) {
                        return i;
                    }
                    i += 1;
                }
                n
            },
        }
    }
}

// ---------------------------------------------------------------------------
// Construction
// ---------------------------------------------------------------------------

/// No two keys are equal.
pub open spec fn distinct_keys(ks: Seq<Seq<u8>>) -> bool {
    forall|i: int, j: int| 0 <= i < j < ks.len() ==> #[trigger] ks[i] != #[trigger] ks[j]
}

/// No key holds a byte JSON would have to escape, so each can be matched
/// against the raw bytes of a document.
pub open spec fn no_escapes(ks: Seq<Seq<u8>>) -> bool {
    forall|i: int, c: int| 0 <= i < ks.len() && 0 <= c < ks[i].len() ==> !spec_needs_escape(#[trigger] ks[i][c])
}

/// What the builder establishes for the scheme it chose: the facts its
/// lookup relies on.
pub open spec fn scheme_holds(m: KeyMap, ks: Seq<Seq<u8>>) -> bool {
    let u = m.unique_index as int;
    let mask = m.mask as u64;
    &&& m.shape_ok()
    &&& m.n == ks.len()
    &&& distinct_keys(ks)
    &&& no_escapes(ks)
    &&& lens_within(ks, m.min_len as int, m.max_len as int)
    &&& match m.kind {
        HashKind::Empty => ks.len() == 0,
        HashKind::SingleElement => ks.len() == 1,
        HashKind::Mod4 => all_at_least(ks, 1) && mod4_fits(ks),
        HashKind::XorMod4 => all_at_least(ks, 1) && ks.len() >= 1 && m.seed == ks[0][0] as u64 && xor_mod4_fits(ks),
        HashKind::MinusMod4 => all_at_least(ks, 1) && ks.len() >= 1 && m.seed == ks[0][0] as u64 && minus_mod4_fits(ks),
        HashKind::UniqueIndexTwo => ks.len() == 2 && all_at_least(ks, u + 1) && col_distinct(ks, u)
            && m.seed == ks[0][u] as u64,
        HashKind::UniqueIndex => all_at_least(ks, u + 1)
            && forall|i: int| 0 <= i < ks.len() ==> m.table@[#[trigger] ks[i][u] as int] == i,
        HashKind::FrontHash2 => all_at_least(ks, 2)
            && table_of(preimages(ks, SearchMode::Front2, 0, m.per_len@), m.seed, SearchMode::Front2, mask, m.table@),
        HashKind::FrontHash4 => all_at_least(ks, 4)
            && table_of(preimages(ks, SearchMode::Front4, 0, m.per_len@), m.seed, SearchMode::Front4, mask, m.table@),
        HashKind::FrontHash8 => all_at_least(ks, 8)
            && table_of(preimages(ks, SearchMode::Front8, 0, m.per_len@), m.seed, SearchMode::Front8, mask, m.table@),
        HashKind::UniqueIndexSized => all_at_least(ks, u + 1)
            && table_of(preimages(ks, SearchMode::Sized, u, m.per_len@), m.seed, SearchMode::Sized, mask, m.table@),
        HashKind::UniquePerLength => per_len_fits(ks, m.per_len@)
            && table_of(preimages(ks, SearchMode::PerLength, 0, m.per_len@), m.seed, SearchMode::PerLength, mask, m.table@),
        HashKind::FullFlat =>
            table_of(preimages(ks, SearchMode::Full, 0, m.per_len@), m.seed, SearchMode::Full, mask, m.table@),
        HashKind::Linear => true,
    }
}

/// In a key followed by its closing quote, the first quote at or after any
/// point within the key is the closing one.
proof fn lemma_quote_end(k: Seq<u8>, rest: Seq<u8>, from: int)
    requires
        0 <= from <= k.len(),
        forall|c: int| 0 <= c < k.len() ==> k[c] != 0x22u8,
    ensures
        first_byte_from(k + seq![0x22u8] + rest, from, 0x22u8) == Some(k.len() as int),
    decreases k.len() - from,
{
    let buf = k + seq![0x22u8] + rest;
    if from < k.len() {
        assert(buf[from] == k[from]);
        lemma_quote_end(k, rest, from + 1);
    } else {
        assert(buf[from] == 0x22u8);
    }
}

proof fn lemma_first_index(ks: Seq<Seq<u8>>, j: int, i: int, none: int)
    requires
        distinct_keys(ks),
        0 <= i <= j < ks.len(),
    ensures
        first_index(ks, ks[j], i, none) == j,
    decreases j - i,
{
    if i < j {
        assert(ks[i] != ks[j]);
        lemma_first_index(ks, j, i + 1, none);
    }
}

proof fn lemma_u8_roundtrip(w: u64, c: u8)
    requires
        w == c as u64,
    ensures
        w as u8 == c,
{
    assert(w as u8 == c) by (bit_vector)
        requires
            w == c as u64,
    ;
}

proof fn lemma_low_bits(x: u8)
    ensures
        (x & 3u8) as int == x % 4,
{
    assert((x & 3u8) == x % 4) by (bit_vector);
}

/// Under the facts the builder establishes, each declared key followed by
/// its closing quote is mapped to its own index.
proof fn lemma_locates_one(m: KeyMap, ks: Seq<Seq<u8>>, j: int, rest: Seq<u8>)
    requires
        scheme_holds(m, ks),
        0 <= j < ks.len(),
    ensures
        spec_lookup(m, ks, ks[j] + seq![0x22u8] + rest) == j,
{
    reveal(table_of);
    let k = ks[j];
    let buf = k + seq![0x22u8] + rest;
    let u = m.unique_index as int;
    let mask = m.mask as u64;
    assert forall|c: int| 0 <= c < k.len() implies k[c] != 0x22u8 by {
        assert(!spec_needs_escape(ks[j][c]));
    }
    assert forall|c: int| 0 <= c < k.len() implies #[trigger] buf[c] == k[c] by {}
    assert(m.min_len <= k.len() <= m.max_len);
    match m.kind {
        HashKind::Empty => {},
        HashKind::SingleElement => {},
        HashKind::Mod4 => {
            assert(k.len() >= 1);
            lemma_low_bits(buf[0]);
            assert(ks[j][0] % 4 == j);
        },
        HashKind::XorMod4 => {
            assert(k.len() >= 1);
            assert(ks[0].len() >= 1);
            let c0 = ks[0][0];
            lemma_u8_roundtrip(m.seed, c0);
            lemma_low_bits(buf[0] ^ (m.seed as u8));
            assert((ks[j][0] ^ ks[0][0]) % 4 == j);
        },
        HashKind::MinusMod4 => {
            assert(k.len() >= 1);
            assert(ks[0].len() >= 1);
            let c0 = ks[0][0];
            lemma_u8_roundtrip(m.seed, c0);
            lemma_low_bits(vstd::wrapping::u8_specs::wrapping_sub(buf[0], m.seed as u8));
            assert(vstd::wrapping::u8_specs::wrapping_sub(ks[j][0], ks[0][0]) % 4 == j);
        },
        HashKind::UniqueIndexTwo => {
            assert(k.len() >= u + 1);
            assert(ks[0].len() >= u + 1);
            let c0 = ks[0][u];
            lemma_u8_roundtrip(m.seed, c0);
            if j == 1 {
                assert(ks[0][u] != ks[1][u]);
            }
        },
        HashKind::UniqueIndex => {
            assert(k.len() >= u + 1);
            assert(m.table@[ks[j][u] as int] == j);
        },
        HashKind::FrontHash2 => {
            let pres = preimages(ks, SearchMode::Front2, 0, m.per_len@);
            assert(buf.subrange(0, 2) =~= k.subrange(0, 2));
            assert(table_of(pres, m.seed, SearchMode::Front2, mask, m.table@));
            assert(m.table@[slot(pres[j], m.seed, SearchMode::Front2, mask) as int] == j);
        },
        HashKind::FrontHash4 => {
            let pres = preimages(ks, SearchMode::Front4, 0, m.per_len@);
            assert(buf.subrange(0, 4) =~= k.subrange(0, 4));
            assert(m.table@[slot(pres[j], m.seed, SearchMode::Front4, mask) as int] == j);
        },
        HashKind::FrontHash8 => {
            let pres = preimages(ks, SearchMode::Front8, 0, m.per_len@);
            assert(buf.subrange(0, 8) =~= k.subrange(0, 8));
            assert(m.table@[slot(pres[j], m.seed, SearchMode::Front8, mask) as int] == j);
        },
        HashKind::UniqueIndexSized => {
            lemma_quote_end(k, rest, m.min_len as int);
            assert(spec_key_len(m, buf) == Some(k.len() as int));
            assert(k.len() >= u + 1);
            let pres = preimages(ks, SearchMode::Sized, u, m.per_len@);
            assert(m.table@[slot(pres[j], m.seed, SearchMode::Sized, mask) as int] == j);
        },
        HashKind::UniquePerLength => {
            lemma_quote_end(k, rest, m.min_len as int);
            assert(spec_key_len(m, buf) == Some(k.len() as int));
            assert(has_len(ks, k.len() as int));
            assert(m.per_len@[k.len() as int] < k.len());
            let pres = preimages(ks, SearchMode::PerLength, 0, m.per_len@);
            assert(m.table@[slot(pres[j], m.seed, SearchMode::PerLength, mask) as int] == j);
        },
        HashKind::FullFlat => {
            lemma_quote_end(k, rest, m.min_len as int);
            assert(spec_key_len(m, buf) == Some(k.len() as int));
            assert(buf.subrange(0, k.len() as int) =~= k);
            let pres = preimages(ks, SearchMode::Full, 0, m.per_len@);
            assert(m.table@[slot(pres[j], m.seed, SearchMode::Full, mask) as int] == j);
        },
        HashKind::Linear => {
            lemma_quote_end(k, rest, m.min_len as int);
            assert(spec_key_len(m, buf) == Some(k.len() as int));
            assert(buf.subrange(0, k.len() as int) =~= k);
            lemma_first_index(ks, j, 0, m.n as int);
        },
    }
}

/// Under the facts the builder establishes, each declared key given with
/// its length is mapped to its own index.
proof fn lemma_locates_sized_one(m: KeyMap, ks: Seq<Seq<u8>>, j: int)
    requires
        scheme_holds(m, ks),
        0 <= j < ks.len(),
    ensures
        spec_lookup_sized(m, ks, ks[j]) == j,
{
    reveal(table_of);
    let k = ks[j];
    let u = m.unique_index as int;
    let mask = m.mask as u64;
    assert(m.min_len <= k.len() <= m.max_len);
    match m.kind {
        HashKind::Empty => {},
        HashKind::SingleElement => {},
        HashKind::Mod4 => {
            lemma_low_bits(k[0]);
        },
        HashKind::XorMod4 => {
            assert(ks[0].len() >= 1);
            lemma_u8_roundtrip(m.seed, ks[0][0]);
            lemma_low_bits(k[0] ^ (m.seed as u8));
            assert((ks[j][0] ^ ks[0][0]) % 4 == j);
        },
        HashKind::MinusMod4 => {
            assert(ks[0].len() >= 1);
            lemma_u8_roundtrip(m.seed, ks[0][0]);
            lemma_low_bits(vstd::wrapping::u8_specs::wrapping_sub(k[0], m.seed as u8));
            assert(vstd::wrapping::u8_specs::wrapping_sub(ks[j][0], ks[0][0]) % 4 == j);
        },
        HashKind::UniqueIndexTwo => {
            assert(ks[0].len() >= u + 1);
            lemma_u8_roundtrip(m.seed, ks[0][u]);
            if j == 1 {
                assert(ks[0][u] != ks[1][u]);
            }
        },
        HashKind::UniqueIndex => {
            assert(m.table@[ks[j][u] as int] == j);
        },
        HashKind::FrontHash2 => {
            let pres = preimages(ks, SearchMode::Front2, 0, m.per_len@);
            assert(m.table@[slot(pres[j], m.seed, SearchMode::Front2, mask) as int] == j);
        },
        HashKind::FrontHash4 => {
            let pres = preimages(ks, SearchMode::Front4, 0, m.per_len@);
            assert(m.table@[slot(pres[j], m.seed, SearchMode::Front4, mask) as int] == j);
        },
        HashKind::FrontHash8 => {
            let pres = preimages(ks, SearchMode::Front8, 0, m.per_len@);
            assert(m.table@[slot(pres[j], m.seed, SearchMode::Front8, mask) as int] == j);
        },
        HashKind::UniqueIndexSized => {
            let pres = preimages(ks, SearchMode::Sized, u, m.per_len@);
            assert(m.table@[slot(pres[j], m.seed, SearchMode::Sized, mask) as int] == j);
        },
        HashKind::UniquePerLength => {
            assert(has_len(ks, k.len() as int));
            let pres = preimages(ks, SearchMode::PerLength, 0, m.per_len@);
            assert(m.table@[slot(pres[j], m.seed, SearchMode::PerLength, mask) as int] == j);
        },
        HashKind::FullFlat => {
            let pres = preimages(ks, SearchMode::Full, 0, m.per_len@);
            assert(m.table@[slot(pres[j], m.seed, SearchMode::Full, mask) as int] == j);
        },
        HashKind::Linear => {
            lemma_first_index(ks, j, 0, m.n as int);
        },
    }
}

/// Under the facts the builder establishes, the map locates every key.
pub proof fn lemma_locates(m: KeyMap, ks: Seq<Seq<u8>>)
    requires
        scheme_holds(m, ks),
    ensures
        locates(m, ks),
        locates_sized(m, ks),
{
    assert forall|j: int, rest: Seq<u8>| 0 <= j < ks.len()
        implies #[trigger] spec_lookup(m, ks, ks[j] + seq![0x22u8] + rest) == j by {
        lemma_locates_one(m, ks, j, rest);
    }
    assert forall|j: int| 0 <= j < ks.len() implies #[trigger] spec_lookup_sized(m, ks, ks[j]) == j by {
        lemma_locates_sized_one(m, ks, j);
    }
}

/// The longest key's length, or 0 for no keys.
pub fn max_key_len(keys: &[&str]) -> (r: usize)
    ensures
        forall|i: int| 0 <= i < keys@.len() ==> #[trigger] key_seqs(keys@)[i].len() <= r,
        keys@.len() > 0 ==> exists|i: int| 0 <= i < keys@.len() && #[trigger] key_seqs(keys@)[i].len() == r,
        keys@.len() == 0 ==> r == 0,
{
    let ghost ks = key_seqs(keys@);
    let mut m: usize = 0;
    let mut i: usize = 0;
    while i < keys.len()
        invariant
            ks == key_seqs(keys@),
            i <= keys@.len(),
            forall|k: int| 0 <= k < i ==> #[trigger] ks[k].len() <= m,
            i > 0 ==> exists|k: int| 0 <= k < i && #[trigger] ks[k].len() == m,
            i == 0 ==> m == 0,
        decreases keys@.len() - i,
    {
        let l = keys[i].as_bytes().len();
        proof {
            assert(l == ks[i as int].len());
        }
        if l > m {
            m = l;
        }
        i += 1;
    }
    m
}

/// Whether some seed among the attempts places every preimage of the keys
/// under `mode` in its own bucket of the table sized for them.
pub open spec fn seed_found(ks: Seq<Seq<u8>>, mode: SearchMode, uidx: int, per_len: Seq<u8>) -> bool {
    exists|a: u64|
        a < SEED_ATTEMPTS && !#[trigger] attempt_fails(
            preimages(ks, mode, uidx, per_len),
            a,
            mode,
            (spec_slots_for(ks.len()) - 1) as u64,
        )
}

/// The leading `w` bytes tell every key apart.
pub open spec fn front_distinct(ks: Seq<Seq<u8>>, w: int) -> bool {
    forall|i: int, j: int| 0 <= i < j < ks.len()
        ==> #[trigger] le_value(ks[i].subrange(0, w)) != #[trigger] le_value(ks[j].subrange(0, w))
}

/// `d` is the first byte column that, joined with the length, tells every
/// key apart.
pub open spec fn first_sized_col(ks: Seq<Seq<u8>>, d: int) -> bool {
    &&& 0 <= d
    &&& all_at_least(ks, d + 1)
    &&& sized_col_distinct(ks, d)
    &&& forall|e: int| 0 <= e < d ==> !sized_col_distinct(ks, e)
}

/// A table of zeros, the per-length columns of a scheme that has none.
pub open spec fn no_per_len() -> Seq<u8> {
    Seq::new(SLOT_CAP as nat, |i: int| 0u8)
}

/// The scheme the ladder settles on for keys whose lengths run from `lo`
/// to `hi`: the first rung, in order, whose condition the keys meet.
pub open spec fn chosen_kind(ks: Seq<Seq<u8>>, lo: int, hi: int) -> HashKind {
    let n = ks.len();
    let four = (n == 3 || n == 4) && lo > 0;
    if n == 0 {
        HashKind::Empty
    } else if n > MAX_HASHED_KEYS {
        HashKind::Linear
    } else if n == 1 {
        HashKind::SingleElement
    } else if four && mod4_fits(ks) {
        HashKind::Mod4
    } else if four && xor_mod4_fits(ks) {
        HashKind::XorMod4
    } else if four && minus_mod4_fits(ks) {
        HashKind::MinusMod4
    } else if exists|c: int| 0 <= c < lo && #[trigger] col_distinct(ks, c) {
        if n == 2 { HashKind::UniqueIndexTwo } else { HashKind::UniqueIndex }
    } else if lo >= 2 && front_distinct(ks, 2) && seed_found(ks, SearchMode::Front2, 0, no_per_len()) {
        HashKind::FrontHash2
    } else if lo >= 4 && front_distinct(ks, 4) && seed_found(ks, SearchMode::Front4, 0, no_per_len()) {
        HashKind::FrontHash4
    } else if lo >= 8 && front_distinct(ks, 8) && seed_found(ks, SearchMode::Front8, 0, no_per_len()) {
        HashKind::FrontHash8
    } else if exists|d: int| #[trigger] first_sized_col(ks, d) && seed_found(ks, SearchMode::Sized, d, no_per_len()) {
        HashKind::UniqueIndexSized
    } else if lo > 0 && hi < SLOT_CAP && exists|out: Seq<u8>|
        #[trigger] per_len_fits(ks, out) && seed_found(ks, SearchMode::PerLength, 0, out) {
        HashKind::UniquePerLength
    } else if n <= MAX_SEARCHED_KEYS && seed_found(ks, SearchMode::Full, 0, no_per_len()) {
        HashKind::FullFlat
    } else {
        HashKind::Linear
    }
}

/// Two per-length column tables that both fit the keys are the same.
proof fn lemma_per_len_unique(ks: Seq<Seq<u8>>, a: Seq<u8>, b: Seq<u8>)
    requires
        per_len_fits(ks, a),
        per_len_fits(ks, b),
    ensures
        a == b,
{
    assert forall|l: int| 0 <= l < a.len() implies #[trigger] a[l] == b[l] by {
        if has_len(ks, l) {
            assert(a[l] < l && b[l] < l);
            if a[l] < b[l] {
                assert(!class_col_distinct(ks, l, a[l] as int));
            } else if b[l] < a[l] {
                assert(!class_col_distinct(ks, l, b[l] as int));
            }
        }
    }
    assert(a =~= b);
}

/// There is at most one first column joined with the length.
proof fn lemma_first_sized_unique(ks: Seq<Seq<u8>>, c: int, d: int)
    requires
        first_sized_col(ks, c),
        first_sized_col(ks, d),
    ensures
        c == d,
{
}

/// A seed the search returned means some attempt places every preimage.
proof fn lemma_seed_found(ks: Seq<Seq<u8>>, mode: SearchMode, uidx: int, per_len: Seq<u8>, seed: u64)
    requires
        exists|a: u64| #![trigger spec_seed_at(a)]
            a < SEED_ATTEMPTS && seed == spec_seed_at(a) && seed != 0 && places(
                preimages(ks, mode, uidx, per_len),
                seed,
                mode,
                (spec_slots_for(ks.len()) - 1) as u64,
            ),
    ensures
        seed_found(ks, mode, uidx, per_len),
{
    let a = choose|a: u64| #![trigger spec_seed_at(a)]
        a < SEED_ATTEMPTS && seed == spec_seed_at(a) && seed != 0 && places(
            preimages(ks, mode, uidx, per_len),
            seed,
            mode,
            (spec_slots_for(ks.len()) - 1) as u64,
        );
    reveal(attempt_fails);
    assert(!attempt_fails(preimages(ks, mode, uidx, per_len), a, mode, (spec_slots_for(ks.len()) - 1) as u64));
}

/// A map with no table to speak of.
fn bare_map(kind: HashKind, n: u32, min_len: u32, max_len: u32) -> (m: KeyMap)
    ensures
        m.kind == kind,
        m.n == n,
        m.seed == 0,
        m.unique_index == 0,
        m.min_len == min_len,
        m.max_len == max_len,
        m.mask == 0,
        m.table@ == Seq::new(SLOT_CAP as nat, |i: int| 0u8),
        m.per_len@ == Seq::new(SLOT_CAP as nat, |i: int| 0u8),
{
    let m = KeyMap {
        kind,
        n,
        seed: 0,
        unique_index: 0,
        min_len,
        max_len,
        mask: 0,
        table: vec![0u8; 256],
        per_len: vec![0u8; 256],
    };
    proof {
        assert(m.table@ =~= Seq::new(SLOT_CAP as nat, |i: int| 0u8));
        assert(m.per_len@ =~= Seq::new(SLOT_CAP as nat, |i: int| 0u8));
    }
    m
}

impl KeyMap {
    /// Build the map for a list of distinct keys, none of which holds a byte
    /// JSON would have to escape.
    ///
    /// The ladder, in order: no keys; one key; three or four keys whose first
    /// bytes land on their indices; a byte column that tells every key apart;
    /// the leading 2, 4 or 8 bytes hashed; a column joined with the length; a
    /// column chosen per length; the whole key hashed; and last, comparing
    /// key by key, which is always correct.
    pub fn build(keys: &[&str]) -> (m: KeyMap)
        requires
            keys@.len() <= u32::MAX,
            forall|i: int| 0 <= i < keys@.len() ==> #[trigger] key_seqs(keys@)[i].len() < u32::MAX,
            distinct_keys(key_seqs(keys@)),
            no_escapes(key_seqs(keys@)),
        ensures
            m.shape_ok(),
            m.n == keys@.len(),
            locates(m, key_seqs(keys@)),
            locates_sized(m, key_seqs(keys@)),
            scheme_holds(m, key_seqs(keys@)),
            keys@.len() == 0 <==> m.kind == HashKind::Empty,
            keys@.len() == 1 ==> m.kind == HashKind::SingleElement,
            keys@.len() > MAX_HASHED_KEYS ==> m.kind == HashKind::Linear,
            keys@.len() > 0 ==> has_len(key_seqs(keys@), m.min_len as int) && has_len(key_seqs(keys@), m.max_len as int)
                && lens_within(key_seqs(keys@), m.min_len as int, m.max_len as int),
            m.kind == chosen_kind(key_seqs(keys@), m.min_len as int, m.max_len as int),
            m.kind == HashKind::Mod4 || m.kind == HashKind::XorMod4 || m.kind == HashKind::MinusMod4 ==> m.seed
                == key_seqs(keys@)[0][0],
    {
        let ghost ks = key_seqs(keys@);
        let n = keys.len();
        if n == 0 {
            let m = bare_map(HashKind::Empty, 0, 0, 0);
            proof {
                lemma_locates(m, ks);
            }
            return m;
        }
        let min_len = min_key_len(keys);
        let max_len = max_key_len(keys);
        proof {
            let w = choose|i: int| 0 <= i < keys@.len() && #[trigger] ks[i].len() == max_len;
            assert(ks[w].len() < u32::MAX);
            let v = choose|i: int| 0 <= i < keys@.len() && #[trigger] ks[i].len() == min_len;
            assert(ks[v].len() < u32::MAX);
            assert(lens_within(ks, min_len as int, max_len as int));
            assert(has_len(ks, max_len as int));
            assert(has_len(ks, min_len as int));
        }
        if n > MAX_HASHED_KEYS {
            let m = bare_map(HashKind::Linear, n as u32, min_len as u32, max_len as u32);
            proof {
                lemma_locates(m, ks);
            }
            return m;
        }
        if n == 1 {
            let m = bare_map(HashKind::SingleElement, 1, min_len as u32, max_len as u32);
            proof {
                lemma_locates(m, ks);
            }
            return m;
        }
        let slots = slots_for(n);
        assert(slots == spec_slots_for(ks.len()));
        let mask = (slots - 1) as u32;
        proof {
            assert(mask as u64 == (slots - 1) as u64);
        }
        let empty_per_len: Vec<u8> = vec![0u8; 256];
        proof {
            assert(empty_per_len@ =~= no_per_len());
        }
        let ghost four = (n == 3 || n == 4) && min_len > 0;

        // Three or four keys whose first bytes land on their indices.
        if (n == 3 || n == 4) && min_len > 0 {
            match try_mod4(keys) {
                Some(kind) => {
                    proof {
                        assert(ks[0].len() >= 1);
                    }
                    let seed = keys[0].as_bytes()[0] as u64;
                    let m = KeyMap {
                        kind,
                        n: n as u32,
                        seed,
                        unique_index: 0,
                        min_len: min_len as u32,
                        max_len: max_len as u32,
                        mask,
                        table: vec![0u8; 256],
                        per_len: empty_per_len,
                    };
                    proof {
                        lemma_locates(m, ks);
                    }
                    return m;
                },
                None => {},
            }
        }

        assert(!(four && (mod4_fits(ks) || xor_mod4_fits(ks) || minus_mod4_fits(ks))));
        // A byte column that differs across every key.
        match find_unique_index(keys, min_len) {
            Some(uidx) => {
                if n == 2 {
                    proof {
                        assert(ks[0].len() >= min_len);
                    }
                    let seed = keys[0].as_bytes()[uidx] as u64;
                    let m = KeyMap {
                        kind: HashKind::UniqueIndexTwo,
                        n: 2,
                        seed,
                        unique_index: uidx as u32,
                        min_len: min_len as u32,
                        max_len: max_len as u32,
                        mask,
                        table: vec![0u8; 256],
                        per_len: empty_per_len,
                    };
                    proof {
                        lemma_locates(m, ks);
                    }
                    return m;
                }
                let mut table: Vec<u8> = vec![n as u8; 256];
                let mut i: usize = 0;
                while i < n
                    invariant
                        n == keys@.len(),
                        ks == key_seqs(keys@),
                        uidx < min_len,
                        all_at_least(ks, min_len as int),
                        col_distinct(ks, uidx as int),
                        n <= MAX_HASHED_KEYS,
                        i <= n,
                        table@.len() == SLOT_CAP,
                        forall|k: int| 0 <= k < i ==> table@[#[trigger] ks[k][uidx as int] as int] == k,
                    decreases n - i,
                {
                    proof {
                        assert(ks[i as int].len() >= min_len);
                    }
                    let c = keys[i].as_bytes()[uidx];
                    let ghost before = table@;
                    table.set(c as usize, i as u8);
                    proof {
                        assert forall|k: int| 0 <= k < i + 1 implies table@[#[trigger] ks[k][uidx as int] as int] == k by {
                            if k < i {
                                assert(ks[k][uidx as int] != ks[i as int][uidx as int]);
                                assert(before[ks[k][uidx as int] as int] == k);
                            }
                        }
                    }
                    i += 1;
                }
                let m = KeyMap {
                    kind: HashKind::UniqueIndex,
                    n: n as u32,
                    seed: 0,
                    unique_index: uidx as u32,
                    min_len: min_len as u32,
                    max_len: max_len as u32,
                    mask,
                    table,
                    per_len: empty_per_len,
                };
                proof {
                    lemma_locates(m, ks);
                }
                return m;
            },
            None => {},
        }

        assert(!exists|c: int| 0 <= c < min_len && #[trigger] col_distinct(ks, c));
        // The leading 2, 4 or 8 bytes, hashed.
        let mut width: usize = 2;
        while width <= 8
            invariant
                n == keys@.len(),
                ks == key_seqs(keys@),
                2 <= n <= MAX_HASHED_KEYS,
                1 <= slots <= SLOT_CAP,
                mask == (slots - 1) as u32,
                mask as u64 == (slots - 1) as u64,
                slots == spec_slots_for(ks.len()),
                has_len(ks, min_len as int),
                has_len(ks, max_len as int),
                min_len <= max_len,
                all_at_least(ks, min_len as int),
                lens_within(ks, min_len as int, max_len as int),
                max_len < u32::MAX,
                distinct_keys(ks),
                no_escapes(ks),
                empty_per_len@.len() == SLOT_CAP,
                width == 2 || width == 4 || width == 8 || width == 16,
                empty_per_len@ == no_per_len(),
                four == ((n == 3 || n == 4) && min_len > 0),
                !(four && (mod4_fits(ks) || xor_mod4_fits(ks) || minus_mod4_fits(ks))),
                !exists|c: int| 0 <= c < min_len && #[trigger] col_distinct(ks, c),
                width > 2 ==> !(min_len >= 2 && front_distinct(ks, 2) && seed_found(ks, SearchMode::Front2, 0, no_per_len())),
                width > 4 ==> !(min_len >= 4 && front_distinct(ks, 4) && seed_found(ks, SearchMode::Front4, 0, no_per_len())),
                width > 8 ==> !(min_len >= 8 && front_distinct(ks, 8) && seed_found(ks, SearchMode::Front8, 0, no_per_len())),
            decreases 16 - width,
        {
            let mode = if width == 2 {
                SearchMode::Front2
            } else if width == 4 {
                SearchMode::Front4
            } else {
                SearchMode::Front8
            };
            if min_len >= width && front_bytes_distinct(keys, width) {
                match search_seed(keys, slots, mode, 0, &empty_per_len) {
                    Some((seed, table)) => {
                        proof {
                            lemma_seed_found(ks, mode, 0, no_per_len(), seed);
                        }
                        let kind = if width == 2 {
                            HashKind::FrontHash2
                        } else if width == 4 {
                            HashKind::FrontHash4
                        } else {
                            HashKind::FrontHash8
                        };
                        let m = KeyMap {
                            kind,
                            n: n as u32,
                            seed,
                            unique_index: 0,
                            min_len: min_len as u32,
                            max_len: max_len as u32,
                            mask,
                            table,
                            per_len: empty_per_len,
                        };
                        proof {
                            lemma_locates(m, ks);
                        }
                        return m;
                    },
                    None => {},
                }
            }
            proof {
                assert(!(min_len >= width && front_distinct(ks, width as int) && seed_found(ks, mode, 0, no_per_len())));
            }
            width = width * 2;
        }

        // A byte column joined with the key length.
        let sized = find_sized_unique_index(keys);
        match sized {
            Some(uidx) => {
                match search_seed(keys, slots, SearchMode::Sized, uidx, &empty_per_len) {
                    Some((seed, table)) => {
                        proof {
                            lemma_seed_found(ks, SearchMode::Sized, uidx as int, no_per_len(), seed);
                            assert(first_sized_col(ks, uidx as int));
                        }
                        let m = KeyMap {
                            kind: HashKind::UniqueIndexSized,
                            n: n as u32,
                            seed,
                            unique_index: uidx as u32,
                            min_len: min_len as u32,
                            max_len: max_len as u32,
                            mask,
                            table,
                            per_len: empty_per_len,
                        };
                        proof {
                            let v = choose|i: int| 0 <= i < keys@.len() && #[trigger] ks[i].len() == min_len;
                            assert(ks[v].len() >= uidx + 1);
                            lemma_locates(m, ks);
                        }
                        return m;
                    },
                    None => {},
                }
            },
            None => {},
        }

        proof {
            assert forall|d: int| #[trigger] first_sized_col(ks, d) implies !seed_found(ks, SearchMode::Sized, d, no_per_len()) by {
                match sized {
                    Some(u) => {
                        lemma_first_sized_unique(ks, d, u as int);
                    },
                    None => {},
                }
            }
        }
        // A byte column chosen per key length.
        match unique_per_length(keys, min_len, max_len) {
            Some(per_len) => {
                proof {
                    assert forall|i: int| 0 <= i < ks.len() implies preimage_ok(#[trigger] ks[i], SearchMode::PerLength, 0, per_len@) by {
                        assert(has_len(ks, ks[i].len() as int));
                    }
                }
                match search_seed(keys, slots, SearchMode::PerLength, 0, &per_len) {
                    Some((seed, table)) => {
                        proof {
                            lemma_seed_found(ks, SearchMode::PerLength, 0, per_len@, seed);
                        }
                        let m = KeyMap {
                            kind: HashKind::UniquePerLength,
                            n: n as u32,
                            seed,
                            unique_index: 0,
                            min_len: min_len as u32,
                            max_len: max_len as u32,
                            mask,
                            table,
                            per_len,
                        };
                        proof {
                            lemma_locates(m, ks);
                        }
                        return m;
                    },
                    None => {
                        proof {
                            assert forall|out: Seq<u8>| #[trigger] per_len_fits(ks, out) implies !seed_found(
                                ks,
                                SearchMode::PerLength,
                                0,
                                out,
                            ) by {
                                lemma_per_len_unique(ks, out, per_len@);
                            }
                        }
                    },
                }
            },
            None => {
                proof {
                    if min_len > 0 && max_len < SLOT_CAP {
                        let l = choose|l: int| has_len(ks, l) && forall|c: int| 0 <= c < l ==> !class_col_distinct(ks, l, c);
                        let w = choose|i: int| 0 <= i < ks.len() && #[trigger] ks[i].len() == l;
                        assert(l <= max_len);
                        assert forall|out: Seq<u8>| !#[trigger] per_len_fits(ks, out) by {
                            if per_len_fits(ks, out) {
                                assert(out[l] < l);
                                assert(class_col_distinct(ks, l, out[l] as int));
                            }
                        }
                    }
                }
            },
        }

        // The whole key, hashed.
        if n <= MAX_SEARCHED_KEYS {
            match search_seed(keys, slots, SearchMode::Full, 0, &empty_per_len) {
                Some((seed, table)) => {
                    proof {
                        lemma_seed_found(ks, SearchMode::Full, 0, no_per_len(), seed);
                    }
                    let m = KeyMap {
                        kind: HashKind::FullFlat,
                        n: n as u32,
                        seed,
                        unique_index: 0,
                        min_len: min_len as u32,
                        max_len: max_len as u32,
                        mask,
                        table,
                        per_len: empty_per_len,
                    };
                    proof {
                        lemma_locates(m, ks);
                    }
                    return m;
                },
                None => {},
            }
        }

        // Give up on hashing.
        let m = KeyMap {
            kind: HashKind::Linear,
            n: n as u32,
            seed: 0,
            unique_index: 0,
            min_len: min_len as u32,
            max_len: max_len as u32,
            mask,
            table: vec![0u8; 256],
            per_len: empty_per_len,
        };
        proof {
            lemma_locates(m, ks);
        }
        m
    }
}

} // verus!

//! UTF-8 facts the reader and the writer lean on, and the one conversion from
//! checked bytes to a `String`.
use vstd::prelude::*;
use vstd::utf8::*;
use vstd::string::StringSliceAdditionalSpecFns;

verus! {

/// `p` is where a character begins, or the end.
pub open spec fn at_boundary(s: Seq<u8>, p: int) -> bool {
    p == s.len() || (0 <= p < s.len() && !is_continuation_byte(s[p]))
}

/// Every byte is ASCII.
pub open spec fn all_ascii(s: Seq<u8>) -> bool {
    forall|k: int| 0 <= k < s.len() ==> #[trigger] s[k] < 0x80
}

pub proof fn lemma_ascii_valid(s: Seq<u8>)
    requires
        all_ascii(s),
    ensures
        valid_utf8(s),
    decreases s.len(),
{
    if s.len() > 0 {
        assert(s[0] < 0x80);
        assert(is_leading_byte_width_1(s[0]));
        assert(valid_first_scalar(s));
        let t = pop_first_scalar(s);
        assert(t =~= s.subrange(1, s.len() as int));
        assert forall|k: int| 0 <= k < t.len() implies #[trigger] t[k] < 0x80 by {
            assert(t[k] == s[k + 1]);
        }
        lemma_ascii_valid(t);
    }
}

pub proof fn lemma_empty_valid()
    ensures
        valid_utf8(Seq::<u8>::empty()),
{
}

pub proof fn lemma_ascii_byte_valid(b: u8)
    requires
        b < 0x80,
    ensures
        valid_utf8(seq![b]),
{
    let s = seq![b];
    assert(s[0] == b);
    lemma_ascii_valid(s);
}

pub proof fn lemma_concat_valid(a: Seq<u8>, b: Seq<u8>)
    requires
        valid_utf8(a),
        valid_utf8(b),
    ensures
        valid_utf8(a + b),
{
    valid_utf8_concat(a, b);
}

proof fn lemma_boundary(s: Seq<u8>, p: int)
    requires
        valid_utf8(s),
        0 <= p <= s.len(),
        at_boundary(s, p),
    ensures
        is_char_boundary(s, p),
{
    if p == s.len() {
        is_char_boundary_start_end_of_seq(s);
    } else {
        is_char_boundary_iff_not_is_continuation_byte(s, p);
    }
}

/// Appending valid UTF-8 to valid UTF-8 gives valid UTF-8.
pub proof fn lemma_extend_valid(before: Seq<u8>, piece: Seq<u8>, after: Seq<u8>)
    requires
        valid_utf8(before),
        valid_utf8(piece),
        after == before + piece,
    ensures
        valid_utf8(after),
{
    valid_utf8_concat(before, piece);
}

/// The run `s[a..b]` of valid UTF-8 `s`, cut at two character boundaries,
/// appended to valid `before`, gives valid `after`.
pub proof fn lemma_extend_slice_valid(s: Seq<u8>, a: int, b: int, before: Seq<u8>, after: Seq<u8>)
    requires
        valid_utf8(s),
        0 <= a <= b <= s.len(),
        at_boundary(s, a),
        at_boundary(s, b),
        valid_utf8(before),
        after == before + s.subrange(a, b),
    ensures
        valid_utf8(after),
{
    lemma_slice_valid(s, a, b);
    valid_utf8_concat(before, s.subrange(a, b));
}

/// A run cut out of valid UTF-8 at two character boundaries is valid UTF-8.
pub proof fn lemma_slice_valid(s: Seq<u8>, a: int, b: int)
    requires
        valid_utf8(s),
        0 <= a <= b <= s.len(),
        at_boundary(s, a),
        at_boundary(s, b),
    ensures
        valid_utf8(s.subrange(a, b)),
{
    lemma_boundary(s, a);
    valid_utf8_split(s, a);
    let t = s.subrange(a, s.len() as int);
    let p = b - a;
    if b < s.len() {
        assert(t[p] == s[b]);
    }
    assert(at_boundary(t, p));
    lemma_boundary(t, p);
    valid_utf8_split(t, p);
    assert(t.subrange(0, p) =~= s.subrange(a, b));
}

/// The byte after an ASCII byte begins a character.
pub proof fn lemma_after_ascii(s: Seq<u8>, p: int)
    requires
        valid_utf8(s),
        0 <= p < s.len(),
        s[p] < 0x80,
    ensures
        at_boundary(s, p + 1),
{
    if p + 1 < s.len() {
        is_char_boundary_iff_not_is_continuation_byte(s, p);
        assert(is_char_boundary(s, p));
        valid_utf8_split(s, p);
        let t = s.subrange(p, s.len() as int);
        assert(t[0] == s[p]);
        assert(is_leading_byte_width_1(t[0]));
        assert(valid_first_scalar(t));
        let u = pop_first_scalar(t);
        assert(u =~= s.subrange(p + 1, s.len() as int));
        assert(valid_utf8(u));
        assert(u.len() > 0);
        assert(valid_first_scalar(u));
        assert(u[0] == s[p + 1]);
    }
}

/// The bytes of a string slice are valid UTF-8.
pub proof fn lemma_str_valid(s: &str)
    ensures
        valid_utf8(s.spec_bytes()),
{
    encode_utf8_valid_utf8(s@);
}

/// `String::from_utf8`: accepts exactly the byte sequences that are valid
/// UTF-8, and the `String` it returns holds the characters they encode.
#[verifier::external_body]
fn string_from_utf8(bytes: Vec<u8>) -> (r: Option<String>)
    ensures
        match r {
            Some(s) => valid_utf8(bytes@) && s@ == decode_utf8(bytes@),
            None => !valid_utf8(bytes@),
        },
{
    match String::from_utf8(bytes) {
        Ok(s) => Some(s),
        Err(_) => None,
    }
}

/// Turn bytes known to be valid UTF-8 into a `String` holding them.
pub fn bytes_into_string(bytes: Vec<u8>) -> (s: String)
    requires
        valid_utf8(bytes@),
    ensures
        encode_utf8(s@) == bytes@,
{
    let ghost b = bytes@;
    match string_from_utf8(bytes) {
        Some(s) => {
            proof {
                decode_utf8_encode_utf8(b);
            }
            s
        },
        None => {
            proof {
                assert(false);
            }
            String::new()
        },
    }
}

/// A first scalar found at the front of some bytes is found at the front
/// of any bytes that begin with them.
proof fn lemma_first_scalar_prefix(x: Seq<u8>, y: Seq<u8>)
    requires
        x.len() <= y.len(),
        forall|k: int| 0 <= k < x.len() ==> #[trigger] y[k] == x[k],
        valid_first_scalar(x),
    ensures
        valid_first_scalar(y),
{
    if x.len() >= 1 {
        assert(y[0] == x[0]);
    }
    if x.len() >= 2 {
        assert(y[1] == x[1]);
    }
    if x.len() >= 3 {
        assert(y[2] == x[2]);
    }
    if x.len() >= 4 {
        assert(y[3] == x[3]);
    }
}

/// The length of the scalar that begins `bytes` at `i`, `None` where no
/// well-formed one does.
fn first_scalar_len(bytes: &[u8], i: usize) -> (r: Option<usize>)
    requires
        i < bytes@.len(),
    ensures
        ({
            let x = bytes@.subrange(i as int, bytes@.len() as int);
            match r {
                Some(n) => valid_first_scalar(x) && n == length_of_first_scalar(x),
                None => !valid_first_scalar(x),
            }
        }),
{
    let ghost x = bytes@.subrange(i as int, bytes@.len() as int);
    let n = bytes.len();
    let b0 = bytes[i];
    if b0 <= 0x7f {
        proof {
            assert(((b0 & 0x7f) as u32) <= 0x7f) by (bit_vector);
        }
        return Some(1);
    }
    if 0xc0 <= b0 && b0 <= 0xdf {
        if n - i < 2 {
            return None;
        }
        let b1 = bytes[i + 1];
        if !(0x80 <= b1 && b1 <= 0xbf) {
            return None;
        }
        let cp: u32 = (((b0 & 0x1f) as u32) << 6) | ((b1 & 0x3f) as u32);
        proof {
            assert(x[1] == b1);
            assert(cp <= 0x7ff) by (bit_vector)
                requires
                    cp == (((b0 & 0x1f) as u32) << 6) | ((b1 & 0x3f) as u32),
            ;
        }
        if cp < 0x80 {
            return None;
        }
        return Some(2);
    }
    if 0xe0 <= b0 && b0 <= 0xef {
        if n - i < 3 {
            return None;
        }
        let b1 = bytes[i + 1];
        let b2 = bytes[i + 2];
        if !(0x80 <= b1 && b1 <= 0xbf) || !(0x80 <= b2 && b2 <= 0xbf) {
            return None;
        }
        let cp: u32 = (((b0 & 0x0f) as u32) << 12) | (((b1 & 0x3f) as u32) << 6) | ((b2 & 0x3f) as u32);
        proof {
            assert(x[1] == b1 && x[2] == b2);
        }
        if cp < 0x800 || (0xd800 <= cp && cp <= 0xdfff) {
            return None;
        }
        return Some(3);
    }
    if 0xf0 <= b0 && b0 <= 0xf7 {
        if n - i < 4 {
            return None;
        }
        let b1 = bytes[i + 1];
        let b2 = bytes[i + 2];
        let b3 = bytes[i + 3];
        if !(0x80 <= b1 && b1 <= 0xbf) || !(0x80 <= b2 && b2 <= 0xbf) || !(0x80 <= b3 && b3 <= 0xbf) {
            return None;
        }
        let cp: u32 = (((b0 & 0x07) as u32) << 18) | (((b1 & 0x3f) as u32) << 12) | (((b2 & 0x3f) as u32) << 6)
            | ((b3 & 0x3f) as u32);
        proof {
            assert(x[1] == b1 && x[2] == b2 && x[3] == b3);
        }
        if cp < 0x10000 || cp > 0x10ffff {
            return None;
        }
        return Some(4);
    }
    None
}

/// The length of the longest prefix of `bytes` that is valid UTF-8.
pub fn valid_prefix_len(bytes: &[u8]) -> (k: usize)
    ensures
        k <= bytes@.len(),
        valid_utf8(bytes@.subrange(0, k as int)),
        forall|j: int| k < j <= bytes@.len() ==> !valid_utf8(#[trigger] bytes@.subrange(0, j)),
{
    let n = bytes.len();
    let mut i: usize = 0;
    proof {
        assert(bytes@.subrange(0, 0) =~= Seq::<u8>::empty());
    }
    while i < n
        invariant
            i <= n,
            n == bytes@.len(),
            valid_utf8(bytes@.subrange(0, i as int)),
        decreases n - i,
    {
        match first_scalar_len(bytes, i) {
            Some(w) => {
                proof {
                    partial_valid_utf8_extend(bytes@, i as int);
                }
                i = i + w;
            },
            None => {
                proof {
                    let s = bytes@;
                    assert forall|j: int| i < j <= s.len() implies !valid_utf8(#[trigger] s.subrange(0, j)) by {
                        let p = s.subrange(0, j);
                        assert(p.subrange(0, i as int) =~= s.subrange(0, i as int));
                        let tail = p.subrange(i as int, p.len() as int);
                        if valid_utf8(tail) {
                            assert(tail.len() > 0);
                            assert(valid_first_scalar(tail));
                            lemma_first_scalar_prefix(tail, s.subrange(i as int, s.len() as int));
                        }
                        partial_valid_partial_invalid_utf8(p, i as int);
                    }
                }
                return i;
            },
        }
    }
    i
}

/// `core::str::from_utf8`: succeeds on exactly the byte sequences that are
/// valid UTF-8, borrowing them as a string slice of the same bytes.
#[verifier::external_body]
fn utf8_str<'a>(bytes: &'a [u8]) -> (r: Option<&'a str>)
    ensures
        match r {
            Some(s) => valid_utf8(bytes@) && s.spec_bytes() == bytes@,
            None => !valid_utf8(bytes@),
        },
{
    match core::str::from_utf8(bytes) {
        Ok(s) => Some(s),
        Err(_) => None,
    }
}

/// Borrow bytes as a string slice, or say how long their longest valid
/// prefix is.
pub fn str_from_utf8<'a>(bytes: &'a [u8]) -> (r: Result<&'a str, usize>)
    ensures
        match r {
            Ok(s) => valid_utf8(bytes@) && s.spec_bytes() == bytes@,
            Err(k) => !valid_utf8(bytes@) && k <= bytes@.len() && valid_utf8(bytes@.subrange(0, k as int))
                && forall|j: int| k < j <= bytes@.len() ==> !valid_utf8(#[trigger] bytes@.subrange(0, j)),
        },
{
    match utf8_str(bytes) {
        Some(s) => Ok(s),
        None => Err(valid_prefix_len(bytes)),
    }
}

} // verus!

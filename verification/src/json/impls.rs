//! [`Read`] and [`Write`] for the standard library's types, and the
//! adapters and key conversions that mirror them.
//!
//! Reading is always into an existing value. A `Vec` reads over the
//! elements it already holds before growing, so the storage it holds is
//! reused.
use vstd::prelude::*;
use vstd::string::StringSliceAdditionalSpecFns;
use vstd::pervasive::VecAdditionalExecFns;
use crate::error::ErrorCode;
use crate::json::compose::{container_text, item_text, seq_body, seq_body_as, ToJsonKey};
use crate::json::parser::{
    lemma_string_body_progress, spec_read_bool, spec_read_i128, spec_read_i64, spec_read_str,
    spec_read_string, spec_read_u128, spec_read_u64, spec_try_null, string_body, Parser,
};
use crate::json::traits::{
    read_step, write_step, Elements, Read, ReadArray, ReadAs, ReadKeyAs, ReadSeq, Same, Write,
    WriteArray, WriteAs, WriteKeyAs,
};
use crate::json::writer::{bool_text, inner_level, null_text, quoted, signed_text, Writer};
use crate::num::atoi::{digit_end, lemma_digit_end, spec_parse_i64, spec_parse_u64};
use crate::num::itoa::{decimal_digits, lemma_i64_reads_back, lemma_u64_reads_back};
use crate::options::{Options, Settings};

verus! {

// ---------------------------------------------------------------------------
// Where a read leaves the cursor
// ---------------------------------------------------------------------------

pub proof fn lemma_read_u64_progress(s: Seq<u8>, i: int)
    requires
        0 <= i <= s.len(),
        s.len() <= usize::MAX,
    ensures
        i <= spec_read_u64(s, i).1 <= s.len(),
{
    lemma_digit_end(s, i);
}

pub proof fn lemma_read_i64_progress(s: Seq<u8>, i: int)
    requires
        0 <= i <= s.len(),
        s.len() <= usize::MAX,
    ensures
        i <= spec_read_i64(s, i).1 <= s.len(),
{
    let neg = i < s.len() && s[i] == 0x2d;
    let at = if neg { i + 1 } else { i };
    lemma_digit_end(s, at);
}

pub proof fn lemma_read_u128_progress(s: Seq<u8>, i: int)
    requires
        0 <= i <= s.len(),
    ensures
        i <= spec_read_u128(s, i).1 <= s.len(),
{
    lemma_digit_end(s, i);
}

pub proof fn lemma_read_string_progress(s: Seq<u8>, i: int)
    requires
        0 <= i <= s.len(),
    ensures
        i <= spec_read_string(s, i).1 <= s.len(),
{
    if i < s.len() && s[i] == 0x22 {
        lemma_string_body_progress(s, i + 1);
    }
}

// ---------------------------------------------------------------------------
// Object keys
// ---------------------------------------------------------------------------

/// A type usable as a JSON object key, parsed back out of the key's text.
pub trait FromJsonKey: Sized {
    fn from_key(key: &str) -> Result<Self, ErrorCode>;
}

impl FromJsonKey for String {
    fn from_key(key: &str) -> (r: Result<String, ErrorCode>)
        ensures
            r matches Ok(k) && k@ == key@,
    {
        Ok(key.to_string())
    }
}

/// The value of a key spelled as an optional `+` and then decimal digits,
/// if it fits in a `u64`.
pub open spec fn spec_key_u64(b: Seq<u8>) -> Option<u64> {
    let at: int = if b.len() > 0 && b[0] == 0x2b { 1 } else { 0 };
    if at < b.len() && crate::num::atoi::all_digits(b.subrange(at, b.len() as int))
        && crate::num::atoi::decimal_value(b.subrange(at, b.len() as int)) <= u64::MAX {
        Some(crate::num::atoi::decimal_value(b.subrange(at, b.len() as int)) as u64)
    } else {
        None
    }
}

/// The value of a run of decimal digits, if it fits in a `u64`.
fn digits_value(b: &[u8], at: usize) -> (r: Option<u64>)
    requires
        at <= b@.len(),
    ensures
        r == (if at < b@.len() && crate::num::atoi::all_digits(b@.subrange(at as int, b@.len() as int))
            && crate::num::atoi::decimal_value(b@.subrange(at as int, b@.len() as int)) <= u64::MAX {
            Some(crate::num::atoi::decimal_value(b@.subrange(at as int, b@.len() as int)) as u64)
        } else {
            None::<u64>
        }),
{
    let n = b.len();
    if at >= n {
        return None;
    }
    let mut v: u64 = 0;
    let mut i = at;
    while i < n
        invariant
            at <= i <= n,
            n == b@.len(),
            crate::num::atoi::all_digits(b@.subrange(at as int, i as int)),
            v == crate::num::atoi::decimal_value(b@.subrange(at as int, i as int)),
        decreases n - i,
    {
        let c = b[i];
        if !crate::num::atoi::is_digit(c) {
            proof {
                assert(b@.subrange(at as int, n as int)[i - at] == c);
            }
            return None;
        }
        proof {
            crate::num::atoi::lemma_decimal_push(b@, at as int, i as int);
            assert(b@.subrange(at as int, i + 1).drop_last() =~= b@.subrange(at as int, i as int));
        }
        let d = (c - 0x30u8) as u64;
        match v.checked_mul(10) {
            Some(t) => match t.checked_add(d) {
                Some(u) => {
                    v = u;
                },
                None => {
                    proof {
                        crate::num::atoi::lemma_decimal_prefix_le(b@.subrange(at as int, n as int), i + 1 - at);
                        assert(b@.subrange(at as int, n as int).subrange(0, i + 1 - at) =~= b@.subrange(at as int, i + 1));
                    }
                    return None;
                },
            },
            None => {
                proof {
                    crate::num::atoi::lemma_decimal_prefix_le(b@.subrange(at as int, n as int), i + 1 - at);
                    assert(b@.subrange(at as int, n as int).subrange(0, i + 1 - at) =~= b@.subrange(at as int, i + 1));
                }
                return None;
            },
        }
        i += 1;
        proof {
            assert forall|k: int| 0 <= k < b@.subrange(at as int, i as int).len()
                implies crate::num::atoi::is_digit_byte(#[trigger] b@.subrange(at as int, i as int)[k]) by {
                if k < i - 1 - at {
                    assert(b@.subrange(at as int, i as int)[k] == b@.subrange(at as int, i - 1)[k]);
                }
            }
        }
    }
    Some(v)
}

impl FromJsonKey for u64 {
    fn from_key(key: &str) -> (r: Result<u64, ErrorCode>)
        ensures
            r == (match spec_key_u64(key.spec_bytes()) {
                Some(v) => Ok::<u64, ErrorCode>(v),
                None => Err(ErrorCode::InvalidNumber),
            }),
    {
        let b = key.as_bytes();
        let at: usize = if b.len() > 0 && b[0] == 0x2bu8 { 1 } else { 0 };
        match digits_value(b, at) {
            Some(v) => Ok(v),
            None => Err(ErrorCode::InvalidNumber),
        }
    }
}

impl ToJsonKey for String {
    open spec fn spec_key(&self) -> Seq<u8> {
        quoted(vstd::utf8::encode_utf8(self@))
    }

    fn write_key<O: Options>(&self, w: &mut Writer<O>) {
        w.write_str(self.as_str());
    }
}

impl<'a> ToJsonKey for &'a str {
    open spec fn spec_key(&self) -> Seq<u8> {
        quoted(self.spec_bytes())
    }

    fn write_key<O: Options>(&self, w: &mut Writer<O>) {
        w.write_str(*self);
    }
}

impl ToJsonKey for u64 {
    open spec fn spec_key(&self) -> Seq<u8> {
        seq![0x22u8] + decimal_digits(*self as nat) + seq![0x22u8]
    }

    fn write_key<O: Options>(&self, w: &mut Writer<O>) {
        w.push(0x22u8);
        w.write_u64(*self);
        w.push(0x22u8);
        proof {
            assert((old(w).bytes().push(0x22u8) + decimal_digits(*self as nat)).push(0x22u8)
                =~= old(w).bytes() + (seq![0x22u8] + decimal_digits(*self as nat) + seq![0x22u8]));
        }
    }
}

impl ToJsonKey for i64 {
    open spec fn spec_key(&self) -> Seq<u8> {
        seq![0x22u8] + signed_text(*self as int) + seq![0x22u8]
    }

    fn write_key<O: Options>(&self, w: &mut Writer<O>) {
        w.push(0x22u8);
        w.write_i64(*self);
        w.push(0x22u8);
        proof {
            assert((old(w).bytes().push(0x22u8) + signed_text(*self as int)).push(0x22u8)
                =~= old(w).bytes() + (seq![0x22u8] + signed_text(*self as int) + seq![0x22u8]));
        }
    }
}

// ---------------------------------------------------------------------------
// Integers
// ---------------------------------------------------------------------------

impl<'de> Read<'de> for u8 {
    open spec fn spec_read(input: Seq<u8>, at: int) -> Option<(Result<Self, ErrorCode>, int)> {
        let (res, end) = spec_read_u64(input, at);
        Some((match res {
            Ok(v) => if v <= 0xffu64 {
                Ok(v as u8)
            } else {
                Err(ErrorCode::NumberOutOfRange)
            },
            Err(e) => Err(e),
        }, end))
    }

    fn read<O: Options>(&mut self, p: &mut Parser<'de, O>) -> (r: Result<(), ErrorCode>)
        ensures
            final(p).pos() == spec_read_u64(old(p).input(), old(p).pos()).1,
            match spec_read_u64(old(p).input(), old(p).pos()).0 {
                Ok(v) => if v <= 0xffu64 {
                    r is Ok && *final(self) == v as u8
                } else {
                    r == Err::<(), ErrorCode>(ErrorCode::NumberOutOfRange) && *final(self) == *old(self)
                },
                Err(e) => r == Err::<(), ErrorCode>(e) && *final(self) == *old(self),
            },
    {
        proof {
            old(p).lemma_wf();
            lemma_read_u64_progress(old(p).input(), old(p).pos());
        }
        match p.read_u64() {
            Ok(v) => {
                if v <= 0xffu64 {
                    *self = v as u8;
                    Ok(())
                } else {
                    Err(ErrorCode::NumberOutOfRange)
                }
            },
            Err(e) => Err(e),
        }
    }
}

impl Write for u8 {
    open spec fn spec_json(&self, s: Settings, level: nat) -> Seq<u8> {
        decimal_digits(*self as nat)
    }

    open spec fn spec_is_null(&self) -> bool {
        false
    }

    fn write<O: Options>(&self, w: &mut Writer<O>) {
        w.write_u64(*self as u64);
    }

    fn is_null(&self) -> (r: bool) {
        false
    }
}

impl<'de> Read<'de> for u16 {
    open spec fn spec_read(input: Seq<u8>, at: int) -> Option<(Result<Self, ErrorCode>, int)> {
        let (res, end) = spec_read_u64(input, at);
        Some((match res {
            Ok(v) => if v <= 0xffffu64 {
                Ok(v as u16)
            } else {
                Err(ErrorCode::NumberOutOfRange)
            },
            Err(e) => Err(e),
        }, end))
    }

    fn read<O: Options>(&mut self, p: &mut Parser<'de, O>) -> (r: Result<(), ErrorCode>)
        ensures
            final(p).pos() == spec_read_u64(old(p).input(), old(p).pos()).1,
            match spec_read_u64(old(p).input(), old(p).pos()).0 {
                Ok(v) => if v <= 0xffffu64 {
                    r is Ok && *final(self) == v as u16
                } else {
                    r == Err::<(), ErrorCode>(ErrorCode::NumberOutOfRange) && *final(self) == *old(self)
                },
                Err(e) => r == Err::<(), ErrorCode>(e) && *final(self) == *old(self),
            },
    {
        proof {
            old(p).lemma_wf();
            lemma_read_u64_progress(old(p).input(), old(p).pos());
        }
        match p.read_u64() {
            Ok(v) => {
                if v <= 0xffffu64 {
                    *self = v as u16;
                    Ok(())
                } else {
                    Err(ErrorCode::NumberOutOfRange)
                }
            },
            Err(e) => Err(e),
        }
    }
}

impl Write for u16 {
    open spec fn spec_json(&self, s: Settings, level: nat) -> Seq<u8> {
        decimal_digits(*self as nat)
    }

    open spec fn spec_is_null(&self) -> bool {
        false
    }

    fn write<O: Options>(&self, w: &mut Writer<O>) {
        w.write_u64(*self as u64);
    }

    fn is_null(&self) -> (r: bool) {
        false
    }
}

impl<'de> Read<'de> for u32 {
    open spec fn spec_read(input: Seq<u8>, at: int) -> Option<(Result<Self, ErrorCode>, int)> {
        let (res, end) = spec_read_u64(input, at);
        Some((match res {
            Ok(v) => if v <= 0xffff_ffffu64 {
                Ok(v as u32)
            } else {
                Err(ErrorCode::NumberOutOfRange)
            },
            Err(e) => Err(e),
        }, end))
    }

    fn read<O: Options>(&mut self, p: &mut Parser<'de, O>) -> (r: Result<(), ErrorCode>)
        ensures
            final(p).pos() == spec_read_u64(old(p).input(), old(p).pos()).1,
            match spec_read_u64(old(p).input(), old(p).pos()).0 {
                Ok(v) => if v <= 0xffff_ffffu64 {
                    r is Ok && *final(self) == v as u32
                } else {
                    r == Err::<(), ErrorCode>(ErrorCode::NumberOutOfRange) && *final(self) == *old(self)
                },
                Err(e) => r == Err::<(), ErrorCode>(e) && *final(self) == *old(self),
            },
    {
        proof {
            old(p).lemma_wf();
            lemma_read_u64_progress(old(p).input(), old(p).pos());
        }
        match p.read_u64() {
            Ok(v) => {
                if v <= 0xffff_ffffu64 {
                    *self = v as u32;
                    Ok(())
                } else {
                    Err(ErrorCode::NumberOutOfRange)
                }
            },
            Err(e) => Err(e),
        }
    }
}

impl Write for u32 {
    open spec fn spec_json(&self, s: Settings, level: nat) -> Seq<u8> {
        decimal_digits(*self as nat)
    }

    open spec fn spec_is_null(&self) -> bool {
        false
    }

    fn write<O: Options>(&self, w: &mut Writer<O>) {
        w.write_u64(*self as u64);
    }

    fn is_null(&self) -> (r: bool) {
        false
    }
}

impl<'de> Read<'de> for u64 {
    open spec fn spec_read(input: Seq<u8>, at: int) -> Option<(Result<Self, ErrorCode>, int)> {
        let (res, end) = spec_read_u64(input, at);
        Some((match res {
            Ok(v) => Ok(v),
            Err(e) => Err(e),
        }, end))
    }

    fn read<O: Options>(&mut self, p: &mut Parser<'de, O>) -> (r: Result<(), ErrorCode>)
        ensures
            final(p).pos() == spec_read_u64(old(p).input(), old(p).pos()).1,
            match spec_read_u64(old(p).input(), old(p).pos()).0 {
                Ok(v) => r is Ok && *final(self) == v,
                Err(e) => r == Err::<(), ErrorCode>(e) && *final(self) == *old(self),
            },
    {
        proof {
            old(p).lemma_wf();
            lemma_read_u64_progress(old(p).input(), old(p).pos());
        }
        match p.read_u64() {
            Ok(v) => {
                *self = v;
                Ok(())
            },
            Err(e) => Err(e),
        }
    }
}

impl Write for u64 {
    open spec fn spec_json(&self, s: Settings, level: nat) -> Seq<u8> {
        decimal_digits(*self as nat)
    }

    open spec fn spec_is_null(&self) -> bool {
        false
    }

    fn write<O: Options>(&self, w: &mut Writer<O>) {
        w.write_u64(*self as u64);
    }

    fn is_null(&self) -> (r: bool) {
        false
    }
}

impl<'de> Read<'de> for usize {
    open spec fn spec_read(input: Seq<u8>, at: int) -> Option<(Result<Self, ErrorCode>, int)> {
        let (res, end) = spec_read_u64(input, at);
        Some((match res {
            Ok(v) => if v <= usize::MAX {
                Ok(v as usize)
            } else {
                Err(ErrorCode::NumberOutOfRange)
            },
            Err(e) => Err(e),
        }, end))
    }

    fn read<O: Options>(&mut self, p: &mut Parser<'de, O>) -> (r: Result<(), ErrorCode>)
        ensures
            final(p).pos() == spec_read_u64(old(p).input(), old(p).pos()).1,
            match spec_read_u64(old(p).input(), old(p).pos()).0 {
                Ok(v) => if v <= usize::MAX {
                    r is Ok && *final(self) == v as usize
                } else {
                    r == Err::<(), ErrorCode>(ErrorCode::NumberOutOfRange) && *final(self) == *old(self)
                },
                Err(e) => r == Err::<(), ErrorCode>(e) && *final(self) == *old(self),
            },
    {
        proof {
            old(p).lemma_wf();
            lemma_read_u64_progress(old(p).input(), old(p).pos());
        }
        match p.read_u64() {
            Ok(v) => {
                if v <= usize::MAX as u64 {
                    *self = v as usize;
                    Ok(())
                } else {
                    Err(ErrorCode::NumberOutOfRange)
                }
            },
            Err(e) => Err(e),
        }
    }
}

impl Write for usize {
    open spec fn spec_json(&self, s: Settings, level: nat) -> Seq<u8> {
        decimal_digits(*self as nat)
    }

    open spec fn spec_is_null(&self) -> bool {
        false
    }

    fn write<O: Options>(&self, w: &mut Writer<O>) {
        w.write_u64(*self as u64);
    }

    fn is_null(&self) -> (r: bool) {
        false
    }
}

impl<'de> Read<'de> for i8 {
    open spec fn spec_read(input: Seq<u8>, at: int) -> Option<(Result<Self, ErrorCode>, int)> {
        let (res, end) = spec_read_i64(input, at);
        Some((match res {
            Ok(v) => if -0x80i64 <= v <= 0x7fi64 {
                Ok(v as i8)
            } else {
                Err(ErrorCode::NumberOutOfRange)
            },
            Err(e) => Err(e),
        }, end))
    }

    fn read<O: Options>(&mut self, p: &mut Parser<'de, O>) -> (r: Result<(), ErrorCode>)
        ensures
            final(p).pos() == spec_read_i64(old(p).input(), old(p).pos()).1,
            match spec_read_i64(old(p).input(), old(p).pos()).0 {
                Ok(v) => if -0x80i64 <= v <= 0x7fi64 {
                    r is Ok && *final(self) == v as i8
                } else {
                    r == Err::<(), ErrorCode>(ErrorCode::NumberOutOfRange) && *final(self) == *old(self)
                },
                Err(e) => r == Err::<(), ErrorCode>(e) && *final(self) == *old(self),
            },
    {
        proof {
            old(p).lemma_wf();
            lemma_read_i64_progress(old(p).input(), old(p).pos());
        }
        match p.read_i64() {
            Ok(v) => {
                if -0x80i64 <= v && v <= 0x7fi64 {
                    *self = v as i8;
                    Ok(())
                } else {
                    Err(ErrorCode::NumberOutOfRange)
                }
            },
            Err(e) => Err(e),
        }
    }
}

impl Write for i8 {
    open spec fn spec_json(&self, s: Settings, level: nat) -> Seq<u8> {
        signed_text(*self as int)
    }

    open spec fn spec_is_null(&self) -> bool {
        false
    }

    fn write<O: Options>(&self, w: &mut Writer<O>) {
        w.write_i64(*self as i64);
    }

    fn is_null(&self) -> (r: bool) {
        false
    }
}

impl<'de> Read<'de> for i16 {
    open spec fn spec_read(input: Seq<u8>, at: int) -> Option<(Result<Self, ErrorCode>, int)> {
        let (res, end) = spec_read_i64(input, at);
        Some((match res {
            Ok(v) => if -0x8000i64 <= v <= 0x7fffi64 {
                Ok(v as i16)
            } else {
                Err(ErrorCode::NumberOutOfRange)
            },
            Err(e) => Err(e),
        }, end))
    }

    fn read<O: Options>(&mut self, p: &mut Parser<'de, O>) -> (r: Result<(), ErrorCode>)
        ensures
            final(p).pos() == spec_read_i64(old(p).input(), old(p).pos()).1,
            match spec_read_i64(old(p).input(), old(p).pos()).0 {
                Ok(v) => if -0x8000i64 <= v <= 0x7fffi64 {
                    r is Ok && *final(self) == v as i16
                } else {
                    r == Err::<(), ErrorCode>(ErrorCode::NumberOutOfRange) && *final(self) == *old(self)
                },
                Err(e) => r == Err::<(), ErrorCode>(e) && *final(self) == *old(self),
            },
    {
        proof {
            old(p).lemma_wf();
            lemma_read_i64_progress(old(p).input(), old(p).pos());
        }
        match p.read_i64() {
            Ok(v) => {
                if -0x8000i64 <= v && v <= 0x7fffi64 {
                    *self = v as i16;
                    Ok(())
                } else {
                    Err(ErrorCode::NumberOutOfRange)
                }
            },
            Err(e) => Err(e),
        }
    }
}

impl Write for i16 {
    open spec fn spec_json(&self, s: Settings, level: nat) -> Seq<u8> {
        signed_text(*self as int)
    }

    open spec fn spec_is_null(&self) -> bool {
        false
    }

    fn write<O: Options>(&self, w: &mut Writer<O>) {
        w.write_i64(*self as i64);
    }

    fn is_null(&self) -> (r: bool) {
        false
    }
}

impl<'de> Read<'de> for i32 {
    open spec fn spec_read(input: Seq<u8>, at: int) -> Option<(Result<Self, ErrorCode>, int)> {
        let (res, end) = spec_read_i64(input, at);
        Some((match res {
            Ok(v) => if -0x8000_0000i64 <= v <= 0x7fff_ffffi64 {
                Ok(v as i32)
            } else {
                Err(ErrorCode::NumberOutOfRange)
            },
            Err(e) => Err(e),
        }, end))
    }

    fn read<O: Options>(&mut self, p: &mut Parser<'de, O>) -> (r: Result<(), ErrorCode>)
        ensures
            final(p).pos() == spec_read_i64(old(p).input(), old(p).pos()).1,
            match spec_read_i64(old(p).input(), old(p).pos()).0 {
                Ok(v) => if -0x8000_0000i64 <= v <= 0x7fff_ffffi64 {
                    r is Ok && *final(self) == v as i32
                } else {
                    r == Err::<(), ErrorCode>(ErrorCode::NumberOutOfRange) && *final(self) == *old(self)
                },
                Err(e) => r == Err::<(), ErrorCode>(e) && *final(self) == *old(self),
            },
    {
        proof {
            old(p).lemma_wf();
            lemma_read_i64_progress(old(p).input(), old(p).pos());
        }
        match p.read_i64() {
            Ok(v) => {
                if -0x8000_0000i64 <= v && v <= 0x7fff_ffffi64 {
                    *self = v as i32;
                    Ok(())
                } else {
                    Err(ErrorCode::NumberOutOfRange)
                }
            },
            Err(e) => Err(e),
        }
    }
}

impl Write for i32 {
    open spec fn spec_json(&self, s: Settings, level: nat) -> Seq<u8> {
        signed_text(*self as int)
    }

    open spec fn spec_is_null(&self) -> bool {
        false
    }

    fn write<O: Options>(&self, w: &mut Writer<O>) {
        w.write_i64(*self as i64);
    }

    fn is_null(&self) -> (r: bool) {
        false
    }
}

impl<'de> Read<'de> for i64 {
    open spec fn spec_read(input: Seq<u8>, at: int) -> Option<(Result<Self, ErrorCode>, int)> {
        let (res, end) = spec_read_i64(input, at);
        Some((match res {
            Ok(v) => Ok(v),
            Err(e) => Err(e),
        }, end))
    }

    fn read<O: Options>(&mut self, p: &mut Parser<'de, O>) -> (r: Result<(), ErrorCode>)
        ensures
            final(p).pos() == spec_read_i64(old(p).input(), old(p).pos()).1,
            match spec_read_i64(old(p).input(), old(p).pos()).0 {
                Ok(v) => r is Ok && *final(self) == v,
                Err(e) => r == Err::<(), ErrorCode>(e) && *final(self) == *old(self),
            },
    {
        proof {
            old(p).lemma_wf();
            lemma_read_i64_progress(old(p).input(), old(p).pos());
        }
        match p.read_i64() {
            Ok(v) => {
                *self = v;
                Ok(())
            },
            Err(e) => Err(e),
        }
    }
}

impl Write for i64 {
    open spec fn spec_json(&self, s: Settings, level: nat) -> Seq<u8> {
        signed_text(*self as int)
    }

    open spec fn spec_is_null(&self) -> bool {
        false
    }

    fn write<O: Options>(&self, w: &mut Writer<O>) {
        w.write_i64(*self as i64);
    }

    fn is_null(&self) -> (r: bool) {
        false
    }
}

impl<'de> Read<'de> for isize {
    open spec fn spec_read(input: Seq<u8>, at: int) -> Option<(Result<Self, ErrorCode>, int)> {
        let (res, end) = spec_read_i64(input, at);
        Some((match res {
            Ok(v) => if isize::MIN <= v <= isize::MAX {
                Ok(v as isize)
            } else {
                Err(ErrorCode::NumberOutOfRange)
            },
            Err(e) => Err(e),
        }, end))
    }

    fn read<O: Options>(&mut self, p: &mut Parser<'de, O>) -> (r: Result<(), ErrorCode>)
        ensures
            final(p).pos() == spec_read_i64(old(p).input(), old(p).pos()).1,
            match spec_read_i64(old(p).input(), old(p).pos()).0 {
                Ok(v) => if isize::MIN <= v <= isize::MAX {
                    r is Ok && *final(self) == v as isize
                } else {
                    r == Err::<(), ErrorCode>(ErrorCode::NumberOutOfRange) && *final(self) == *old(self)
                },
                Err(e) => r == Err::<(), ErrorCode>(e) && *final(self) == *old(self),
            },
    {
        proof {
            old(p).lemma_wf();
            lemma_read_i64_progress(old(p).input(), old(p).pos());
        }
        match p.read_i64() {
            Ok(v) => {
                if isize::MIN as i64 <= v && v <= isize::MAX as i64 {
                    *self = v as isize;
                    Ok(())
                } else {
                    Err(ErrorCode::NumberOutOfRange)
                }
            },
            Err(e) => Err(e),
        }
    }
}

impl Write for isize {
    open spec fn spec_json(&self, s: Settings, level: nat) -> Seq<u8> {
        signed_text(*self as int)
    }

    open spec fn spec_is_null(&self) -> bool {
        false
    }

    fn write<O: Options>(&self, w: &mut Writer<O>) {
        w.write_i64(*self as i64);
    }

    fn is_null(&self) -> (r: bool) {
        false
    }
}

// ---------------------------------------------------------------------------
// Scalars
// ---------------------------------------------------------------------------

impl<'de> Read<'de> for bool {
    open spec fn spec_read(input: Seq<u8>, at: int) -> Option<(Result<Self, ErrorCode>, int)> {
        let (res, end) = spec_read_bool(input, at);
        Some((match res {
            Ok(v) => Ok(v),
            Err(e) => Err(e),
        }, end))
    }

    fn read<O: Options>(&mut self, p: &mut Parser<'de, O>) -> (r: Result<(), ErrorCode>)
        ensures
            final(p).pos() == spec_read_bool(old(p).input(), old(p).pos()).1,
            match spec_read_bool(old(p).input(), old(p).pos()).0 {
                Ok(v) => r is Ok && *final(self) == v,
                Err(e) => r == Err::<(), ErrorCode>(e) && *final(self) == *old(self),
            },
    {
        match p.read_bool() {
            Ok(v) => {
                *self = v;
                Ok(())
            },
            Err(e) => Err(e),
        }
    }
}

impl Write for bool {
    open spec fn spec_json(&self, s: Settings, level: nat) -> Seq<u8> {
        bool_text(*self)
    }

    open spec fn spec_is_null(&self) -> bool {
        false
    }

    fn write<O: Options>(&self, w: &mut Writer<O>) {
        w.write_bool(*self);
    }

    fn is_null(&self) -> (r: bool) {
        false
    }
}

/// The unit type reads and writes `null`, so it can stand in for a field
/// that carries no information.
impl<'de> Read<'de> for () {
    open spec fn spec_read(input: Seq<u8>, at: int) -> Option<(Result<Self, ErrorCode>, int)> {
        let (res, end) = spec_try_null(input, at);
        Some((match res {
            Ok(true) => Ok(()),
            Ok(false) => Err(ErrorCode::ExpectedNull),
            Err(e) => Err(e),
        }, end))
    }

    fn read<O: Options>(&mut self, p: &mut Parser<'de, O>) -> (r: Result<(), ErrorCode>)
        ensures
            final(p).pos() == spec_try_null(old(p).input(), old(p).pos()).1,
            r == (match spec_try_null(old(p).input(), old(p).pos()).0 {
                Ok(true) => Ok::<(), ErrorCode>(()),
                Ok(false) => Err(ErrorCode::ExpectedNull),
                Err(e) => Err(e),
            }),
    {
        match p.try_null() {
            Ok(true) => Ok(()),
            Ok(false) => Err(ErrorCode::ExpectedNull),
            Err(e) => Err(e),
        }
    }
}

impl Write for () {
    open spec fn spec_json(&self, s: Settings, level: nat) -> Seq<u8> {
        null_text()
    }

    /// The unit writes null unconditionally, so it is always the absent one.
    open spec fn spec_is_null(&self) -> bool {
        true
    }

    fn write<O: Options>(&self, w: &mut Writer<O>) {
        w.write_null();
    }

    fn is_null(&self) -> (r: bool) {
        true
    }
}

impl<'de> Read<'de> for u128 {
    open spec fn spec_read(input: Seq<u8>, at: int) -> Option<(Result<Self, ErrorCode>, int)> {
        let (res, end) = spec_read_u128(input, at);
        Some((match res {
            Ok(v) => Ok(v),
            Err(e) => Err(e),
        }, end))
    }

    fn read<O: Options>(&mut self, p: &mut Parser<'de, O>) -> (r: Result<(), ErrorCode>)
        ensures
            final(p).pos() == spec_read_u128(old(p).input(), old(p).pos()).1,
            match spec_read_u128(old(p).input(), old(p).pos()).0 {
                Ok(v) => r is Ok && *final(self) == v,
                Err(e) => r == Err::<(), ErrorCode>(e) && *final(self) == *old(self),
            },
    {
        proof {
            old(p).lemma_wf();
            lemma_read_u128_progress(old(p).input(), old(p).pos());
        }
        match p.read_u128() {
            Ok(v) => {
                *self = v;
                Ok(())
            },
            Err(e) => Err(e),
        }
    }
}

impl Write for u128 {
    open spec fn spec_json(&self, s: Settings, level: nat) -> Seq<u8> {
        decimal_digits(*self as nat)
    }

    open spec fn spec_is_null(&self) -> bool {
        false
    }

    fn write<O: Options>(&self, w: &mut Writer<O>) {
        w.write_u128(*self);
    }

    fn is_null(&self) -> (r: bool) {
        false
    }
}

impl<'de> Read<'de> for i128 {
    open spec fn spec_read(input: Seq<u8>, at: int) -> Option<(Result<Self, ErrorCode>, int)> {
        let (res, end) = spec_read_i128(input, at);
        Some((match res {
            Ok(v) => Ok(v),
            Err(e) => Err(e),
        }, end))
    }

    fn read<O: Options>(&mut self, p: &mut Parser<'de, O>) -> (r: Result<(), ErrorCode>)
        ensures
            final(p).pos() == spec_read_i128(old(p).input(), old(p).pos()).1,
            match spec_read_i128(old(p).input(), old(p).pos()).0 {
                Ok(v) => r is Ok && *final(self) == v,
                Err(e) => r == Err::<(), ErrorCode>(e) && *final(self) == *old(self),
            },
    {
        proof {
            old(p).lemma_wf();
            let s = old(p).input();
            let i = old(p).pos();
            let neg = 0 <= i < s.len() && s[i] == 0x2d;
            lemma_read_u128_progress(s, if neg { i + 1 } else { i });
        }
        match p.read_i128() {
            Ok(v) => {
                *self = v;
                Ok(())
            },
            Err(e) => Err(e),
        }
    }
}

impl Write for i128 {
    open spec fn spec_json(&self, s: Settings, level: nat) -> Seq<u8> {
        signed_text(*self as int)
    }

    open spec fn spec_is_null(&self) -> bool {
        false
    }

    fn write<O: Options>(&self, w: &mut Writer<O>) {
        w.write_i128_raw(*self);
    }

    fn is_null(&self) -> (r: bool) {
        false
    }
}

// ---------------------------------------------------------------------------
// Strings
// ---------------------------------------------------------------------------

impl<'de> Read<'de> for String {
    open spec fn spec_read(input: Seq<u8>, at: int) -> Option<(Result<Self, ErrorCode>, int)> {
        None
    }

    fn read<O: Options>(&mut self, p: &mut Parser<'de, O>) -> (r: Result<(), ErrorCode>)
        ensures
            final(p).pos() == spec_read_string(old(p).input(), old(p).pos()).1,
            match spec_read_string(old(p).input(), old(p).pos()).0 {
                Ok(b) => r is Ok && vstd::utf8::encode_utf8(final(self)@) == b,
                Err(e) => r == Err::<(), ErrorCode>(e) && final(self)@ == old(self)@,
            },
    {
        proof {
            old(p).lemma_wf();
            lemma_read_string_progress(old(p).input(), old(p).pos());
        }
        p.read_string_into(self)
    }
}

impl Write for String {
    open spec fn spec_json(&self, s: Settings, level: nat) -> Seq<u8> {
        quoted(vstd::utf8::encode_utf8(self@))
    }

    open spec fn spec_is_null(&self) -> bool {
        false
    }

    fn write<O: Options>(&self, w: &mut Writer<O>) {
        w.write_str(self.as_str());
    }

    fn is_null(&self) -> (r: bool) {
        false
    }
}

/// Borrow a string straight out of the input, with no copy at all; a string
/// holding an escape has no such form, and is refused.
impl<'de> Read<'de> for &'de str {
    open spec fn spec_read(input: Seq<u8>, at: int) -> Option<(Result<Self, ErrorCode>, int)> {
        None
    }

    fn read<O: Options>(&mut self, p: &mut Parser<'de, O>) -> (r: Result<(), ErrorCode>)
        ensures
            final(p).pos() == spec_read_str(old(p).input(), old(p).pos()).1,
            match spec_read_str(old(p).input(), old(p).pos()).0 {
                Ok(b) => r is Ok && final(self).spec_bytes() == b,
                Err(e) => r == Err::<(), ErrorCode>(e) && *final(self) == *old(self),
            },
    {
        proof {
            old(p).lemma_wf();
            crate::json::parser::lemma_first_stop(old(p).input(), old(p).pos() + 1);
        }
        match p.read_str() {
            Ok(s) => {
                *self = s;
                Ok(())
            },
            Err(e) => Err(e),
        }
    }
}

impl<'a> Write for &'a str {
    open spec fn spec_json(&self, s: Settings, level: nat) -> Seq<u8> {
        quoted(self.spec_bytes())
    }

    open spec fn spec_is_null(&self) -> bool {
        false
    }

    fn write<O: Options>(&self, w: &mut Writer<O>) {
        w.write_str(*self);
    }

    fn is_null(&self) -> (r: bool) {
        false
    }
}

// ---------------------------------------------------------------------------
// Wrappers
// ---------------------------------------------------------------------------

impl<'de, T: Read<'de> + Default> Read<'de> for Option<T> {
    open spec fn spec_read(input: Seq<u8>, at: int) -> Option<(Result<Self, ErrorCode>, int)> {
        match spec_try_null(input, at).0 {
            Ok(true) => Some((Ok(None), at + 4)),
            Err(_) => Some((Err(ErrorCode::ExpectedNull), at)),
            Ok(false) => match T::spec_read(input, at) {
                Some((Ok(v), end)) => Some((Ok(Some(v)), end)),
                Some((Err(e), end)) => Some((Err(e), end)),
                None => None,
            },
        }
    }

    fn read<O: Options>(&mut self, p: &mut Parser<'de, O>) -> (r: Result<(), ErrorCode>)
        ensures
            spec_try_null(old(p).input(), old(p).pos()).0 == Ok::<bool, ErrorCode>(true)
                ==> r is Ok && *final(self) is None && final(p).pos() == old(p).pos() + 4,
            spec_try_null(old(p).input(), old(p).pos()).0 is Err
                ==> r == Err::<(), ErrorCode>(ErrorCode::ExpectedNull) && final(p).pos() == old(p).pos(),
            spec_try_null(old(p).input(), old(p).pos()).0 == Ok::<bool, ErrorCode>(false) && r is Ok
                ==> *final(self) is Some,
    {
        match p.try_null() {
            Ok(true) => {
                *self = None;
                return Ok(());
            },
            Ok(false) => {},
            Err(e) => return Err(e),
        }
        match self.take() {
            Some(v) => {
                let mut v = v;
                let r = v.read(p);
                *self = Some(v);
                r
            },
            None => {
                let mut v = T::default();
                match v.read(p) {
                    Ok(()) => {
                        *self = Some(v);
                        Ok(())
                    },
                    Err(e) => Err(e),
                }
            },
        }
    }
}

impl<T: Write> Write for Option<T> {
    open spec fn spec_json(&self, s: Settings, level: nat) -> Seq<u8> {
        match self {
            Some(v) => v.spec_json(s, level),
            None => null_text(),
        }
    }

    /// `None` is the absence a null-skipping policy is named for; a `Some`
    /// defers to what it holds.
    open spec fn spec_is_null(&self) -> bool {
        match self {
            Some(v) => v.spec_is_null(),
            None => true,
        }
    }

    fn write<O: Options>(&self, w: &mut Writer<O>) {
        match self {
            Some(v) => v.write(w),
            None => w.write_null(),
        }
    }

    fn is_null(&self) -> (r: bool) {
        match self {
            Some(v) => v.is_null(),
            None => true,
        }
    }
}

impl<'de, T: Read<'de>> Read<'de> for Box<T> {
    open spec fn spec_read(input: Seq<u8>, at: int) -> Option<(Result<Self, ErrorCode>, int)> {
        match T::spec_read(input, at) {
            Some((Ok(v), end)) => Some((Ok(Box::new(v)), end)),
            Some((Err(e), end)) => Some((Err(e), end)),
            None => None,
        }
    }

    fn read<O: Options>(&mut self, p: &mut Parser<'de, O>) -> (r: Result<(), ErrorCode>) {
        (**self).read(p)
    }
}

/// A box writes exactly what it points at.
impl<T: Write> Write for Box<T> {
    open spec fn spec_json(&self, s: Settings, level: nat) -> Seq<u8> {
        (**self).spec_json(s, level)
    }

    open spec fn spec_is_null(&self) -> bool {
        (**self).spec_is_null()
    }

    fn write<O: Options>(&self, w: &mut Writer<O>) {
        (**self).write(w);
    }

    fn is_null(&self) -> (r: bool) {
        (**self).is_null()
    }
}

// ---------------------------------------------------------------------------
// Sequences
// ---------------------------------------------------------------------------

/// A vector read as a JSON array fills its elements in place: one it
/// already holds is read over, one past them is pushed as a default first.
impl<'de, T: Read<'de> + Default> ReadSeq<'de> for Vec<T> {
    open spec fn spec_filled(&self) -> Option<nat> {
        Some(self@.len())
    }

    open spec fn spec_holds(&self, index: nat, input: Seq<u8>, at: int) -> bool {
        T::spec_read(input, at) matches Some((Ok(v), _)) ==> index < self@.len() && self@[index as int] == v
    }

    open spec fn spec_element(index: nat, input: Seq<u8>, at: int) -> Option<(Result<(), ErrorCode>, int)> {
        match T::spec_read(input, at) {
            Some((Ok(_), end)) => Some((Ok(()), end)),
            Some((Err(e), end)) => Some((Err(e), end)),
            None => None,
        }
    }

    fn element<O: Options>(&mut self, index: usize, p: &mut Parser<'de, O>) -> (r: Result<(), ErrorCode>)
        ensures
            final(self)@.len() == (if index < old(self)@.len() { old(self)@.len() as int } else { index + 1 }),
            forall|k: int| 0 <= k < old(self)@.len() && k != index ==> final(self)@[k] == old(self)@[k],
    {
        while self.len() <= index
            invariant
                *p == *old(p),
                old(self)@.len() <= self@.len() <= (if index < old(self)@.len() { old(self)@.len() as int } else { index + 1 }),
                forall|k: int| 0 <= k < old(self)@.len() ==> self@[k] == old(self)@[k],
            decreases index + 1 - self@.len(),
        {
            self.push(T::default());
        }
        let mut item = T::default();
        self.set_and_swap(index, &mut item);
        let r = match item.read(p) {
            Ok(()) => Ok(()),
            Err(e) => Err(e),
        };
        self.set_and_swap(index, &mut item);
        r
    }
}

impl<'de, T: Read<'de> + Default> Read<'de> for Vec<T> {
    open spec fn spec_read(input: Seq<u8>, at: int) -> Option<(Result<Self, ErrorCode>, int)> {
        None
    }

    fn read<O: Options>(&mut self, p: &mut Parser<'de, O>) -> (r: Result<(), ErrorCode>)
        ensures
            match crate::json::structure::container_start(old(p).input(), old(p).pos(), old(p).level(),
                old(p).settings().allow_comments, 0x5bu8, 0x5du8, ErrorCode::ExpectedBracket) {
                Some((res, at)) => final(p).pos() == at && match res {
                    Ok(_) => r is Ok && final(self)@.len() == 0,
                    Err(e) => r == Err::<(), ErrorCode>(e),
                },
                None => true,
            },
            crate::json::structure::container_start(old(p).input(), old(p).pos(), old(p).level(),
                old(p).settings().allow_comments, 0x5bu8, 0x5du8, ErrorCode::ExpectedBracket) is None
                ==> match crate::json::structure::elements_outcome::<'de, Vec<T>>(
                old(p).input(),
                crate::json::structure::container_body(old(p).input(), old(p).pos(), old(p).settings().allow_comments),
                0,
                old(p).settings().allow_comments,
            ) {
                Some((Ok(n), end)) => r is Ok && final(self)@.len() == n && final(p).pos() == end,
                Some((Err(e), end)) => r == Err::<(), ErrorCode>(e) && final(p).pos() == end,
                None => true,
            },
            crate::json::structure::container_start(old(p).input(), old(p).pos(), old(p).level(),
                old(p).settings().allow_comments, 0x5bu8, 0x5du8, ErrorCode::ExpectedBracket) is None
                ==> (crate::json::structure::elements_outcome::<'de, Vec<T>>(
                old(p).input(),
                crate::json::structure::container_body(old(p).input(), old(p).pos(), old(p).settings().allow_comments),
                0,
                old(p).settings().allow_comments,
            ) matches Some((Ok(n), _)) ==> forall|k: nat|
                #![trigger crate::json::structure::element_start::<'de, Vec<T>>(old(p).input(), crate::json::structure::container_body(old(p).input(), old(p).pos(), old(p).settings().allow_comments), 0, k, old(p).settings().allow_comments)]
                k < n ==> (crate::json::structure::element_start::<'de, Vec<T>>(
                old(p).input(),
                crate::json::structure::container_body(old(p).input(), old(p).pos(), old(p).settings().allow_comments),
                0,
                k,
                old(p).settings().allow_comments,
            ) matches Some(a) && (T::spec_read(old(p).input(), a) matches Some((Ok(v), _)) ==> final(self)@[k as int] == v))),
    {
        proof {
            old(p).lemma_wf();
            let c = old(p).settings().allow_comments;
            let body = crate::json::structure::container_body(old(p).input(), old(p).pos(), c);
            crate::json::parser::lemma_ws_end(old(p).input(), old(p).pos(), c);
            let j = crate::json::parser::ws_end(old(p).input(), old(p).pos(), c);
            if j < old(p).input().len() {
                crate::json::parser::lemma_ws_end(old(p).input(), j + 1, c);
                crate::json::structure::lemma_elements_count_bound::<'de, Vec<T>>(old(p).input(), body, 0, c);
            }
            assert forall|k: nat|
                #![trigger crate::json::structure::element_start::<'de, Vec<T>>(old(p).input(), body, 0, k, c)]
                crate::json::structure::elements_outcome::<'de, Vec<T>>(old(p).input(), body, 0, c) matches Some((Ok(n), _))
                && k < n implies crate::json::structure::element_start::<'de, Vec<T>>(old(p).input(), body, 0, k, c) is Some by {
                crate::json::structure::lemma_element_start_some::<'de, Vec<T>>(old(p).input(), body, 0, k, c);
            }
        }
        match p.read_seq(self) {
            Ok(n) => {
                self.truncate(n);
                Ok(())
            },
            Err(e) => Err(e),
        }
    }
}

/// A vector writes as a JSON array.
impl<T: Write> Write for Vec<T> {
    open spec fn spec_json(&self, s: Settings, level: nat) -> Seq<u8> {
        container_text(0x5bu8, 0x5du8, seq_body(self@, s, inner_level(0x5bu8, level, s)), level, s)
    }

    open spec fn spec_is_null(&self) -> bool {
        false
    }

    fn write<O: Options>(&self, w: &mut Writer<O>) {
        w.write_seq(self.as_slice());
    }

    fn is_null(&self) -> (r: bool) {
        false
    }
}

// ---------------------------------------------------------------------------
// Tuples, as JSON arrays
// ---------------------------------------------------------------------------

impl<A, B> Elements for (A, B) {
    open spec fn spec_len() -> nat {
        2
    }

    fn len() -> (n: usize)
        ensures
            n == 2,
    {
        2
    }
}

impl<'de, A: Read<'de>, B: Read<'de>> ReadArray<'de> for (A, B) {
    fn read_element<O: Options>(&mut self, index: usize, p: &mut Parser<'de, O>) -> (r: Result<(), ErrorCode>)
        ensures
            index > 1 ==> r == Err::<(), ErrorCode>(ErrorCode::ArrayLengthMismatch),
    {
        if index == 0 {
            self.0.read(p)
        } else if index == 1 {
            self.1.read(p)
        } else {
            Err(ErrorCode::ArrayLengthMismatch)
        }
    }
}

impl<A: Write, B: Write> WriteArray for (A, B) {
    open spec fn spec_elements(&self, s: Settings, level: nat) -> Seq<u8> {
        item_text(seq![0x5bu8], level, s) + self.0.spec_json(s, level) + seq![0x2cu8]
            + item_text(seq![0x2cu8], level, s) + self.1.spec_json(s, level) + seq![0x2cu8]
    }

    fn write_elements<O: Options>(&self, w: &mut Writer<O>) {
        w.element(&self.0);
        w.element(&self.1);
        proof {
            let s = O::spec_settings();
            let l = old(w).level();
            assert(item_text(old(w).bytes(), l, s) == item_text(seq![0x5bu8], l, s));
            let mid = old(w).bytes() + (item_text(old(w).bytes(), l, s) + self.0.spec_json(s, l) + seq![0x2cu8]);
            assert(mid.last() == 0x2cu8);
            assert(item_text(mid, l, s) == item_text(seq![0x2cu8], l, s));
            assert(w.bytes() =~= old(w).bytes() + self.spec_elements(s, l));
        }
    }
}

impl<'de, A: Read<'de>, B: Read<'de>> Read<'de> for (A, B) {
    open spec fn spec_read(input: Seq<u8>, at: int) -> Option<(Result<Self, ErrorCode>, int)> {
        None
    }

    fn read<O: Options>(&mut self, p: &mut Parser<'de, O>) -> (r: Result<(), ErrorCode>)
        ensures
            match crate::json::structure::container_start(old(p).input(), old(p).pos(), old(p).level(),
                old(p).settings().allow_comments, 0x5bu8, 0x5du8, ErrorCode::ExpectedBracket) {
                Some((res, at)) => final(p).pos() == at && match res {
                    Ok(_) => r == Err::<(), ErrorCode>(ErrorCode::ArrayLengthMismatch),
                    Err(e) => r == Err::<(), ErrorCode>(e),
                },
                None => r is Ok ==> final(p).input()[final(p).pos() - 1] == 0x5d,
            },
    {
        p.read_array(self)
    }
}

impl<A: Write, B: Write> Write for (A, B) {
    open spec fn spec_json(&self, s: Settings, level: nat) -> Seq<u8> {
        container_text(0x5bu8, 0x5du8, self.spec_elements(s, inner_level(0x5bu8, level, s)), level, s)
    }

    open spec fn spec_is_null(&self) -> bool {
        false
    }

    fn write<O: Options>(&self, w: &mut Writer<O>) {
        w.write_array(self);
    }

    fn is_null(&self) -> (r: bool) {
        false
    }
}

impl<A, B, C> Elements for (A, B, C) {
    open spec fn spec_len() -> nat {
        3
    }

    fn len() -> (n: usize)
        ensures
            n == 3,
    {
        3
    }
}

impl<'de, A: Read<'de>, B: Read<'de>, C: Read<'de>> ReadArray<'de> for (A, B, C) {
    fn read_element<O: Options>(&mut self, index: usize, p: &mut Parser<'de, O>) -> (r: Result<(), ErrorCode>)
        ensures
            index > 2 ==> r == Err::<(), ErrorCode>(ErrorCode::ArrayLengthMismatch),
    {
        if index == 0 {
            self.0.read(p)
        } else if index == 1 {
            self.1.read(p)
        } else if index == 2 {
            self.2.read(p)
        } else {
            Err(ErrorCode::ArrayLengthMismatch)
        }
    }
}

impl<A: Write, B: Write, C: Write> WriteArray for (A, B, C) {
    open spec fn spec_elements(&self, s: Settings, level: nat) -> Seq<u8> {
        item_text(seq![0x5bu8], level, s) + self.0.spec_json(s, level) + seq![0x2cu8]
            + item_text(seq![0x2cu8], level, s) + self.1.spec_json(s, level) + seq![0x2cu8]
            + item_text(seq![0x2cu8], level, s) + self.2.spec_json(s, level) + seq![0x2cu8]
    }

    fn write_elements<O: Options>(&self, w: &mut Writer<O>) {
        let ghost s = O::spec_settings();
        let ghost l = old(w).level();
        w.element(&self.0);
        let ghost b1 = w.bytes();
        w.element(&self.1);
        let ghost b2 = w.bytes();
        w.element(&self.2);
        proof {
            assert(item_text(old(w).bytes(), l, s) == item_text(seq![0x5bu8], l, s));
            assert(b1.last() == 0x2cu8);
            assert(item_text(b1, l, s) == item_text(seq![0x2cu8], l, s));
            assert(b2.last() == 0x2cu8);
            assert(item_text(b2, l, s) == item_text(seq![0x2cu8], l, s));
            assert(w.bytes() =~= old(w).bytes() + self.spec_elements(s, l));
        }
    }
}

impl<'de, A: Read<'de>, B: Read<'de>, C: Read<'de>> Read<'de> for (A, B, C) {
    open spec fn spec_read(input: Seq<u8>, at: int) -> Option<(Result<Self, ErrorCode>, int)> {
        None
    }

    fn read<O: Options>(&mut self, p: &mut Parser<'de, O>) -> (r: Result<(), ErrorCode>)
        ensures
            match crate::json::structure::container_start(old(p).input(), old(p).pos(), old(p).level(),
                old(p).settings().allow_comments, 0x5bu8, 0x5du8, ErrorCode::ExpectedBracket) {
                Some((res, at)) => final(p).pos() == at && match res {
                    Ok(_) => r == Err::<(), ErrorCode>(ErrorCode::ArrayLengthMismatch),
                    Err(e) => r == Err::<(), ErrorCode>(e),
                },
                None => r is Ok ==> final(p).input()[final(p).pos() - 1] == 0x5d,
            },
    {
        p.read_array(self)
    }
}

impl<A: Write, B: Write, C: Write> Write for (A, B, C) {
    open spec fn spec_json(&self, s: Settings, level: nat) -> Seq<u8> {
        container_text(0x5bu8, 0x5du8, self.spec_elements(s, inner_level(0x5bu8, level, s)), level, s)
    }

    open spec fn spec_is_null(&self) -> bool {
        false
    }

    fn write<O: Options>(&self, w: &mut Writer<O>) {
        w.write_array(self);
    }

    fn is_null(&self) -> (r: bool) {
        false
    }
}

// ---------------------------------------------------------------------------
// Adapters
// ---------------------------------------------------------------------------

impl<'de, T: Read<'de>> ReadAs<'de, T> for Same {
    fn read<O: Options>(value: &mut T, p: &mut Parser<'de, O>) -> (r: Result<(), ErrorCode>) {
        value.read(p)
    }
}

impl<T: Write> WriteAs<T> for Same {
    open spec fn spec_json_as(value: &T, s: Settings, level: nat) -> Seq<u8> {
        value.spec_json(s, level)
    }

    open spec fn spec_is_null_as(value: &T) -> bool {
        value.spec_is_null()
    }

    fn write<O: Options>(value: &T, w: &mut Writer<O>) {
        value.write(w);
    }

    fn is_null(value: &T) -> (r: bool) {
        value.is_null()
    }
}

impl<T: FromJsonKey> ReadKeyAs<T> for Same {
    fn from_key(key: &str) -> Result<T, ErrorCode> {
        T::from_key(key)
    }
}

impl<T: ToJsonKey> WriteKeyAs<T> for Same {
    open spec fn spec_key_as(value: &T) -> Seq<u8> {
        value.spec_key()
    }

    fn write_key<O: Options>(value: &T, w: &mut Writer<O>) {
        value.write_key(w);
    }
}

impl<'de, A: ReadAs<'de, T>, T: Default> ReadAs<'de, Option<T>> for Option<A> {
    fn read<O: Options>(value: &mut Option<T>, p: &mut Parser<'de, O>) -> (r: Result<(), ErrorCode>)
        ensures
            spec_try_null(old(p).input(), old(p).pos()).0 == Ok::<bool, ErrorCode>(true)
                ==> r is Ok && *final(value) is None && final(p).pos() == old(p).pos() + 4,
            spec_try_null(old(p).input(), old(p).pos()).0 is Err
                ==> r == Err::<(), ErrorCode>(ErrorCode::ExpectedNull) && final(p).pos() == old(p).pos(),
    {
        match p.try_null() {
            Ok(true) => {
                *value = None;
                return Ok(());
            },
            Ok(false) => {},
            Err(e) => return Err(e),
        }
        match value.take() {
            Some(v) => {
                let mut v = v;
                let r = A::read(&mut v, p);
                *value = Some(v);
                r
            },
            None => {
                let mut v = T::default();
                match A::read(&mut v, p) {
                    Ok(()) => {
                        *value = Some(v);
                        Ok(())
                    },
                    Err(e) => Err(e),
                }
            },
        }
    }
}

impl<A: WriteAs<T>, T> WriteAs<Option<T>> for Option<A> {
    open spec fn spec_json_as(value: &Option<T>, s: Settings, level: nat) -> Seq<u8> {
        match value {
            Some(v) => A::spec_json_as(v, s, level),
            None => null_text(),
        }
    }

    open spec fn spec_is_null_as(value: &Option<T>) -> bool {
        match value {
            Some(v) => A::spec_is_null_as(v),
            None => true,
        }
    }

    fn write<O: Options>(value: &Option<T>, w: &mut Writer<O>) {
        match value {
            Some(v) => A::write(v, w),
            None => w.write_null(),
        }
    }

    fn is_null(value: &Option<T>) -> (r: bool) {
        match value {
            Some(v) => A::is_null(v),
            None => true,
        }
    }
}

/// The elements of a vector being read through an adapter.
pub struct FillAs<A, T> {
    pub items: Vec<T>,
    pub adapter: core::marker::PhantomData<A>,
}

impl<'de, A: ReadAs<'de, T>, T: Default> ReadSeq<'de> for FillAs<A, T> {
    fn element<O: Options>(&mut self, index: usize, p: &mut Parser<'de, O>) -> (r: Result<(), ErrorCode>)
        ensures
            final(self).items@.len() == (if index < old(self).items@.len() {
                old(self).items@.len() as int
            } else {
                index + 1
            }),
            forall|k: int|
                0 <= k < old(self).items@.len() && k != index ==> final(self).items@[k] == old(self).items@[k],
    {
        while self.items.len() <= index
            invariant
                old(self).items@.len() <= self.items@.len() <= (if index < old(self).items@.len() {
                    old(self).items@.len() as int
                } else {
                    index + 1
                }),
                forall|k: int| 0 <= k < old(self).items@.len() ==> self.items@[k] == old(self).items@[k],
            decreases index + 1 - self.items@.len(),
        {
            self.items.push(T::default());
        }
        let mut item = T::default();
        self.items.set_and_swap(index, &mut item);
        let r = A::read(&mut item, p);
        self.items.set_and_swap(index, &mut item);
        r
    }
}

impl<'de, A: ReadAs<'de, T>, T: Default> ReadAs<'de, Vec<T>> for Vec<A> {
    fn read<O: Options>(value: &mut Vec<T>, p: &mut Parser<'de, O>) -> (r: Result<(), ErrorCode>)
        ensures
            match crate::json::structure::container_start(old(p).input(), old(p).pos(), old(p).level(),
                old(p).settings().allow_comments, 0x5bu8, 0x5du8, ErrorCode::ExpectedBracket) {
                Some((res, at)) => final(p).pos() == at && match res {
                    Ok(_) => r is Ok && final(value)@.len() == 0,
                    Err(e) => r == Err::<(), ErrorCode>(e),
                },
                None => r is Ok ==> final(p).input()[final(p).pos() - 1] == 0x5d,
            },
    {
        let mut held: Vec<T> = Vec::new();
        core::mem::swap(value, &mut held);
        let mut fill = FillAs::<A, T> { items: held, adapter: core::marker::PhantomData };
        let r = p.read_seq(&mut fill);
        let mut items = fill.items;
        match r {
            Ok(n) => {
                items.truncate(n);
                *value = items;
                Ok(())
            },
            Err(e) => {
                *value = items;
                Err(e)
            },
        }
    }
}

impl<A: WriteAs<T>, T> WriteAs<Vec<T>> for Vec<A> {
    open spec fn spec_json_as(value: &Vec<T>, s: Settings, level: nat) -> Seq<u8> {
        container_text(0x5bu8, 0x5du8, seq_body_as::<A, T>(value@, s, inner_level(0x5bu8, level, s)), level, s)
    }

    open spec fn spec_is_null_as(value: &Vec<T>) -> bool {
        false
    }

    fn write<O: Options>(value: &Vec<T>, w: &mut Writer<O>) {
        w.write_seq_with::<A, T>(value.as_slice());
    }

    fn is_null(value: &Vec<T>) -> (r: bool) {
        false
    }
}

/// Reading a `u64` back from the text it writes gives the same number,
/// with the whole text consumed, under any policy and at any level.
pub proof fn lemma_u64_round_trip(v: u64, st: Settings, level: nat)
    ensures
        spec_read_u64(v.spec_json(st, level), 0) == (Ok::<u64, ErrorCode>(v), v.spec_json(st, level).len() as int),
{
    lemma_u64_reads_back(v);
    crate::num::itoa::lemma_decimal_digits_len(v as nat);
}

/// Reading an `i64` back from the text it writes gives the same number,
/// with the whole text consumed, under any policy and at any level.
pub proof fn lemma_i64_round_trip(v: i64, st: Settings, level: nat)
    ensures
        spec_read_i64(v.spec_json(st, level), 0) == (Ok::<i64, ErrorCode>(v), v.spec_json(st, level).len() as int),
{
    lemma_i64_reads_back(v);
    if v < 0 {
        assert(signed_text(v as int) =~= seq![0x2du8] + decimal_digits((-(v as int)) as nat));
    }
}

/// Reading a `bool` back from the text it writes gives the same value.
pub proof fn lemma_bool_round_trip(v: bool, st: Settings, level: nat)
    ensures
        spec_read_bool(v.spec_json(st, level), 0) == (Ok::<bool, ErrorCode>(v), v.spec_json(st, level).len() as int),
{
    let t = v.spec_json(st, level);
    assert(t.subrange(0, t.len() as int) =~= t);
}

/// Reading a string back from the text it writes gives the same text,
/// with the whole text consumed, under any policy and at any level.
pub proof fn lemma_string_round_trip(v: String, st: Settings, level: nat)
    ensures
        spec_read_string(v.spec_json(st, level), 0) == (
            Ok::<Seq<u8>, ErrorCode>(vstd::utf8::encode_utf8(v@)),
            v.spec_json(st, level).len() as int,
        ),
{
    crate::json::writer::lemma_quoted_reads_back(vstd::utf8::encode_utf8(v@));
}

} // verus!

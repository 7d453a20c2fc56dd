//! JSON: text in, text out.
//!
//! The entry points here read a whole document into a value, or write a
//! value out as a whole document.
pub mod agreement;
pub mod compose;
pub mod impls;
pub mod minify;
pub mod parser;
pub mod prettify;
pub mod stream;
pub mod structure;
pub mod traits;
pub mod writer;

pub use compose::{quoted_key, ToJsonKey};
pub use impls::FromJsonKey;
pub use minify::{minify, minify_into, minify_into_with, minify_with};
pub use prettify::{prettify, prettify_into, prettify_into_with, prettify_with};
pub use parser::{JsonStr, Parser};
pub use stream::{Documents, Locate, Mode};
pub use traits::{
    Elements, Keys, Read, ReadArray, ReadAs, ReadEntry, ReadEnum, ReadKeyAs, ReadObject, ReadSeq, ReadWrite,
    Same, Variants, Write, WriteArray, WriteAs, WriteKeyAs, WriteObject,
};
pub use writer::Writer;

use vstd::prelude::*;
use vstd::string::StringSliceAdditionalSpecFns;
use vstd::utf8::{encode_utf8, valid_utf8};
use crate::error::{Error, ErrorCode};
use crate::options::{Options, Standard};
use crate::text::str_from_utf8;
use crate::json::parser::ws_end;

verus! {

/// What reading a whole document gives, from where the value's reader left
/// the parser and what it returned: its failure, reported where the cursor
/// stands; or after its success, nothing more but whitespace, which is then
/// stepped over, else trailing content reported where it starts.
pub open spec fn document_outcome<'de, O: Options>(after: Parser<'de, O>, read: Result<(), ErrorCode>) -> Result<(), Error> {
    match read {
        Err(code) => Err(Error { code, index: after.pos() as usize, key: after.err_key() }),
        Ok(_) => {
            let f = ws_end(after.input(), after.pos(), after.settings().allow_comments);
            if f == after.input().len() {
                Ok(())
            } else {
                Err(Error { code: ErrorCode::TrailingContent, index: f as usize, key: after.err_key() })
            }
        },
    }
}

/// What a reader handed a whole document, its cursor at `from`, may leave:
/// the parser over the same input, and after a success, the cursor at or
/// past `from`, at the top level.
pub open spec fn read_document<'de, O: Options>(input: Seq<u8>, from: int, after: Parser<'de, O>, ok: bool) -> bool {
    &&& after.wf()
    &&& after.input() == input
    &&& ok ==> after.level() == 0 && after.pos() >= from
}

/// A document's outcome reported from `at` on: a failure's index moved by
/// `at`, and its key dropped.
pub open spec fn located(res: Result<(), Error>, at: int) -> Result<(), Error> {
    match res {
        Ok(_) => Ok(()),
        Err(e) => Err(Error { code: e.code, index: (at + e.index) as usize, key: None }),
    }
}

/// What reading a whole document, the value starting at `from`, gives for
/// a type whose reading the text alone decides: the value, or the failure's code and index. `None` for a
/// type whose reading it does not pin down.
pub open spec fn pinned_outcome<'de, T: Read<'de>>(input: Seq<u8>, from: int, c: bool) -> Option<Result<T, (ErrorCode, int)>> {
    match T::spec_read(input, from) {
        None => None,
        Some((Ok(v), end)) => {
            let f = ws_end(input, end, c);
            if f == input.len() {
                Some(Ok(v))
            } else {
                Some(Err((ErrorCode::TrailingContent, f)))
            }
        },
        Some((Err(e), end)) => Some(Err((e, end))),
    }
}

/// A `u64` written out under any policy reads back, as a whole document,
/// as the same number: what [`from_str`] gives on what [`to_string`]
/// writes.
pub proof fn lemma_u64_document_round_trip(v: u64, st: crate::options::Settings)
    ensures
        ({
            let t = v.spec_json(st, 0);
            pinned_outcome::<'static, u64>(t, ws_end(t, 0, st.allow_comments), st.allow_comments) == Some(
                Ok::<u64, (ErrorCode, int)>(v),
            )
        }),
{
    let t = v.spec_json(st, 0);
    crate::json::impls::lemma_u64_round_trip(v, st, 0);
    crate::num::itoa::lemma_decimal_digits_ascii(v as nat);
    crate::num::itoa::lemma_decimal_digits_len(v as nat);
    assert(0x30 <= t[0] <= 0x39);
    assert(ws_end(t, 0, st.allow_comments) == 0);
    assert(ws_end(t, t.len() as int, st.allow_comments) == t.len());
}

/// An `i64` written out reads back as the same number likewise.
pub proof fn lemma_i64_document_round_trip(v: i64, st: crate::options::Settings)
    ensures
        ({
            let t = v.spec_json(st, 0);
            pinned_outcome::<'static, i64>(t, ws_end(t, 0, st.allow_comments), st.allow_comments) == Some(
                Ok::<i64, (ErrorCode, int)>(v),
            )
        }),
{
    let t = v.spec_json(st, 0);
    crate::json::impls::lemma_i64_round_trip(v, st, 0);
    if v < 0 {
        assert(t[0] == 0x2d);
    } else {
        crate::num::itoa::lemma_decimal_digits_ascii(v as nat);
        crate::num::itoa::lemma_decimal_digits_len(v as nat);
        assert(0x30 <= t[0] <= 0x39);
    }
    assert(ws_end(t, 0, st.allow_comments) == 0);
    assert(ws_end(t, t.len() as int, st.allow_comments) == t.len());
}

/// A `bool` written out reads back as the same value likewise.
pub proof fn lemma_bool_document_round_trip(v: bool, st: crate::options::Settings)
    ensures
        ({
            let t = v.spec_json(st, 0);
            pinned_outcome::<'static, bool>(t, ws_end(t, 0, st.allow_comments), st.allow_comments) == Some(
                Ok::<bool, (ErrorCode, int)>(v),
            )
        }),
{
    let t = v.spec_json(st, 0);
    crate::json::impls::lemma_bool_round_trip(v, st, 0);
    assert(t[0] == 0x74 || t[0] == 0x66);
    assert(ws_end(t, 0, st.allow_comments) == 0);
    assert(ws_end(t, t.len() as int, st.allow_comments) == t.len());
}

/// An optional `u64` written out reads back as the same value likewise:
/// `null` as `None`, a number as `Some` of it.
pub proof fn lemma_option_u64_document_round_trip(v: Option<u64>, st: crate::options::Settings)
    ensures
        ({
            let t = v.spec_json(st, 0);
            pinned_outcome::<'static, Option<u64>>(t, ws_end(t, 0, st.allow_comments), st.allow_comments) == Some(
                Ok::<Option<u64>, (ErrorCode, int)>(v),
            )
        }),
{
    let t = v.spec_json(st, 0);
    match v {
        None => {
            assert(t =~= seq![0x6eu8, 0x75u8, 0x6cu8, 0x6cu8]);
            assert(ws_end(t, 0, st.allow_comments) == 0);
            assert(t.subrange(0, 4) =~= seq![0x6eu8, 0x75u8, 0x6cu8, 0x6cu8]);
            assert(crate::json::parser::lit_at(t, 0, seq![0x6eu8, 0x75u8, 0x6cu8, 0x6cu8]));
            assert(ws_end(t, 4, st.allow_comments) == 4);
        },
        Some(x) => {
            lemma_u64_document_round_trip(x, st);
            crate::num::itoa::lemma_decimal_digits_ascii(x as nat);
            crate::num::itoa::lemma_decimal_digits_len(x as nat);
            assert(t == x.spec_json(st, 0));
            assert(t[0] != 0x6e);
        },
    }
}

/// Parse a JSON document into a new value.
pub fn from_str<'de, T: Read<'de> + Default>(input: &'de str) -> (r: Result<T, Error>)
    ensures
        r matches Err(e) ==> e.index <= input.spec_bytes().len(),
        exists|after: Parser<'de, Standard>, read: Result<(), ErrorCode>|
            read_document(input.spec_bytes(), ws_end(input.spec_bytes(), 0, Standard::spec_settings().allow_comments), after, read is Ok) && #[trigger] document_outcome(after, read) == match r {
                Ok(_) => Ok::<(), Error>(()),
                Err(e) => Err::<(), Error>(e),
            },
        match pinned_outcome::<'de, T>(input.spec_bytes(), ws_end(input.spec_bytes(), 0, Standard::spec_settings().allow_comments), Standard::spec_settings().allow_comments) {
            Some(Ok(v)) => r matches Ok(x) && x == v,
            Some(Err((code, at))) => r matches Err(e) && e.code == code && e.index == at,
            None => true,
        },
{
    from_str_with::<Standard, T>(input)
}

/// [`from_str`] under an explicit read policy.
pub fn from_str_with<'de, O: Options, T: Read<'de> + Default>(input: &'de str) -> (r: Result<T, Error>)
    ensures
        r matches Err(e) ==> e.index <= input.spec_bytes().len(),
        exists|after: Parser<'de, O>, read: Result<(), ErrorCode>|
            read_document(input.spec_bytes(), ws_end(input.spec_bytes(), 0, O::spec_settings().allow_comments), after, read is Ok) && #[trigger] document_outcome(after, read) == match r {
                Ok(_) => Ok::<(), Error>(()),
                Err(e) => Err::<(), Error>(e),
            },
        match pinned_outcome::<'de, T>(input.spec_bytes(), ws_end(input.spec_bytes(), 0, O::spec_settings().allow_comments), O::spec_settings().allow_comments) {
            Some(Ok(v)) => r matches Ok(x) && x == v,
            Some(Err((code, at))) => r matches Err(e) && e.code == code && e.index == at,
            None => true,
        },
{
    let mut value = T::default();
    match read_into_with::<O, T>(&mut value, input) {
        Ok(()) => Ok(value),
        Err(e) => Err(e),
    }
}

/// Parse a JSON document into an existing value, which keeps the storage it
/// already holds. On failure the value is left partially written.
pub fn read_into<'de, T: Read<'de>>(value: &mut T, input: &'de str) -> (r: Result<(), Error>)
    ensures
        r matches Err(e) ==> e.index <= input.spec_bytes().len(),
        exists|after: Parser<'de, Standard>, read: Result<(), ErrorCode>|
            read_document(input.spec_bytes(), ws_end(input.spec_bytes(), 0, Standard::spec_settings().allow_comments), after, read is Ok) && #[trigger] document_outcome(after, read) == r,
        match pinned_outcome::<'de, T>(input.spec_bytes(), ws_end(input.spec_bytes(), 0, Standard::spec_settings().allow_comments), Standard::spec_settings().allow_comments) {
            Some(Ok(v)) => r is Ok && *final(value) == v,
            Some(Err((code, at))) => r matches Err(e) && e.code == code && e.index == at,
            None => true,
        },
{
    read_into_with::<Standard, T>(value, input)
}

/// [`read_into`] under an explicit read policy: leading whitespace, the
/// value, and nothing after it but whitespace. The value's reader is handed
/// the parser over the input with the cursor past the leading whitespace;
/// what it leaves is finished by [`finish_document`].
pub fn read_into_with<'de, O: Options, T: Read<'de>>(value: &mut T, input: &'de str) -> (r: Result<(), Error>)
    ensures
        r matches Err(e) ==> e.index <= input.spec_bytes().len(),
        exists|after: Parser<'de, O>, read: Result<(), ErrorCode>|
            read_document(input.spec_bytes(), ws_end(input.spec_bytes(), 0, O::spec_settings().allow_comments), after, read is Ok) && #[trigger] document_outcome(after, read) == r,
        match pinned_outcome::<'de, T>(input.spec_bytes(), ws_end(input.spec_bytes(), 0, O::spec_settings().allow_comments), O::spec_settings().allow_comments) {
            Some(Ok(v)) => r is Ok && *final(value) == v,
            Some(Err((code, at))) => r matches Err(e) && e.code == code && e.index == at,
            None => true,
        },
{
    let mut p: Parser<'de, O> = Parser::with_options(input);
    p.skip_ws();
    let ghost before = p;
    proof {
        assert(before.input() == input.spec_bytes());
        assert(before.pos() == ws_end(input.spec_bytes(), 0, O::spec_settings().allow_comments));
    }
    let read = value.read(&mut p);
    let ghost after = p;
    proof {
        assert(T::spec_read(before.input(), before.pos()) matches Some((res, end)) ==> after.pos() == end
            && match res {
            Ok(v) => read is Ok && *value == v,
            Err(e) => read == Err::<(), ErrorCode>(e),
        });
        after.lemma_wf();
        crate::json::parser::lemma_ws_end(after.input(), after.pos(), O::spec_settings().allow_comments);
    }
    let r = finish_document(&mut p, read);
    proof {
        assert(read_document(input.spec_bytes(), ws_end(input.spec_bytes(), 0, O::spec_settings().allow_comments), after, read is Ok));
    }
    r
}

/// Finish reading a whole document from where the value's reader left the
/// parser and what it returned.
pub fn finish_document<'de, O: Options>(p: &mut Parser<'de, O>, read: Result<(), ErrorCode>) -> (r: Result<(), Error>)
    requires
        old(p).wf(),
    ensures
        r == document_outcome(*old(p), read),
        final(p).wf(),
        final(p).input() == old(p).input(),
        r matches Err(e) ==> e.index <= old(p).input().len(),
{
    proof {
        p.lemma_wf();
    }
    match read {
        Ok(()) => match p.finish() {
            Ok(()) => Ok(()),
            Err(code) => {
                proof {
                    p.lemma_wf();
                }
                Err(Error::with_key(code, p.position(), p.error_key()))
            },
        },
        Err(code) => Err(Error::with_key(code, p.position(), p.error_key())),
    }
}

/// Parse a JSON document given as bytes, checked for UTF-8 once up front.
pub fn from_slice<'de, T: Read<'de> + Default>(input: &'de [u8]) -> (r: Result<T, Error>)
    ensures
        r matches Err(e) ==> e.index <= input@.len(),
        !valid_utf8(input@) ==> (r matches Err(e) && e.code == ErrorCode::InvalidUtf8
            && valid_utf8(input@.subrange(0, e.index as int))
            && forall|j: int| e.index < j <= input@.len() ==> !valid_utf8(#[trigger] input@.subrange(0, j))),
        valid_utf8(input@) ==> exists|after: Parser<'de, Standard>, read: Result<(), ErrorCode>|
            read_document(input@, ws_end(input@, 0, Standard::spec_settings().allow_comments), after, read is Ok)
                && #[trigger] document_outcome(after, read) == match r {
                Ok(_) => Ok::<(), Error>(()),
                Err(e) => Err::<(), Error>(e),
            },
        valid_utf8(input@) ==> match pinned_outcome::<'de, T>(
            input@,
            ws_end(input@, 0, Standard::spec_settings().allow_comments),
            Standard::spec_settings().allow_comments,
        ) {
            Some(Ok(v)) => r matches Ok(x) && x == v,
            Some(Err((code, at))) => r matches Err(e) && e.code == code && e.index == at,
            None => true,
        },
{
    from_slice_with::<Standard, T>(input)
}

/// [`from_slice`] under an explicit read policy.
pub fn from_slice_with<'de, O: Options, T: Read<'de> + Default>(input: &'de [u8]) -> (r: Result<T, Error>)
    ensures
        r matches Err(e) ==> e.index <= input@.len(),
        !valid_utf8(input@) ==> (r matches Err(e) && e.code == ErrorCode::InvalidUtf8
            && valid_utf8(input@.subrange(0, e.index as int))
            && forall|j: int| e.index < j <= input@.len() ==> !valid_utf8(#[trigger] input@.subrange(0, j))),
        valid_utf8(input@) ==> exists|after: Parser<'de, O>, read: Result<(), ErrorCode>|
            read_document(input@, ws_end(input@, 0, O::spec_settings().allow_comments), after, read is Ok)
                && #[trigger] document_outcome(after, read) == match r {
                Ok(_) => Ok::<(), Error>(()),
                Err(e) => Err::<(), Error>(e),
            },
        valid_utf8(input@) ==> match pinned_outcome::<'de, T>(
            input@,
            ws_end(input@, 0, O::spec_settings().allow_comments),
            O::spec_settings().allow_comments,
        ) {
            Some(Ok(v)) => r matches Ok(x) && x == v,
            Some(Err((code, at))) => r matches Err(e) && e.code == code && e.index == at,
            None => true,
        },
{
    match str_from_utf8(input) {
        Ok(s) => from_str_with::<O, T>(s),
        Err(k) => Err(Error::new(ErrorCode::InvalidUtf8, k)),
    }
}

/// Serialize a value to a `String`.
pub fn to_string<T: Write>(value: &T) -> (r: String)
    ensures
        encode_utf8(r@) == value.spec_json(Standard::spec_settings(), 0),
{
    to_string_with::<Standard, T>(value)
}

/// [`to_string`] under an explicit write policy.
pub fn to_string_with<O: Options, T: Write>(value: &T) -> (r: String)
    ensures
        encode_utf8(r@) == value.spec_json(O::spec_settings(), 0),
{
    let mut w: Writer<O> = Writer::new();
    value.write(&mut w);
    proof {
        assert(w.bytes().subrange(0, 0) =~= Seq::<u8>::empty());
        crate::text::lemma_empty_valid();
        assert(Seq::<u8>::empty() + value.spec_json(O::spec_settings(), 0) =~= value.spec_json(O::spec_settings(), 0));
    }
    w.into_string()
}

/// Serialize into an existing `String`, replacing its contents.
pub fn write_into<T: Write>(value: &T, out: &mut String)
    ensures
        encode_utf8(final(out)@) == value.spec_json(Standard::spec_settings(), 0),
{
    write_into_with::<Standard, T>(value, out);
}

/// [`write_into`] under an explicit write policy.
pub fn write_into_with<O: Options, T: Write>(value: &T, out: &mut String)
    ensures
        encode_utf8(final(out)@) == value.spec_json(O::spec_settings(), 0),
{
    *out = to_string_with::<O, T>(value);
}

/// Serialize to a byte vector.
pub fn to_vec<T: Write>(value: &T) -> (r: Vec<u8>)
    ensures
        r@ == value.spec_json(Standard::spec_settings(), 0),
{
    to_vec_with::<Standard, T>(value)
}

/// [`to_vec`] under an explicit write policy.
pub fn to_vec_with<O: Options, T: Write>(value: &T) -> (r: Vec<u8>)
    ensures
        r@ == value.spec_json(O::spec_settings(), 0),
{
    let mut w: Writer<O> = Writer::new();
    value.write(&mut w);
    proof {
        assert(Seq::<u8>::empty() + value.spec_json(O::spec_settings(), 0) =~= value.spec_json(O::spec_settings(), 0));
    }
    w.into_vec()
}

} // verus!

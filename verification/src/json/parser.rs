//! The parse cursor.
//!
//! [`Parser`] walks the input bytes directly into the destination. Its
//! contracts say, for each step, what it consumes and what it reports, in
//! terms of the grammar functions defined here.
use core::marker::PhantomData;
use vstd::prelude::*;
use vstd::utf8::*;
use vstd::string::StringSliceAdditionalSpecFns;
use crate::error::ErrorCode;
use crate::num::atoi::{
    all_digits, decimal_value, digit_end, is_digit, is_digit_byte, lemma_decimal_prefix_le,
    lemma_decimal_push, lemma_digit_end, parse_i64, parse_u64, reject_float_tail,
    spec_float_tail, spec_parse_i64, spec_parse_u64,
};
use crate::options::{Options, Settings, Standard};
use crate::swar::{find_byte, first_byte_from, lemma_first_byte_from, needs_escape, spec_needs_escape};
use crate::text::{all_ascii, at_boundary, lemma_after_ascii, lemma_ascii_valid, lemma_slice_valid, lemma_str_valid, str_from_utf8};
use crate::num::atof::{lemma_scan_ascii, scan_number, spec_scan};

verus! {

/// Nesting limit, so a hostile document cannot exhaust the stack.
pub const MAX_DEPTH: u32 = 256;

/// The four bytes JSON calls whitespace.
pub open spec fn spec_is_ws(c: u8) -> bool {
    c == 0x20 || c == 0x09 || c == 0x0a || c == 0x0d
}

/// Could this byte be part of a number or one of the three literals?
pub open spec fn spec_scalar_byte(c: u8) -> bool {
    (0x30 <= c <= 0x39) || (0x41 <= c <= 0x5a) || (0x61 <= c <= 0x7a) || c == 0x2d || c == 0x2b
        || c == 0x2e
}

/// The first `k` at or after `from` with `s[k] == '*'` and `s[k + 1] == '/'`.
pub open spec fn block_comment_close(s: Seq<u8>, from: int) -> Option<int>
    decreases s.len() - from,
{
    if from < 0 || from + 1 >= s.len() {
        None
    } else if s[from] == 0x2a && s[from + 1] == 0x2f {
        Some(from)
    } else {
        block_comment_close(s, from + 1)
    }
}

/// Where the comment whose `/` is at `at` ends: past the `*/` of a block
/// comment, or on the newline (or the end of the input) that ends a line
/// comment. `None` where `at` begins no complete comment.
pub open spec fn comment_end(s: Seq<u8>, at: int) -> Option<int> {
    if at < 0 || at + 1 >= s.len() {
        None
    } else if s[at + 1] == 0x2f {
        match first_byte_from(s, at + 2, 0x0a) {
            Some(k) => Some(k),
            None => Some(s.len() as int),
        }
    } else if s[at + 1] == 0x2a {
        match block_comment_close(s, at + 2) {
            Some(k) => Some(k + 2),
            None => None,
        }
    } else {
        None
    }
}

/// The first byte at or after `i` that is not whitespace, with comments
/// counting as whitespace when `comments` is set.
pub open spec fn ws_end(s: Seq<u8>, i: int, comments: bool) -> int
    decreases s.len() - i,
{
    if i < 0 || i >= s.len() {
        i
    } else if spec_is_ws(s[i]) {
        ws_end(s, i + 1, comments)
    } else if comments && s[i] == 0x2f {
        match comment_end(s, i) {
            Some(j) => if i < j && j <= s.len() {
                ws_end(s, j, comments)
            } else {
                i
            },
            None => i,
        }
    } else {
        i
    }
}

/// `lit` occurs in `s` at `i`.
pub open spec fn lit_at(s: Seq<u8>, i: int, lit: Seq<u8>) -> bool {
    0 <= i && i + lit.len() <= s.len() && s.subrange(i, i + lit.len()) == lit
}

/// The string whose opening quote is at `at` holds no escape before its
/// closing quote, so that reading it borrows from the input.
pub open spec fn string_borrows(s: Seq<u8>, at: int) -> bool {
    first_stop(s, at + 1) matches Some(q) && s[q] == 0x22
}

/// The first byte at or after `from` that ends or complicates a string.
pub open spec fn first_stop(s: Seq<u8>, from: int) -> Option<int>
    decreases s.len() - from,
{
    if from < 0 || from >= s.len() {
        None
    } else if spec_needs_escape(s[from]) {
        Some(from)
    } else {
        first_stop(s, from + 1)
    }
}

/// The value of a hexadecimal digit, if `c` is one.
pub open spec fn hex_value(c: u8) -> Option<u32> {
    if 0x30 <= c <= 0x39 {
        Some((c - 0x30) as u32)
    } else if 0x61 <= c <= 0x66 {
        Some((c - 0x61 + 10) as u32)
    } else if 0x41 <= c <= 0x46 {
        Some((c - 0x41 + 10) as u32)
    } else {
        None
    }
}

/// Four hexadecimal digits at `i`.
pub open spec fn hex4(s: Seq<u8>, i: int) -> Result<u32, ErrorCode> {
    if i < 0 || i + 4 > s.len() {
        Err(ErrorCode::UnexpectedEnd)
    } else {
        match (hex_value(s[i]), hex_value(s[i + 1]), hex_value(s[i + 2]), hex_value(s[i + 3])) {
            (Some(a), Some(b), Some(c), Some(d)) => Ok((a * 4096 + b * 256 + c * 16 + d) as u32),
            _ => Err(ErrorCode::InvalidEscape),
        }
    }
}

/// `\uXXXX` starting at `i` (just past the `u`), joining a surrogate pair:
/// the scalar it names and the index after it.
pub open spec fn unicode_escape(s: Seq<u8>, i: int) -> Result<(u32, int), ErrorCode> {
    match hex4(s, i) {
        Err(e) => Err(e),
        Ok(hi) => if 0xD800 <= hi < 0xDC00 {
            if !(i + 5 < s.len() && s[i + 4] == 0x5c && s[i + 5] == 0x75) {
                Err(ErrorCode::InvalidSurrogate)
            } else {
                match hex4(s, i + 6) {
                    Err(e) => Err(e),
                    Ok(lo) => if 0xDC00 <= lo < 0xE000 {
                        Ok(((0x10000 + (hi - 0xD800) * 1024 + (lo - 0xDC00)) as u32, i + 10))
                    } else {
                        Err(ErrorCode::InvalidSurrogate)
                    },
                }
            }
        } else if 0xDC00 <= hi < 0xE000 {
            Err(ErrorCode::InvalidSurrogate)
        } else {
            Ok((hi, i + 4))
        },
    }
}

/// One escape starting at `i` (just past the backslash): the bytes it
/// stands for and the index after it.
pub open spec fn escape_at(s: Seq<u8>, i: int) -> Result<(Seq<u8>, int), ErrorCode> {
    if i < 0 || i >= s.len() {
        Err(ErrorCode::UnexpectedEnd)
    } else {
        let c = s[i];
        if c == 0x22 {
            Ok((seq![0x22u8], i + 1))
        } else if c == 0x5c {
            Ok((seq![0x5cu8], i + 1))
        } else if c == 0x2f {
            Ok((seq![0x2fu8], i + 1))
        } else if c == 0x62 {
            Ok((seq![0x08u8], i + 1))
        } else if c == 0x66 {
            Ok((seq![0x0cu8], i + 1))
        } else if c == 0x6e {
            Ok((seq![0x0au8], i + 1))
        } else if c == 0x72 {
            Ok((seq![0x0du8], i + 1))
        } else if c == 0x74 {
            Ok((seq![0x09u8], i + 1))
        } else if c == 0x75 {
            match unicode_escape(s, i + 1) {
                Err(e) => Err(e),
                Ok((cp, next)) => Ok((encode_scalar(cp), next)),
            }
        } else {
            Err(ErrorCode::InvalidEscape)
        }
    }
}

/// A string body starting at `i` (just past the opening quote): the bytes it
/// spells once unescaped, and the index after the closing quote.
#[verifier::opaque]
pub open spec fn string_body(s: Seq<u8>, i: int) -> Result<(Seq<u8>, int), ErrorCode>
    decreases s.len() - i,
{
    if i < 0 || i >= s.len() {
        Err(ErrorCode::UnexpectedEnd)
    } else if s[i] == 0x22 {
        Ok((Seq::empty(), i + 1))
    } else if s[i] == 0x5c {
        match escape_at(s, i + 1) {
            Err(e) => Err(e),
            Ok((bytes, j)) => if i < j <= s.len() {
                match string_body(s, j) {
                    Err(e) => Err(e),
                    Ok((rest, k)) => Ok((bytes + rest, k)),
                }
            } else {
                Err(ErrorCode::UnexpectedEnd)
            },
        }
    } else if s[i] < 0x20 {
        Err(ErrorCode::ControlCharacterInString)
    } else {
        match string_body(s, i + 1) {
            Err(e) => Err(e),
            Ok((rest, k)) => Ok((seq![s[i]] + rest, k)),
        }
    }
}

/// Where the body of a string starting at `i` ends, stepping over escapes
/// without expanding them.
pub open spec fn skip_body(s: Seq<u8>, i: int) -> Result<int, ErrorCode>
    decreases s.len() - i,
{
    match first_stop(s, i) {
        None => Err(ErrorCode::UnexpectedEnd),
        Some(p) => if s[p] == 0x22 {
            Ok(p + 1)
        } else if s[p] == 0x5c {
            if p + 2 > s.len() {
                Err(ErrorCode::UnexpectedEnd)
            } else if i < p + 2 {
                skip_body(s, p + 2)
            } else {
                Err(ErrorCode::UnexpectedEnd)
            }
        } else {
            Err(ErrorCode::ControlCharacterInString)
        },
    }
}

pub proof fn lemma_first_stop(s: Seq<u8>, from: int)
    requires
        0 <= from,
    ensures
        match first_stop(s, from) {
            Some(k) => from <= k < s.len() && spec_needs_escape(s[k]) && forall|j: int|
                from <= j < k ==> !spec_needs_escape(#[trigger] s[j]),
            None => forall|j: int| from <= j < s.len() ==> !spec_needs_escape(#[trigger] s[j]),
        },
    decreases s.len() - from,
{
    if from < s.len() && !spec_needs_escape(s[from]) {
        lemma_first_stop(s, from + 1);
    }
}

pub proof fn lemma_block_comment_close(s: Seq<u8>, from: int)
    requires
        0 <= from,
    ensures
        match block_comment_close(s, from) {
            Some(k) => from <= k && k + 1 < s.len() && s[k] == 0x2a && s[k + 1] == 0x2f,
            None => true,
        },
    decreases s.len() - from,
{
    if from + 1 < s.len() && !(s[from] == 0x2a && s[from + 1] == 0x2f) {
        lemma_block_comment_close(s, from + 1);
    }
}

pub proof fn lemma_comment_end(s: Seq<u8>, at: int)
    requires
        0 <= at,
    ensures
        match comment_end(s, at) {
            Some(j) => at < j <= s.len(),
            None => true,
        },
{
    if at + 1 < s.len() {
        if s[at + 1] == 0x2f {
            lemma_first_byte_from(s, at + 2, 0x0au8);
        } else if s[at + 1] == 0x2a {
            lemma_block_comment_close(s, at + 2);
        }
    }
}

pub proof fn lemma_ws_end(s: Seq<u8>, i: int, c: bool)
    requires
        0 <= i <= s.len(),
    ensures
        i <= ws_end(s, i, c) <= s.len(),
    decreases s.len() - i,
{
    if i < s.len() {
        if spec_is_ws(s[i]) {
            lemma_ws_end(s, i + 1, c);
        } else if c && s[i] == 0x2f {
            match comment_end(s, i) {
                Some(j) => if i < j && j <= s.len() {
                    lemma_ws_end(s, j, c);
                },
                None => {},
            }
        }
    }
}

pub proof fn lemma_ws_end_idem(s: Seq<u8>, i: int, c: bool)
    requires
        0 <= i <= s.len(),
    ensures
        ws_end(s, ws_end(s, i, c), c) == ws_end(s, i, c),
    decreases s.len() - i,
{
    if i < s.len() {
        if spec_is_ws(s[i]) {
            lemma_ws_end_idem(s, i + 1, c);
        } else if c && s[i] == 0x2f {
            match comment_end(s, i) {
                Some(j) => if i < j && j <= s.len() {
                    lemma_ws_end_idem(s, j, c);
                },
                None => {},
            }
        }
    }
}

/// The four bytes JSON calls whitespace.
pub fn is_ws(c: u8) -> (r: bool)
    ensures
        r == spec_is_ws(c),
{
    c == 0x20u8 || c == 0x09u8 || c == 0x0au8 || c == 0x0du8
}

/// Could this byte be part of a number or one of the three literals?
pub fn scalar_byte(c: u8) -> (r: bool)
    ensures
        r == spec_scalar_byte(c),
{
    (0x30u8 <= c && c <= 0x39u8) || (0x41u8 <= c && c <= 0x5au8) || (0x61u8 <= c && c <= 0x7au8)
        || c == 0x2du8 || c == 0x2bu8 || c == 0x2eu8
}

/// Step over one comment, `data[at]` being its `/`.
pub fn skip_comment(data: &[u8], at: usize) -> (r: Option<usize>)
    requires
        at < data@.len(),
    ensures
        r == (match comment_end(data@, at as int) {
            Some(j) => Some(j as usize),
            None => None::<usize>,
        }),
{
    let n = data.len();
    if n - at <= 1 {
        return None;
    }
    let body = at + 2;
    if data[at + 1] == 0x2fu8 {
        proof {
            lemma_first_byte_from(data@, body as int, 0x0au8);
        }
        match find_byte(data, body, 0x0au8) {
            Some(k) => Some(k),
            None => Some(n),
        }
    } else if data[at + 1] == 0x2au8 {
        let mut k = body;
        while k < n && n - k > 1
            invariant
                body <= k <= n,
                n == data@.len(),
                body == at + 2,
                at + 1 < n,
                data@[at + 1] == 0x2au8,
                block_comment_close(data@, body as int) == block_comment_close(data@, k as int),
            decreases n - k,
        {
            if data[k] == 0x2au8 && data[k + 1] == 0x2fu8 {
                proof {
                    assert(block_comment_close(data@, k as int) == Some(k as int));
                    assert(data@[at + 1] == 0x2au8);
                    assert(comment_end(data@, at as int) == Some(k + 2));
                }
                return Some(k + 2);
            }
            k += 1;
        }
        proof {
            assert(block_comment_close(data@, k as int) == None::<int>);
        }
        None
    } else {
        None
    }
}

/// First byte at or after `at` that is not whitespace.
pub fn skip_ws_at(data: &[u8], at: usize, comments: bool) -> (r: usize)
    requires
        at <= data@.len(),
    ensures
        r == ws_end(data@, at as int, comments),
{
    let mut i = at;
    while i < data.len()
        invariant
            at <= i <= data@.len(),
            ws_end(data@, at as int, comments) == ws_end(data@, i as int, comments),
        decreases data@.len() - i,
    {
        let c = data[i];
        if is_ws(c) {
            i += 1;
        } else if comments && c == 0x2fu8 {
            proof {
                lemma_comment_end(data@, i as int);
            }
            match skip_comment(data, i) {
                Some(after) => {
                    i = after;
                },
                None => {
                    proof {
                        assert(ws_end(data@, i as int, comments) == i);
                    }
                    return i;
                },
            }
        } else {
            proof {
                assert(ws_end(data@, i as int, comments) == i);
            }
            return i;
        }
    }
    i
}

/// The index of the first byte at or after `from` that ends or complicates a
/// string, with that byte.
pub fn scan_string(data: &[u8], from: usize) -> (r: Option<(usize, u8)>)
    requires
        from <= data@.len(),
    ensures
        match r {
            Some((p, c)) => first_stop(data@, from as int) == Some(p as int) && p < data@.len()
                && c == data@[p as int],
            None => first_stop(data@, from as int) is None,
        },
{
    let n = data.len();
    let mut i = from;
    while i < n
        invariant
            n == data@.len(),
            from <= i <= n,
            first_stop(data@, from as int) == first_stop(data@, i as int),
        decreases n - i,
    {
        let c = data[i];
        if needs_escape(c) {
            return Some((i, c));
        }
        i += 1;
    }
    None
}

/// A string read from the input, borrowed when it contained no escapes.
pub enum JsonStr<'de> {
    Borrowed(&'de str),
    Owned(String),
}

impl<'de> JsonStr<'de> {
    /// The bytes the string holds.
    pub open spec fn spec_bytes(&self) -> Seq<u8> {
        match self {
            JsonStr::Borrowed(s) => s.spec_bytes(),
            JsonStr::Owned(s) => encode_utf8(s@),
        }
    }

    pub fn as_str(&self) -> (r: &str)
        ensures
            r.spec_bytes() == self.spec_bytes(),
    {
        match self {
            JsonStr::Borrowed(s) => s,
            JsonStr::Owned(s) => s.as_str(),
        }
    }

    pub fn into_string(self) -> (r: String)
        ensures
            encode_utf8(r@) == self.spec_bytes(),
    {
        match self {
            JsonStr::Borrowed(s) => s.to_owned(),
            JsonStr::Owned(s) => s,
        }
    }
}

/// A cursor over a JSON document, read under the policy `O`.
pub struct Parser<'de, O: Options> {
    data: &'de [u8],
    idx: usize,
    depth: u32,
    error_key: Option<&'static str>,
    options: PhantomData<O>,
}

impl<'de> Parser<'de, Standard> {
    /// Wrap an input document, read under [`Standard`].
    pub fn new(input: &'de str) -> (p: Self)
        ensures
            p.wf(),
            p.input() == input.spec_bytes(),
            p.pos() == 0,
            p.level() == 0,
            p.err_key().is_none(),
    {
        Self::with_options(input)
    }
}

impl<'de, O: Options> Parser<'de, O> {
    /// The whole input.
    pub closed spec fn input(&self) -> Seq<u8> {
        self.data@
    }

    /// The cursor's byte offset.
    pub closed spec fn pos(&self) -> int {
        self.idx as int
    }

    /// The container nesting depth.
    pub closed spec fn level(&self) -> nat {
        self.depth as nat
    }

    /// The key attached to the failure being returned.
    pub closed spec fn err_key(&self) -> Option<&'static str> {
        self.error_key
    }

    pub closed spec fn wf(&self) -> bool {
        &&& self.idx <= self.data@.len()
        &&& self.depth <= MAX_DEPTH
        &&& valid_utf8(self.data@)
    }

    pub open spec fn settings(&self) -> Settings {
        O::spec_settings()
    }

    /// What well-formedness says of the cursor and the input.
    pub proof fn lemma_wf(&self)
        requires
            self.wf(),
        ensures
            0 <= self.pos() <= self.input().len(),
            self.pos() <= usize::MAX,
            self.input().len() <= usize::MAX,
            self.level() <= MAX_DEPTH,
            valid_utf8(self.input()),
    {
        broadcast use vstd::slice::axiom_spec_len;
        assert(vstd::slice::spec_slice_len(self.data) == self.data@.len());
    }

    /// The cursor moved and nothing else changed.
    pub open spec fn moved(&self, old: &Self, to: int) -> bool {
        &&& self.wf()
        &&& self.input() == old.input()
        &&& self.pos() == to
        &&& self.level() == old.level()
        &&& self.err_key() == old.err_key()
    }

    /// Wrap an input document, read under the policy `O`.
    pub fn with_options(input: &'de str) -> (p: Self)
        ensures
            p.wf(),
            p.input() == input.spec_bytes(),
            p.pos() == 0,
            p.level() == 0,
            p.err_key().is_none(),
    {
        proof {
            lemma_str_valid(input);
        }
        Parser { data: input.as_bytes(), idx: 0, depth: 0, error_key: None, options: PhantomData }
    }

    /// Byte offset of the cursor, used to locate errors.
    pub fn position(&self) -> (r: usize)
        ensures
            r == self.pos(),
    {
        self.idx
    }

    /// The key set for the failure being returned, if there is one.
    pub fn error_key(&self) -> (r: Option<&'static str>)
        ensures
            r == self.err_key(),
    {
        self.error_key
    }

    /// Name the key the failure about to be returned is about.
    pub fn set_error_key(&mut self, key: &'static str)
        requires
            old(self).wf(),
        ensures
            final(self).wf(),
            final(self).input() == old(self).input(),
            final(self).pos() == old(self).pos(),
            final(self).level() == old(self).level(),
            final(self).err_key() == Some(key),
    {
        self.error_key = Some(key);
    }

    /// Move the cursor back to a position it has already passed, dropping
    /// any key set for a failure. A position ahead of the cursor leaves it
    /// where it is.
    pub fn rewind(&mut self, to: usize)
        requires
            old(self).wf(),
        ensures
            final(self).wf(),
            final(self).input() == old(self).input(),
            final(self).pos() == (if (to as int) < old(self).pos() { to as int } else { old(self).pos() }),
            final(self).level() == old(self).level(),
            final(self).err_key().is_none(),
    {
        if to < self.idx {
            self.idx = to;
        }
        self.error_key = None;
    }

    /// Put the cursor back on a position it has already passed, keeping any
    /// key set for a failure.
    pub(crate) fn seek_back(&mut self, to: usize)
        requires
            old(self).wf(),
            to <= old(self).pos(),
        ensures
            final(self).moved(old(self), to as int),
    {
        self.idx = to;
    }

    /// Remaining input, starting at the cursor.
    pub fn rest(&self) -> (r: &'de [u8])
        requires
            self.wf(),
        ensures
            r@ == self.input().subrange(self.pos(), self.input().len() as int),
    {
        &self.data[self.idx..self.data.len()]
    }

    pub fn remaining(&self) -> (r: usize)
        requires
            self.wf(),
        ensures
            r == self.input().len() - self.pos(),
    {
        self.data.len() - self.idx
    }

    pub fn peek(&self) -> (r: Option<u8>)
        requires
            self.wf(),
        ensures
            r == (if self.pos() < self.input().len() { Some(self.input()[self.pos()]) } else { None::<u8> }),
    {
        if self.idx < self.data.len() {
            Some(self.data[self.idx])
        } else {
            None
        }
    }

    /// Skip JSON whitespace, and under a comment-reading policy comments.
    pub fn skip_ws(&mut self)
        requires
            old(self).wf(),
        ensures
            final(self).moved(old(self), ws_end(old(self).input(), old(self).pos(), old(self).settings().allow_comments)),
    {
        let comments = O::settings().allow_comments;
        self.idx = skip_ws_at(self.data, self.idx, comments);
        proof {
            lemma_ws_end(self.data@, old(self).idx as int, comments);
        }
    }

    /// Consume `b` if it is next.
    pub fn try_byte(&mut self, b: u8) -> (r: bool)
        requires
            old(self).wf(),
        ensures
            r == (old(self).pos() < old(self).input().len() && old(self).input()[old(self).pos()] == b),
            final(self).moved(old(self), if r { old(self).pos() + 1 } else { old(self).pos() }),
    {
        if self.idx < self.data.len() && self.data[self.idx] == b {
            self.idx += 1;
            true
        } else {
            false
        }
    }

    /// Consume `b`, or fail with `code`, or with `UnexpectedEnd` at the end
    /// of the input.
    pub fn expect(&mut self, b: u8, code: ErrorCode) -> (r: Result<(), ErrorCode>)
        requires
            old(self).wf(),
        ensures
            r == (if old(self).pos() < old(self).input().len() && old(self).input()[old(self).pos()] == b {
                Ok(())
            } else if old(self).pos() >= old(self).input().len() {
                Err(ErrorCode::UnexpectedEnd)
            } else {
                Err(code)
            }),
            final(self).moved(old(self), if r is Ok { old(self).pos() + 1 } else { old(self).pos() }),
    {
        if self.idx < self.data.len() && self.data[self.idx] == b {
            self.idx += 1;
            Ok(())
        } else if self.idx >= self.data.len() {
            Err(ErrorCode::UnexpectedEnd)
        } else {
            Err(code)
        }
    }
}

/// What reading an unsigned integer gives, and where the cursor ends up.
pub open spec fn spec_read_u64(s: Seq<u8>, i: int) -> (Result<u64, ErrorCode>, int) {
    match spec_parse_u64(s, i) {
        Err(e) => (Err(e), i),
        Ok((v, end)) => (
            if spec_float_tail(s, end as int) { Err(ErrorCode::InvalidNumber) } else { Ok(v) },
            end as int,
        ),
    }
}

/// What reading a signed integer gives, and where the cursor ends up.
pub open spec fn spec_read_i64(s: Seq<u8>, i: int) -> (Result<i64, ErrorCode>, int) {
    match spec_parse_i64(s, i) {
        Err(e) => (Err(e), i),
        Ok((v, end)) => (
            if spec_float_tail(s, end as int) { Err(ErrorCode::InvalidNumber) } else { Ok(v) },
            end as int,
        ),
    }
}

/// What reading a 128-bit unsigned integer gives, and where the cursor ends
/// up.
pub open spec fn spec_read_u128(s: Seq<u8>, i: int) -> (Result<u128, ErrorCode>, int) {
    if i < 0 || i >= s.len() || !is_digit_byte(s[i]) {
        (Err(ErrorCode::ExpectedNumber), i)
    } else if s[i] == 0x30 {
        if digit_end(s, i) > i + 1 {
            (Err(ErrorCode::InvalidNumber), i)
        } else {
            (if spec_float_tail(s, i + 1) { Err(ErrorCode::InvalidNumber) } else { Ok(0u128) }, i + 1)
        }
    } else if decimal_value(s.subrange(i, digit_end(s, i))) > u128::MAX {
        (Err(ErrorCode::NumberOutOfRange), i)
    } else {
        (
            if spec_float_tail(s, digit_end(s, i)) {
                Err(ErrorCode::InvalidNumber)
            } else {
                Ok(decimal_value(s.subrange(i, digit_end(s, i))) as u128)
            },
            digit_end(s, i),
        )
    }
}

/// What reading a 128-bit signed integer gives, and where the cursor ends up.
pub open spec fn spec_read_i128(s: Seq<u8>, i: int) -> (Result<i128, ErrorCode>, int) {
    let neg = 0 <= i < s.len() && s[i] == 0x2d;
    let at = if neg { i + 1 } else { i };
    let (r, p) = spec_read_u128(s, at);
    match r {
        Err(e) => (Err(e), p),
        Ok(m) => if neg {
            if m > 0x8000_0000_0000_0000_0000_0000_0000_0000 {
                (Err(ErrorCode::NumberOutOfRange), p)
            } else {
                (Ok((-(m as int)) as i128), p)
            }
        } else {
            if m > 0x7fff_ffff_ffff_ffff_ffff_ffff_ffff_ffff {
                (Err(ErrorCode::NumberOutOfRange), p)
            } else {
                (Ok(m as i128), p)
            }
        },
    }
}

/// What `read_bool` gives, and where the cursor ends up.
pub open spec fn spec_read_bool(s: Seq<u8>, i: int) -> (Result<bool, ErrorCode>, int) {
    if i >= s.len() {
        (Err(ErrorCode::UnexpectedEnd), i)
    } else if s[i] == 0x74 {
        if lit_at(s, i, seq![0x74u8, 0x72u8, 0x75u8, 0x65u8]) {
            (Ok(true), i + 4)
        } else {
            (Err(ErrorCode::ExpectedTrue), i)
        }
    } else if s[i] == 0x66 {
        if lit_at(s, i, seq![0x66u8, 0x61u8, 0x6cu8, 0x73u8, 0x65u8]) {
            (Ok(false), i + 5)
        } else {
            (Err(ErrorCode::ExpectedFalse), i)
        }
    } else {
        (Err(ErrorCode::UnexpectedCharacter), i)
    }
}

/// What `try_null` gives, and where the cursor ends up.
pub open spec fn spec_try_null(s: Seq<u8>, i: int) -> (Result<bool, ErrorCode>, int) {
    if i < s.len() && s[i] == 0x6e {
        if lit_at(s, i, seq![0x6eu8, 0x75u8, 0x6cu8, 0x6cu8]) {
            (Ok(true), i + 4)
        } else {
            (Err(ErrorCode::ExpectedNull), i)
        }
    } else {
        (Ok(false), i)
    }
}

/// Where `colon` leaves the cursor, and whether it found the colon.
pub open spec fn spec_colon(s: Seq<u8>, i: int, c: bool) -> (Result<(), ErrorCode>, int) {
    let a = ws_end(s, i, c);
    if a < s.len() && s[a] == 0x3a {
        (Ok(()), ws_end(s, a + 1, c))
    } else if a >= s.len() {
        (Err(ErrorCode::UnexpectedEnd), a)
    } else {
        (Err(ErrorCode::ExpectedColon), a)
    }
}

/// What `comma_or_close` gives, and where the cursor ends up.
pub open spec fn spec_comma_or_close(s: Seq<u8>, i: int, close: u8, c: bool) -> (Result<bool, ErrorCode>, int) {
    let a = ws_end(s, i, c);
    if a < s.len() && s[a] == 0x2c {
        (Ok(true), ws_end(s, a + 1, c))
    } else if a < s.len() && s[a] == close {
        (Ok(false), a + 1)
    } else if a >= s.len() {
        (Err(ErrorCode::UnexpectedEnd), a)
    } else {
        (Err(ErrorCode::ExpectedComma), a)
    }
}

/// The bytes of the number alphabet run from `i`: digits, signs, the point
/// and the exponent letter.
pub open spec fn number_byte(c: u8) -> bool {
    (0x30 <= c <= 0x39) || c == 0x2d || c == 0x2b || c == 0x2e || c == 0x65 || c == 0x45
}

pub open spec fn number_run_end(s: Seq<u8>, i: int) -> int
    decreases s.len() - i,
{
    if i < 0 || i >= s.len() || !number_byte(s[i]) {
        i
    } else {
        number_run_end(s, i + 1)
    }
}

/// What stepping over the scalar at `i` gives, and where the cursor ends up.
pub open spec fn spec_skip_scalar(s: Seq<u8>, i: int) -> (Result<(), ErrorCode>, int) {
    if i >= s.len() {
        (Err(ErrorCode::UnexpectedEnd), i)
    } else if s[i] == 0x22 {
        match skip_body(s, i + 1) {
            Ok(e) => (Ok(()), e),
            Err(e) => (Err(e), i + 1),
        }
    } else if s[i] == 0x74 {
        if lit_at(s, i, seq![0x74u8, 0x72u8, 0x75u8, 0x65u8]) {
            (Ok(()), i + 4)
        } else {
            (Err(ErrorCode::ExpectedTrue), i)
        }
    } else if s[i] == 0x66 {
        if lit_at(s, i, seq![0x66u8, 0x61u8, 0x6cu8, 0x73u8, 0x65u8]) {
            (Ok(()), i + 5)
        } else {
            (Err(ErrorCode::ExpectedFalse), i)
        }
    } else if s[i] == 0x6e {
        if lit_at(s, i, seq![0x6eu8, 0x75u8, 0x6cu8, 0x6cu8]) {
            (Ok(()), i + 4)
        } else {
            (Err(ErrorCode::ExpectedNull), i)
        }
    } else if s[i] == 0x2d || is_digit_byte(s[i]) {
        (Ok(()), number_run_end(s, i))
    } else {
        (Err(ErrorCode::UnexpectedCharacter), i)
    }
}

pub fn is_number_byte(c: u8) -> (r: bool)
    ensures
        r == number_byte(c),
{
    (0x30u8 <= c && c <= 0x39u8) || c == 0x2du8 || c == 0x2bu8 || c == 0x2eu8 || c == 0x65u8 || c == 0x45u8
}

pub proof fn lemma_number_run_end(s: Seq<u8>, i: int)
    requires
        0 <= i <= s.len(),
    ensures
        i <= number_run_end(s, i) <= s.len(),
    decreases s.len() - i,
{
    if i < s.len() && number_byte(s[i]) {
        lemma_number_run_end(s, i + 1);
    }
}

pub proof fn lemma_skip_body(s: Seq<u8>, i: int)
    requires
        0 <= i <= s.len(),
    ensures
        match skip_body(s, i) {
            Ok(e) => i < e <= s.len(),
            Err(_) => true,
        },
    decreases s.len() - i,
{
    lemma_first_stop(s, i);
    match first_stop(s, i) {
        None => {},
        Some(p) => if s[p] == 0x5c && p + 2 <= s.len() && i < p + 2 {
            lemma_skip_body(s, p + 2);
        },
    }
}

impl<'de, O: Options> Parser<'de, O> {
    /// Whitespace, `:`, whitespace. Called once per object member.
    pub fn colon(&mut self) -> (r: Result<(), ErrorCode>)
        requires
            old(self).wf(),
        ensures
            r == spec_colon(old(self).input(), old(self).pos(), old(self).settings().allow_comments).0,
            final(self).moved(old(self), spec_colon(old(self).input(), old(self).pos(), old(self).settings().allow_comments).1),
    {
        self.skip_ws();
        match self.expect(0x3au8, ErrorCode::ExpectedColon) {
            Ok(()) => {},
            Err(e) => return Err(e),
        }
        self.skip_ws();
        Ok(())
    }

    /// Consume the separator between container members: a comma, or the
    /// closing byte that ends the container.
    pub fn comma_or_close(&mut self, close: u8) -> (r: Result<bool, ErrorCode>)
        requires
            old(self).wf(),
            close != 0x2c,
        ensures
            r == spec_comma_or_close(old(self).input(), old(self).pos(), close, old(self).settings().allow_comments).0,
            final(self).moved(old(self), spec_comma_or_close(old(self).input(), old(self).pos(), close, old(self).settings().allow_comments).1),
    {
        self.skip_ws();
        if self.try_byte(0x2cu8) {
            self.skip_ws();
            return Ok(true);
        }
        if self.try_byte(close) {
            return Ok(false);
        }
        if self.idx >= self.data.len() {
            Err(ErrorCode::UnexpectedEnd)
        } else {
            Err(ErrorCode::ExpectedComma)
        }
    }

    /// Count one more level of nesting, refusing to pass the limit.
    pub fn enter(&mut self) -> (r: Result<(), ErrorCode>)
        requires
            old(self).wf(),
        ensures
            final(self).wf(),
            final(self).input() == old(self).input(),
            final(self).pos() == old(self).pos(),
            final(self).err_key() == old(self).err_key(),
            r == (if old(self).level() >= MAX_DEPTH { Err(ErrorCode::ExceededMaxDepth) } else { Ok(()) }),
            final(self).level() == (if r is Ok { old(self).level() + 1 } else { old(self).level() }),
    {
        if self.depth >= MAX_DEPTH {
            Err(ErrorCode::ExceededMaxDepth)
        } else {
            self.depth = self.depth + 1;
            Ok(())
        }
    }

    /// Count one level of nesting closed.
    pub fn leave(&mut self)
        requires
            old(self).wf(),
            old(self).level() > 0,
        ensures
            final(self).wf(),
            final(self).input() == old(self).input(),
            final(self).pos() == old(self).pos(),
            final(self).err_key() == old(self).err_key(),
            final(self).level() == old(self).level() - 1,
    {
        self.depth = self.depth - 1;
    }

    /// Confirm that the key at the cursor is exactly `key`, and step past it
    /// and its closing quote.
    pub fn match_key(&mut self, key: &str) -> (r: bool)
        requires
            old(self).wf(),
        ensures
            r == lit_at(old(self).input(), old(self).pos(), key.spec_bytes().push(0x22u8)),
            final(self).moved(old(self), if r { old(self).pos() + key.spec_bytes().len() + 1 } else { old(self).pos() }),
    {
        let k = key.as_bytes();
        let n = k.len();
        let i = self.idx;
        let data = self.data;
        let len = data.len();
        if n < len - i && data[i + n] == 0x22u8 {
            let mut j: usize = 0;
            while j < n
                invariant
                    j <= n,
                    n == k@.len(),
                    len == data@.len(),
                    i + n < len,
                    k@ == key.spec_bytes(),
                    i == old(self).idx,
                    data == old(self).data,
                    self.data == data,
                    self.idx == i,
                    self.wf(),
                    self.depth == old(self).depth,
                    self.error_key == old(self).error_key,
                    forall|t: int| 0 <= t < j ==> data@[i + t] == k@[t],
                decreases n - j,
            {
                if data[i + j] != k[j] {
                    proof {
                        assert(data@.subrange(i as int, i + n + 1)[j as int] != k@.push(0x22u8)[j as int]);
                    }
                    return false;
                }
                j += 1;
            }
            proof {
                assert(data@.subrange(i as int, i + n + 1) =~= k@.push(0x22u8));
            }
            self.idx = i + n + 1;
            true
        } else {
            proof {
                if n + 1 <= data@.len() - i {
                    assert(data@.subrange(i as int, i + n + 1)[n as int] != k@.push(0x22u8)[n as int]);
                }
            }
            false
        }
    }

    /// Consume `lit` if it is next, or fail with `code`.
    pub fn expect_lit(&mut self, lit: &[u8], code: ErrorCode) -> (r: Result<(), ErrorCode>)
        requires
            old(self).wf(),
        ensures
            r == (if lit_at(old(self).input(), old(self).pos(), lit@) { Ok(()) } else { Err(code) }),
            final(self).moved(old(self), if r is Ok { old(self).pos() + lit@.len() } else { old(self).pos() }),
    {
        let n = lit.len();
        let i = self.idx;
        let data = self.data;
        let len = data.len();
        if n > len - i {
            return Err(code);
        }
        let mut j: usize = 0;
        while j < n
            invariant
                j <= n,
                n == lit@.len(),
                len == data@.len(),
                i + n <= len,
                i == old(self).idx,
                data == old(self).data,
                self.data == data,
                self.idx == i,
                self.wf(),
                self.depth == old(self).depth,
                self.error_key == old(self).error_key,
                forall|t: int| 0 <= t < j ==> data@[i + t] == lit@[t],
            decreases n - j,
        {
            if data[i + j] != lit[j] {
                proof {
                    assert(data@.subrange(i as int, i + n)[j as int] != lit@[j as int]);
                }
                return Err(code);
            }
            j += 1;
        }
        proof {
            assert(data@.subrange(i as int, i + n) =~= lit@);
        }
        self.idx = i + n;
        Ok(())
    }

    pub fn read_bool(&mut self) -> (r: Result<bool, ErrorCode>)
        requires
            old(self).wf(),
        ensures
            r == spec_read_bool(old(self).input(), old(self).pos()).0,
            final(self).moved(old(self), spec_read_bool(old(self).input(), old(self).pos()).1),
    {
        match self.peek() {
            Some(c) => if c == 0x74u8 {
                let lit: [u8; 4] = [0x74u8, 0x72u8, 0x75u8, 0x65u8];
                proof { assert(lit@ =~= seq![0x74u8, 0x72u8, 0x75u8, 0x65u8]); }
                match self.expect_lit(&lit, ErrorCode::ExpectedTrue) {
                    Ok(()) => Ok(true),
                    Err(e) => Err(e),
                }
            } else if c == 0x66u8 {
                let lit: [u8; 5] = [0x66u8, 0x61u8, 0x6cu8, 0x73u8, 0x65u8];
                proof { assert(lit@ =~= seq![0x66u8, 0x61u8, 0x6cu8, 0x73u8, 0x65u8]); }
                match self.expect_lit(&lit, ErrorCode::ExpectedFalse) {
                    Ok(()) => Ok(false),
                    Err(e) => Err(e),
                }
            } else {
                Err(ErrorCode::UnexpectedCharacter)
            },
            None => Err(ErrorCode::UnexpectedEnd),
        }
    }

    /// Consume `null`, reporting whether it was there. Non-consuming
    /// otherwise.
    pub fn try_null(&mut self) -> (r: Result<bool, ErrorCode>)
        requires
            old(self).wf(),
        ensures
            r == spec_try_null(old(self).input(), old(self).pos()).0,
            final(self).moved(old(self), spec_try_null(old(self).input(), old(self).pos()).1),
    {
        let is_n = match self.peek() {
            Some(c) => c == 0x6eu8,
            None => false,
        };
        if is_n {
            let lit: [u8; 4] = [0x6eu8, 0x75u8, 0x6cu8, 0x6cu8];
            proof { assert(lit@ =~= seq![0x6eu8, 0x75u8, 0x6cu8, 0x6cu8]); }
            match self.expect_lit(&lit, ErrorCode::ExpectedNull) {
                Ok(()) => Ok(true),
                Err(e) => Err(e),
            }
        } else {
            Ok(false)
        }
    }

    pub fn read_u64(&mut self) -> (r: Result<u64, ErrorCode>)
        requires
            old(self).wf(),
        ensures
            r == spec_read_u64(old(self).input(), old(self).pos()).0,
            final(self).moved(old(self), spec_read_u64(old(self).input(), old(self).pos()).1),
    {
        match parse_u64(self.data, self.idx) {
            Err(e) => Err(e),
            Ok((v, end)) => {
                proof { lemma_digit_end(self.data@, self.idx as int); }
                self.idx = end;
                match reject_float_tail(self.data, end) {
                    Ok(()) => Ok(v),
                    Err(e) => Err(e),
                }
            },
        }
    }

    pub fn read_i64(&mut self) -> (r: Result<i64, ErrorCode>)
        requires
            old(self).wf(),
        ensures
            r == spec_read_i64(old(self).input(), old(self).pos()).0,
            final(self).moved(old(self), spec_read_i64(old(self).input(), old(self).pos()).1),
    {
        match parse_i64(self.data, self.idx) {
            Err(e) => Err(e),
            Ok((v, end)) => {
                proof {
                    let neg = self.idx < self.data@.len() && self.data@[self.idx as int] == 0x2du8;
                    let at = if neg { self.idx + 1 } else { self.idx as int };
                    lemma_digit_end(self.data@, at);
                }
                self.idx = end;
                match reject_float_tail(self.data, end) {
                    Ok(()) => Ok(v),
                    Err(e) => Err(e),
                }
            },
        }
    }

    /// Parse a 128-bit unsigned integer.
    pub fn read_u128(&mut self) -> (r: Result<u128, ErrorCode>)
        requires
            old(self).wf(),
        ensures
            r == spec_read_u128(old(self).input(), old(self).pos()).0,
            final(self).moved(old(self), spec_read_u128(old(self).input(), old(self).pos()).1),
    {
        let n = self.data.len();
        let start = self.idx;
        let mut i = self.idx;
        if i >= n || !is_digit(self.data[i]) {
            return Err(ErrorCode::ExpectedNumber);
        }
        proof {
            lemma_digit_end(self.data@, start as int);
        }
        if self.data[i] == 0x30u8 {
            i += 1;
            if i < n && is_digit(self.data[i]) {
                proof {
                    assert(digit_end(self.data@, start as int) == digit_end(self.data@, start + 1));
                    lemma_digit_end(self.data@, start + 1);
                }
                return Err(ErrorCode::InvalidNumber);
            }
            proof {
                assert(digit_end(self.data@, start as int) == digit_end(self.data@, start + 1));
                assert(digit_end(self.data@, start + 1) == start + 1);
            }
            self.idx = i;
            return match reject_float_tail(self.data, i) {
                Ok(()) => Ok(0),
                Err(e) => Err(e),
            };
        }
        let mut v: u128 = 0;
        let ghost e = digit_end(self.data@, start as int);
        proof {
            assert(self.data@.subrange(start as int, start as int).len() == 0);
        }
        while i < n && is_digit(self.data[i])
            invariant
                n == self.data@.len(),
                start <= i <= e,
                e == digit_end(self.data@, start as int),
                e <= n,
                forall|k: int| start <= k < e ==> is_digit_byte(#[trigger] self.data@[k]),
                e < n ==> !is_digit_byte(self.data@[e]),
                v == decimal_value(self.data@.subrange(start as int, i as int)),
                self.idx == start,
                start == old(self).idx,
                start < n,
                start < e,
                self.data@[start as int] != 0x30u8,
                self.wf(),
                self.data@ == old(self).data@,
                self.depth == old(self).depth,
                self.error_key == old(self).error_key,
            decreases n - i,
        {
            proof {
                lemma_decimal_push(self.data@, start as int, i as int);
                if i >= e {
                    assert(false);
                }
            }
            let c = self.data[i] - 0x30u8;
            let next = match v.checked_mul(10) {
                Some(x) => x.checked_add(c as u128),
                None => None,
            };
            match next {
                Some(x) => {
                    v = x;
                },
                None => {
                    proof {
                        let whole = self.data@.subrange(start as int, e);
                        assert(whole.subrange(0, i - start + 1) =~= self.data@.subrange(start as int, i + 1));
                        lemma_decimal_prefix_le(whole, i - start + 1);
                        assert(decimal_value(self.data@.subrange(start as int, i + 1)) > u128::MAX);
                        assert(decimal_value(whole) > u128::MAX);
                        assert(self.data@ == old(self).input());
                        assert(start == old(self).pos());
                        assert(spec_read_u128(old(self).input(), old(self).pos()).0 == Err::<u128, ErrorCode>(ErrorCode::NumberOutOfRange));
                    }
                    return Err(ErrorCode::NumberOutOfRange);
                },
            }
            i += 1;
        }
        proof {
            if i < e {
                assert(is_digit_byte(self.data@[i as int]));
            }
        }
        self.idx = i;
        match reject_float_tail(self.data, i) {
            Ok(()) => Ok(v),
            Err(e) => Err(e),
        }
    }

    /// Parse a 128-bit signed integer.
    pub fn read_i128(&mut self) -> (r: Result<i128, ErrorCode>)
        requires
            old(self).wf(),
        ensures
            r == spec_read_i128(old(self).input(), old(self).pos()).0,
            final(self).moved(old(self), spec_read_i128(old(self).input(), old(self).pos()).1),
    {
        let negative = match self.peek() {
            Some(c) => c == 0x2du8,
            None => false,
        };
        if negative {
            let n = self.data.len();
            proof {
                assert(self.idx < n);
            }
            self.idx = self.idx + 1;
        }
        let magnitude = match self.read_u128() {
            Ok(m) => m,
            Err(e) => return Err(e),
        };
        if negative {
            if magnitude > 0x8000_0000_0000_0000_0000_0000_0000_0000u128 {
                return Err(ErrorCode::NumberOutOfRange);
            }
            if magnitude == 0x8000_0000_0000_0000_0000_0000_0000_0000u128 {
                return Ok(i128::MIN);
            }
            Ok(-(magnitude as i128))
        } else {
            if magnitude > 0x7fff_ffff_ffff_ffff_ffff_ffff_ffff_ffffu128 {
                return Err(ErrorCode::NumberOutOfRange);
            }
            Ok(magnitude as i128)
        }
    }

    /// After the top-level value: only trailing whitespace is allowed.
    pub fn finish(&mut self) -> (r: Result<(), ErrorCode>)
        requires
            old(self).wf(),
        ensures
            final(self).moved(old(self), ws_end(old(self).input(), old(self).pos(), old(self).settings().allow_comments)),
            r == (if ws_end(old(self).input(), old(self).pos(), old(self).settings().allow_comments) == old(self).input().len() {
                Ok(())
            } else {
                Err(ErrorCode::TrailingContent)
            }),
    {
        self.skip_ws();
        if self.idx == self.data.len() {
            Ok(())
        } else {
            Err(ErrorCode::TrailingContent)
        }
    }
}

/// No byte in `[a, b)` ends or complicates a string.
pub open spec fn plain_run(s: Seq<u8>, a: int, b: int) -> bool {
    forall|k: int| a <= k < b ==> !spec_needs_escape(#[trigger] s[k])
}

/// A string body that starts with a run of plain bytes reads as that run
/// followed by whatever the rest reads as.
#[verifier::spinoff_prover]
pub proof fn lemma_plain_run(s: Seq<u8>, a: int, b: int)
    requires
        0 <= a <= b <= s.len(),
        plain_run(s, a, b),
    ensures
        string_body(s, a) == (match string_body(s, b) {
            Ok((rest, k)) => Ok((s.subrange(a, b) + rest, k)),
            Err(e) => Err(e),
        }),
    decreases b - a,
{
    reveal(string_body);
    reveal(continued);
    if a == b {
        match string_body(s, b) {
            Ok((rest, k)) => {
                assert(s.subrange(a, b) + rest =~= rest);
            },
            Err(e) => {},
        }
    } else {
        assert(!spec_needs_escape(s[a]));
        lemma_plain_run(s, a + 1, b);
        match string_body(s, b) {
            Ok((rest, k)) => {
                assert(seq![s[a]] + (s.subrange(a + 1, b) + rest) =~= s.subrange(a, b) + rest);
            },
            Err(e) => {},
        }
    }
}

/// An escape that reads always moves forward and ends on an ASCII byte.
pub proof fn lemma_escape_at(s: Seq<u8>, i: int)
    requires
        0 <= i,
    ensures
        match escape_at(s, i) {
            Ok((b, j)) => i < j <= s.len() && s[j - 1] < 0x80 && valid_utf8(b),
            Err(_) => true,
        },
{
    if 0 <= i < s.len() {
        let c = s[i];
        if c == 0x75 {
            match unicode_escape(s, i + 1) {
                Ok((cp, next)) => {
                    lemma_unicode_escape(s, i + 1);
                    lemma_scalar_valid(cp);
                },
                Err(_) => {},
            }
        } else if c == 0x22 || c == 0x5c || c == 0x2f || c == 0x62 || c == 0x66 || c == 0x6e || c
            == 0x72 || c == 0x74 {
            let b = escape_at(s, i).unwrap().0;
            assert(b.len() == 1);
            crate::text::lemma_ascii_byte_valid(b[0]);
            assert(b =~= seq![b[0]]);
        }
    }
}

pub proof fn lemma_hex_value(c: u8)
    ensures
        match hex_value(c) {
            Some(v) => v < 16 && c < 0x80,
            None => true,
        },
{
}

pub proof fn lemma_hex4(s: Seq<u8>, i: int)
    ensures
        match hex4(s, i) {
            Ok(v) => v <= 0xFFFF && 0 <= i && i + 4 <= s.len() && s[i + 3] < 0x80,
            Err(_) => true,
        },
{
    if 0 <= i && i + 4 <= s.len() {
        lemma_hex_value(s[i]);
        lemma_hex_value(s[i + 1]);
        lemma_hex_value(s[i + 2]);
        lemma_hex_value(s[i + 3]);
    }
}

pub proof fn lemma_unicode_escape(s: Seq<u8>, i: int)
    ensures
        match unicode_escape(s, i) {
            Ok((cp, next)) => is_scalar(cp) && i < next <= s.len() && s[next - 1] < 0x80,
            Err(_) => true,
        },
{
    lemma_hex4(s, i);
    lemma_hex4(s, i + 6);
}

/// The UTF-8 encoding of a Unicode scalar is valid UTF-8.
pub proof fn lemma_scalar_valid(v: u32)
    requires
        is_scalar(v),
    ensures
        valid_utf8(encode_scalar(v)),
{
    let c = v as char;
    assert(c as u32 == v);
    let cs = seq![c];
    encode_utf8_valid_utf8(cs);
    assert(cs.drop_first() =~= Seq::<char>::empty());
    assert(cs[0] == c);
    assert(encode_utf8(cs.drop_first()) =~= Seq::<u8>::empty());
    assert(encode_utf8(cs) == encode_scalar(cs[0] as u32) + encode_utf8(cs.drop_first()));
    assert(encode_utf8(cs) =~= encode_scalar(v));
}

/// The value of one hexadecimal digit.
pub fn hex_val(c: u8) -> (r: Option<u32>)
    ensures
        r == hex_value(c),
{
    if 0x30u8 <= c && c <= 0x39u8 {
        Some((c - 0x30u8) as u32)
    } else if 0x61u8 <= c && c <= 0x66u8 {
        Some((c - 0x61u8 + 10) as u32)
    } else if 0x41u8 <= c && c <= 0x46u8 {
        Some((c - 0x41u8 + 10) as u32)
    } else {
        None
    }
}

/// Append the UTF-8 encoding of a Unicode scalar.
pub fn push_scalar(cp: u32, out: &mut Vec<u8>)
    requires
        is_scalar(cp),
    ensures
        final(out)@ == old(out)@ + encode_scalar(cp),
{
    if cp <= 0x7F {
        out.push((cp & 0x7F) as u8);
    } else if cp <= 0x7FF {
        out.push(0xC0u8 | ((cp >> 6) & 0x1F) as u8);
        out.push(0x80u8 | (cp & 0x3F) as u8);
    } else if cp <= 0xFFFF {
        out.push(0xE0u8 | ((cp >> 12) & 0x0F) as u8);
        out.push(0x80u8 | ((cp >> 6) & 0x3F) as u8);
        out.push(0x80u8 | (cp & 0x3F) as u8);
    } else {
        out.push(0xF0u8 | ((cp >> 18) & 0x7) as u8);
        out.push(0x80u8 | ((cp >> 12) & 0x3F) as u8);
        out.push(0x80u8 | ((cp >> 6) & 0x3F) as u8);
        out.push(0x80u8 | (cp & 0x3F) as u8);
    }
    proof {
        assert(final(out)@ =~= old(out)@ + encode_scalar(cp));
    }
}

impl<'de, O: Options> Parser<'de, O> {
    /// Four hexadecimal digits at `i`.
    fn read_hex4(&self, i: usize) -> (r: Result<u32, ErrorCode>)
        requires
            self.wf(),
        ensures
            r == hex4(self.input(), i as int),
    {
        if i > self.data.len() || self.data.len() - i < 4 {
            return Err(ErrorCode::UnexpectedEnd);
        }
        let a = hex_val(self.data[i]);
        let b = hex_val(self.data[i + 1]);
        let c = hex_val(self.data[i + 2]);
        let d = hex_val(self.data[i + 3]);
        match (a, b, c, d) {
            (Some(a), Some(b), Some(c), Some(d)) => Ok(a * 4096 + b * 256 + c * 16 + d),
            _ => Err(ErrorCode::InvalidEscape),
        }
    }

    /// Decode `\uXXXX` at `i` (just past the `u`), joining a surrogate pair
    /// when one is present.
    fn read_unicode_escape(&self, i: usize) -> (r: Result<(u32, usize), ErrorCode>)
        requires
            self.wf(),
            i <= self.input().len(),
        ensures
            r == (match unicode_escape(self.input(), i as int) {
                Ok((cp, next)) => Ok((cp, next as usize)),
                Err(e) => Err(e),
            }),
    {
        proof {
            lemma_unicode_escape(self.data@, i as int);
            lemma_hex4(self.data@, i as int);
        }
        let n = self.data.len();
        let hi = match self.read_hex4(i) {
            Ok(v) => v,
            Err(e) => return Err(e),
        };
        let next = i + 4;
        if 0xD800 <= hi && hi < 0xDC00 {
            if !(n - next > 1 && self.data[next] == 0x5cu8 && self.data[next + 1] == 0x75u8) {
                return Err(ErrorCode::InvalidSurrogate);
            }
            proof {
                lemma_hex4(self.data@, i + 6);
            }
            let lo = match self.read_hex4(next + 2) {
                Ok(v) => v,
                Err(e) => return Err(e),
            };
            if !(0xDC00 <= lo && lo < 0xE000) {
                return Err(ErrorCode::InvalidSurrogate);
            }
            let cp = 0x10000 + (hi - 0xD800) * 1024 + (lo - 0xDC00);
            return Ok((cp, next + 6));
        }
        if 0xDC00 <= hi && hi < 0xE000 {
            return Err(ErrorCode::InvalidSurrogate);
        }
        Ok((hi, next))
    }

    /// Expand one escape starting at `i` (just past the backslash), returning
    /// the index of the first byte after it.
    fn expand_escape(&self, i: usize, out: &mut Vec<u8>) -> (r: Result<usize, ErrorCode>)
        requires
            self.wf(),
            i <= self.input().len(),
        ensures
            match escape_at(self.input(), i as int) {
                Ok((b, j)) => r == Ok::<usize, ErrorCode>(j as usize) && final(out)@ == old(out)@ + b,
                Err(e) => r == Err::<usize, ErrorCode>(e) && final(out)@ == old(out)@,
            },
    {
        if i >= self.data.len() {
            return Err(ErrorCode::UnexpectedEnd);
        }
        let c = self.data[i];
        let simple: u8 = if c == 0x22u8 {
            0x22u8
        } else if c == 0x5cu8 {
            0x5cu8
        } else if c == 0x2fu8 {
            0x2fu8
        } else if c == 0x62u8 {
            0x08u8
        } else if c == 0x66u8 {
            0x0cu8
        } else if c == 0x6eu8 {
            0x0au8
        } else if c == 0x72u8 {
            0x0du8
        } else if c == 0x74u8 {
            0x09u8
        } else if c == 0x75u8 {
            proof {
                lemma_unicode_escape(self.data@, i + 1);
            }
            let (cp, next) = match self.read_unicode_escape(i + 1) {
                Ok(p) => p,
                Err(e) => return Err(e),
            };
            push_scalar(cp, out);
            return Ok(next);
        } else {
            return Err(ErrorCode::InvalidEscape);
        };
        out.push(simple);
        proof {
            assert(final(out)@ =~= old(out)@ + seq![simple]);
        }
        Ok(i + 1)
    }

    /// Step past a string body whose opening quote is already consumed,
    /// without materializing it. The cursor stays put on failure.
    pub fn skip_string_body(&mut self) -> (r: Result<(), ErrorCode>)
        requires
            old(self).wf(),
        ensures
            match skip_body(old(self).input(), old(self).pos()) {
                Ok(e) => r == Ok::<(), ErrorCode>(()) && final(self).moved(old(self), e),
                Err(e) => r == Err::<(), ErrorCode>(e) && final(self).moved(old(self), old(self).pos()),
            },
    {
        let mut i = self.idx;
        let n = self.data.len();
        while i <= n
            invariant
                old(self).idx <= i <= n,
                n == self.data@.len(),
                self.data == old(self).data,
                self.idx == old(self).idx,
                self.depth == old(self).depth,
                self.error_key == old(self).error_key,
                self.wf(),
                skip_body(self.data@, old(self).idx as int) == skip_body(self.data@, i as int),
            decreases n + 1 - i,
        {
            proof {
                lemma_first_stop(self.data@, i as int);
            }
            match scan_string(self.data, i) {
                Some((pos, c)) => {
                    if c == 0x22u8 {
                        self.idx = pos + 1;
                        return Ok(());
                    } else if c == 0x5cu8 {
                        if n - pos < 2 {
                            return Err(ErrorCode::UnexpectedEnd);
                        }
                        i = pos + 2;
                    } else {
                        return Err(ErrorCode::ControlCharacterInString);
                    }
                },
                None => return Err(ErrorCode::UnexpectedEnd),
            }
        }
        proof {
            assert(false);
        }
        Err(ErrorCode::UnexpectedEnd)
    }

    /// Expand a string containing escapes into `out`: the plain run from
    /// `start` to the backslash at `first`, then each escape and each run
    /// after it, up to the closing quote. The cursor moves only on success.
    #[verifier::rlimit(60)]
    fn unescape_into(&mut self, start: usize, first: usize, out: &mut Vec<u8>) -> (r: Result<(), ErrorCode>)
        requires
            old(self).wf(),
            old(self).pos() == start,
            start <= first < old(self).input().len(),
            old(self).input()[first as int] == 0x5c,
            plain_run(old(self).input(), start as int, first as int),
            at_boundary(old(self).input(), start as int),
            valid_utf8(old(out)@),
        ensures
            valid_utf8(final(out)@),
            match string_body(old(self).input(), start as int) {
                Ok((b, k)) => r == Ok::<(), ErrorCode>(()) && final(out)@ == old(out)@ + b
                    && final(self).moved(old(self), k),
                Err(e) => r == Err::<(), ErrorCode>(e) && final(self).moved(old(self), old(self).pos()),
            },
    {
        let ghost s = self.data@;
        let n = self.data.len();
        proof {
            lemma_continued_start(s, start as int);
            lemma_continue_run(s, start as int, first as int, Seq::empty());
            is_char_boundary_iff_not_is_continuation_byte(s, first as int);
            assert(Seq::<u8>::empty() + s.subrange(start as int, first as int) =~= s.subrange(start as int, first as int));
        }
        let ghost before = out@;
        out.extend_from_slice(&self.data[start..first]);
        proof {
            assert(out@ =~= before + s.subrange(start as int, first as int));
            crate::text::lemma_extend_slice_valid(s, start as int, first as int, before, out@);
        }
        let ghost mut acc = s.subrange(start as int, first as int);
        proof {
            lemma_continue_escape(s, first as int, acc);
        }
        let ghost mid0 = out@;
        let mut i = match self.expand_escape(first + 1, out) {
            Ok(j) => j,
            Err(e) => return Err(e),
        };
        proof {
            lemma_escape_at(s, first + 1);
            let b = escape_at(s, first + 1).unwrap().0;
            crate::text::lemma_extend_valid(mid0, b, out@);
            lemma_after_ascii(s, i - 1);
            acc = acc + b;
            assert(out@ =~= old(out)@ + acc);
        }
        loop
            invariant
                n == s.len(),
                s == self.data@,
                self.data == old(self).data,
                self.idx == old(self).idx,
                self.depth == old(self).depth,
                self.error_key == old(self).error_key,
                self.wf(),
                first < i <= n,
                at_boundary(s, i as int),
                valid_utf8(out@),
                out@ == old(out)@ + acc,
                string_body(s, start as int) == continued(s, i as int, acc),
            decreases n - i,
        {
            proof {
                lemma_first_stop(s, i as int);
            }
            let stop = match scan_string(self.data, i) {
                Some((pos, _)) => pos,
                None => {
                    proof {
                        lemma_continue_run(s, i as int, n as int, acc);
                    }
                    return Err(ErrorCode::UnexpectedEnd);
                },
            };
            proof {
                lemma_continue_run(s, i as int, stop as int, acc);
                is_char_boundary_iff_not_is_continuation_byte(s, stop as int);
            }
            let ghost mid = out@;
            out.extend_from_slice(&self.data[i..stop]);
            proof {
                assert(out@ =~= mid + s.subrange(i as int, stop as int));
                crate::text::lemma_extend_slice_valid(s, i as int, stop as int, mid, out@);
                acc = acc + s.subrange(i as int, stop as int);
                assert(out@ =~= old(out)@ + acc);
            }
            let c = self.data[stop];
            if c == 0x22u8 {
                self.idx = stop + 1;
                proof {
                    lemma_continued_quote(s, stop as int, acc);
                }
                return Ok(());
            } else if c == 0x5cu8 {
                proof {
                    lemma_continue_escape(s, stop as int, acc);
                }
                let ghost mid2 = out@;
                i = match self.expand_escape(stop + 1, out) {
                    Ok(j) => j,
                    Err(e) => return Err(e),
                };
                proof {
                    lemma_escape_at(s, stop + 1);
                    let b = escape_at(s, stop + 1).unwrap().0;
                    crate::text::lemma_extend_valid(mid2, b, out@);
                    lemma_after_ascii(s, i - 1);
                    acc = acc + b;
                    assert(out@ =~= old(out)@ + acc);
                }
            } else {
                proof {
                    lemma_continued_control(s, stop as int, acc);
                }
                return Err(ErrorCode::ControlCharacterInString);
            }
        }
    }
}

/// What the rest of a string body from `i` reads as, after `acc` has been
/// read already.
#[verifier::opaque]
pub open spec fn continued(s: Seq<u8>, i: int, acc: Seq<u8>) -> Result<(Seq<u8>, int), ErrorCode> {
    match string_body(s, i) {
        Ok((rest, k)) => Ok((acc + rest, k)),
        Err(e) => Err(e),
    }
}

pub proof fn lemma_continued_start(s: Seq<u8>, i: int)
    ensures
        string_body(s, i) == continued(s, i, Seq::empty()),
{
    reveal(string_body);
    reveal(continued);
    match string_body(s, i) {
        Ok((rest, k)) => {
            assert(Seq::<u8>::empty() + rest =~= rest);
        },
        Err(_) => {},
    }
}

#[verifier::spinoff_prover]
pub proof fn lemma_continue_run(s: Seq<u8>, a: int, b: int, acc: Seq<u8>)
    requires
        0 <= a <= b <= s.len(),
        plain_run(s, a, b),
    ensures
        continued(s, a, acc) == continued(s, b, acc + s.subrange(a, b)),
        b == s.len() ==> continued(s, a, acc) == Err::<(Seq<u8>, int), ErrorCode>(ErrorCode::UnexpectedEnd),
{
    reveal(string_body);
    reveal(continued);
    lemma_plain_run(s, a, b);
    match string_body(s, b) {
        Ok((rest, k)) => {
            assert(acc + (s.subrange(a, b) + rest) =~= (acc + s.subrange(a, b)) + rest);
        },
        Err(_) => {},
    }
}

pub proof fn lemma_continue_escape(s: Seq<u8>, p: int, acc: Seq<u8>)
    requires
        0 <= p < s.len(),
        s[p] == 0x5c,
    ensures
        match escape_at(s, p + 1) {
            Ok((b, j)) => continued(s, p, acc) == continued(s, j, acc + b),
            Err(e) => continued(s, p, acc) == Err::<(Seq<u8>, int), ErrorCode>(e),
        },
{
    reveal(string_body);
    reveal(continued);
    lemma_escape_at(s, p + 1);
    match escape_at(s, p + 1) {
        Ok((b, j)) => {
            match string_body(s, j) {
                Ok((rest, k)) => {
                    assert(acc + (b + rest) =~= (acc + b) + rest);
                },
                Err(_) => {},
            }
        },
        Err(_) => {},
    }
}

pub proof fn lemma_continued_quote(s: Seq<u8>, p: int, acc: Seq<u8>)
    requires
        0 <= p < s.len(),
        s[p] == 0x22,
    ensures
        continued(s, p, acc) == Ok::<(Seq<u8>, int), ErrorCode>((acc, p + 1)),
{
    reveal(string_body);
    reveal(continued);
    assert(acc + Seq::<u8>::empty() =~= acc);
}

pub proof fn lemma_continued_control(s: Seq<u8>, p: int, acc: Seq<u8>)
    requires
        0 <= p < s.len(),
        s[p] != 0x22,
        s[p] != 0x5c,
        spec_needs_escape(s[p]),
    ensures
        continued(s, p, acc) == Err::<(Seq<u8>, int), ErrorCode>(ErrorCode::ControlCharacterInString),
{
    reveal(string_body);
    reveal(continued);
}

/// A string body read successfully ends past where it began, within the
/// input.
pub proof fn lemma_string_body_progress(s: Seq<u8>, i: int)
    requires
        0 <= i,
    ensures
        match string_body(s, i) {
            Ok((_, k)) => i < k <= s.len(),
            Err(_) => true,
        },
    decreases s.len() - i,
{
    reveal(string_body);
    if i < s.len() {
        if s[i] == 0x22 {
        } else if s[i] == 0x5c {
            match escape_at(s, i + 1) {
                Ok((_, j)) => if i < j <= s.len() {
                    lemma_string_body_progress(s, j);
                },
                Err(_) => {},
            }
        } else if s[i] >= 0x20 {
            lemma_string_body_progress(s, i + 1);
        }
    }
}

pub proof fn lemma_body_quote(s: Seq<u8>, a: int, p: int)
    requires
        0 <= a <= p < s.len(),
        plain_run(s, a, p),
        s[p] == 0x22,
    ensures
        string_body(s, a) == Ok::<(Seq<u8>, int), ErrorCode>((s.subrange(a, p), p + 1)),
{
    lemma_continued_start(s, a);
    lemma_continue_run(s, a, p, Seq::empty());
    lemma_continued_quote(s, p, Seq::<u8>::empty() + s.subrange(a, p));
    reveal(continued);
    assert(Seq::<u8>::empty() + s.subrange(a, p) =~= s.subrange(a, p));
}

pub proof fn lemma_body_control(s: Seq<u8>, a: int, p: int)
    requires
        0 <= a <= p < s.len(),
        plain_run(s, a, p),
        s[p] != 0x22,
        s[p] != 0x5c,
        spec_needs_escape(s[p]),
    ensures
        string_body(s, a) == Err::<(Seq<u8>, int), ErrorCode>(ErrorCode::ControlCharacterInString),
{
    lemma_continued_start(s, a);
    lemma_continue_run(s, a, p, Seq::empty());
    lemma_continued_control(s, p, Seq::<u8>::empty() + s.subrange(a, p));
}

pub proof fn lemma_body_unterminated(s: Seq<u8>, a: int)
    requires
        0 <= a <= s.len(),
        plain_run(s, a, s.len() as int),
    ensures
        string_body(s, a) == Err::<(Seq<u8>, int), ErrorCode>(ErrorCode::UnexpectedEnd),
{
    lemma_continued_start(s, a);
    lemma_continue_run(s, a, s.len() as int, Seq::empty());
}

/// What `read_str` gives and where it leaves the cursor: the string at `i`
/// when it holds no escape.
pub open spec fn spec_read_str(s: Seq<u8>, i: int) -> (Result<Seq<u8>, ErrorCode>, int) {
    if !(0 <= i < s.len() && s[i] == 0x22) {
        (Err(if i >= s.len() { ErrorCode::UnexpectedEnd } else { ErrorCode::ExpectedQuote }), i)
    } else {
        match first_stop(s, i + 1) {
            None => (Err(ErrorCode::UnexpectedEnd), i + 1),
            Some(p) => if s[p] == 0x22 {
                (Ok(s.subrange(i + 1, p)), p + 1)
            } else if s[p] == 0x5c {
                (Err(ErrorCode::EscapeInBorrowedString), i + 1)
            } else {
                (Err(ErrorCode::ControlCharacterInString), i + 1)
            },
        }
    }
}

/// What reading a whole string at `i` gives: its unescaped bytes, and the
/// index after its closing quote.
pub open spec fn spec_read_string(s: Seq<u8>, i: int) -> (Result<Seq<u8>, ErrorCode>, int) {
    if !(0 <= i < s.len() && s[i] == 0x22) {
        (Err(if i >= s.len() { ErrorCode::UnexpectedEnd } else { ErrorCode::ExpectedQuote }), i)
    } else {
        match string_body(s, i + 1) {
            Ok((b, k)) => (Ok(b), k),
            Err(e) => (Err(e), i + 1),
        }
    }
}

impl<'de, O: Options> Parser<'de, O> {
    /// Read a string whose opening quote has already been consumed: borrowed
    /// when it holds no escape, expanded into a `String` when it does.
    pub fn read_string_body(&mut self) -> (r: Result<JsonStr<'de>, ErrorCode>)
        requires
            old(self).wf(),
            at_boundary(old(self).input(), old(self).pos()),
        ensures
            match string_body(old(self).input(), old(self).pos()) {
                Ok((b, k)) => r is Ok && r.unwrap().spec_bytes() == b && final(self).moved(old(self), k),
                Err(e) => r == Err::<JsonStr<'de>, ErrorCode>(e) && final(self).moved(old(self), old(self).pos()),
            },
            r matches Ok(v) ==> (v is Borrowed <==> (first_stop(old(self).input(), old(self).pos()) matches Some(q)
                && old(self).input()[q] == 0x22)),
    {
        let start = self.idx;
        let data: &'de [u8] = self.data;
        proof {
            lemma_first_stop(data@, start as int);
        }
        match scan_string(data, start) {
            Some((pos, c)) => {
                let n = data.len();
                proof {
                    assert(first_stop(data@, start as int) == Some(pos as int));
                    assert(c == data@[pos as int]);
                    assert(pos < n);
                }
                if c == 0x22u8 {
                    proof {
                        lemma_body_quote(data@, start as int, pos as int);
                        is_char_boundary_iff_not_is_continuation_byte(data@, pos as int);
                        lemma_slice_valid(data@, start as int, pos as int);
                    }
                    let slice: &'de [u8] = &data[start..pos];
                    match str_from_utf8(slice) {
                        Ok(text) => {
                            self.idx = pos + 1;
                            Ok(JsonStr::Borrowed(text))
                        },
                        Err(_) => {
                            proof {
                                assert(false);
                            }
                            Err(ErrorCode::InvalidUtf8)
                        },
                    }
                } else if c == 0x5cu8 {
                    let mut out: Vec<u8> = Vec::new();
                    proof {
                        crate::text::lemma_empty_valid();
                        assert(out@ =~= Seq::<u8>::empty());
                    }
                    match self.unescape_into(start, pos, &mut out) {
                        Ok(()) => {
                            proof {
                                assert(out@ =~= string_body(data@, start as int).unwrap().0);
                            }
                            Ok(JsonStr::Owned(crate::text::bytes_into_string(out)))
                        },
                        Err(e) => Err(e),
                    }
                } else {
                    proof {
                        lemma_body_control(data@, start as int, pos as int);
                    }
                    Err(ErrorCode::ControlCharacterInString)
                }
            },
            None => {
                proof {
                    lemma_body_unterminated(data@, start as int);
                }
                Err(ErrorCode::UnexpectedEnd)
            },
        }
    }

    /// Read a complete JSON string, including its quotes.
    pub fn read_string(&mut self) -> (r: Result<JsonStr<'de>, ErrorCode>)
        requires
            old(self).wf(),
        ensures
            match spec_read_string(old(self).input(), old(self).pos()) {
                (Ok(b), k) => r is Ok && r.unwrap().spec_bytes() == b && final(self).moved(old(self), k),
                (Err(e), k) => r == Err::<JsonStr<'de>, ErrorCode>(e) && final(self).moved(old(self), k),
            },
            r matches Ok(v) ==> (v is Borrowed <==> string_borrows(old(self).input(), old(self).pos())),
    {
        match self.expect(0x22u8, ErrorCode::ExpectedQuote) {
            Ok(()) => {},
            Err(e) => return Err(e),
        }
        proof {
            lemma_after_ascii(self.data@, self.idx - 1);
        }
        self.read_string_body()
    }

    /// Read a string into an existing `String`, replacing its contents. On
    /// failure `out` is left as it was.
    pub fn read_string_into(&mut self, out: &mut String) -> (r: Result<(), ErrorCode>)
        requires
            old(self).wf(),
        ensures
            match spec_read_string(old(self).input(), old(self).pos()) {
                (Ok(b), k) => r is Ok && encode_utf8(final(out)@) == b && final(self).moved(old(self), k),
                (Err(e), k) => r == Err::<(), ErrorCode>(e) && final(out)@ == old(out)@ && final(self).moved(old(self), k),
            },
    {
        match self.read_string() {
            Ok(js) => {
                *out = js.into_string();
                Ok(())
            },
            Err(e) => Err(e),
        }
    }

    /// Borrow a string slice directly out of the input, refusing one that
    /// holds an escape.
    pub fn read_str(&mut self) -> (r: Result<&'de str, ErrorCode>)
        requires
            old(self).wf(),
        ensures
            match spec_read_str(old(self).input(), old(self).pos()) {
                (Ok(b), k) => r is Ok && r.unwrap().spec_bytes() == b && final(self).moved(old(self), k),
                (Err(e), k) => r == Err::<&'de str, ErrorCode>(e) && final(self).moved(old(self), k),
            },
    {
        match self.expect(0x22u8, ErrorCode::ExpectedQuote) {
            Ok(()) => {},
            Err(e) => return Err(e),
        }
        let start = self.idx;
        let data: &'de [u8] = self.data;
        proof {
            lemma_after_ascii(data@, start - 1);
            lemma_first_stop(data@, start as int);
        }
        match scan_string(data, start) {
            Some((pos, c)) => {
                let n = data.len();
                proof {
                    assert(first_stop(data@, start as int) == Some(pos as int));
                    assert(c == data@[pos as int]);
                    assert(pos < n);
                }
                if c == 0x22u8 {
                    proof {
                        is_char_boundary_iff_not_is_continuation_byte(data@, pos as int);
                        lemma_slice_valid(data@, start as int, pos as int);
                    }
                    let slice: &'de [u8] = &data[start..pos];
                    match str_from_utf8(slice) {
                        Ok(text) => {
                            self.idx = pos + 1;
                            Ok(text)
                        },
                        Err(_) => {
                            proof {
                                assert(false);
                            }
                            Err(ErrorCode::InvalidUtf8)
                        },
                    }
                } else if c == 0x5cu8 {
                    Err(ErrorCode::EscapeInBorrowedString)
                } else {
                    Err(ErrorCode::ControlCharacterInString)
                }
            },
            None => Err(ErrorCode::UnexpectedEnd),
        }
    }

    /// The text of the number at the cursor, held to the JSON number
    /// grammar, for a type this crate does not convert to itself.
    pub fn read_number_str(&mut self) -> (r: Result<&'de str, ErrorCode>)
        requires
            old(self).wf(),
            old(self).input().len() < 0x4000_0000_0000_0000,
        ensures
            match spec_scan(old(self).input(), old(self).pos()) {
                Ok((_, end)) => r matches Ok(t) && t.spec_bytes() == old(self).input().subrange(
                    old(self).pos(),
                    end as int,
                ) && final(self).moved(old(self), end as int),
                Err(e) => r == Err::<&'de str, ErrorCode>(e) && final(self).moved(old(self), old(self).pos()),
            },
    {
        let start = self.idx;
        let data: &'de [u8] = self.data;
        proof {
            self.lemma_wf();
            lemma_scan_ascii(data@, start as int);
        }
        match scan_number(data, start) {
            Ok(end) => {
                proof {
                    let t = data@.subrange(start as int, end as int);
                    assert(all_ascii(t)) by {
                        assert forall|k: int| 0 <= k < t.len() implies #[trigger] t[k] < 0x80 by {
                            assert(t[k] == data@[start + k]);
                        }
                    }
                    lemma_ascii_valid(t);
                }
                let slice: &'de [u8] = &data[start..end];
                match str_from_utf8(slice) {
                    Ok(text) => {
                        self.idx = end;
                        Ok(text)
                    },
                    Err(_) => {
                        proof {
                            assert(false);
                        }
                        Err(ErrorCode::InvalidUtf8)
                    },
                }
            },
            Err(e) => Err(e),
        }
    }

    /// Step over a scalar already at the cursor: a string, a number, or one
    /// of the three literals. A number is stepped over by its alphabet
    /// rather than held to the grammar.
    pub fn skip_scalar(&mut self) -> (r: Result<(), ErrorCode>)
        requires
            old(self).wf(),
        ensures
            r == spec_skip_scalar(old(self).input(), old(self).pos()).0,
            final(self).moved(old(self), spec_skip_scalar(old(self).input(), old(self).pos()).1),
    {
        let n = self.data.len();
        if self.idx >= n {
            return Err(ErrorCode::UnexpectedEnd);
        }
        let c = self.data[self.idx];
        if c == 0x22u8 {
            self.idx = self.idx + 1;
            let r = self.skip_string_body();
            proof {
                assert(self.input() == old(self).input());
                assert(self.level() == old(self).level());
                assert(self.err_key() == old(self).err_key());
            }
            r
        } else if c == 0x74u8 {
            let lit: [u8; 4] = [0x74u8, 0x72u8, 0x75u8, 0x65u8];
            proof { assert(lit@ =~= seq![0x74u8, 0x72u8, 0x75u8, 0x65u8]); }
            self.expect_lit(&lit, ErrorCode::ExpectedTrue)
        } else if c == 0x66u8 {
            let lit: [u8; 5] = [0x66u8, 0x61u8, 0x6cu8, 0x73u8, 0x65u8];
            proof { assert(lit@ =~= seq![0x66u8, 0x61u8, 0x6cu8, 0x73u8, 0x65u8]); }
            self.expect_lit(&lit, ErrorCode::ExpectedFalse)
        } else if c == 0x6eu8 {
            let lit: [u8; 4] = [0x6eu8, 0x75u8, 0x6cu8, 0x6cu8];
            proof { assert(lit@ =~= seq![0x6eu8, 0x75u8, 0x6cu8, 0x6cu8]); }
            self.expect_lit(&lit, ErrorCode::ExpectedNull)
        } else if c == 0x2du8 || is_digit(c) {
            let data = self.data;
            let mut i = self.idx;
            while i < n && is_number_byte(data[i])
                invariant
                    old(self).idx <= i <= n,
                    n == data@.len(),
                    data@ == old(self).input(),
                    number_run_end(data@, old(self).idx as int) == number_run_end(data@, i as int),
                decreases n - i,
            {
                i += 1;
            }
            self.idx = i;
            Ok(())
        } else {
            Err(ErrorCode::UnexpectedCharacter)
        }
    }
}

} // verus!

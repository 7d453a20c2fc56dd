//! The output buffer.
//!
//! [`Writer`] appends JSON text to a `Vec<u8>`. Every append keeps the text it
//! produced valid UTF-8, which is what lets [`Writer::into_string`] hand the
//! buffer back as a `String`.
use core::marker::PhantomData;
use vstd::prelude::*;
use vstd::utf8::*;
use vstd::string::StringSliceAdditionalSpecFns;
use crate::error::ErrorCode;
use crate::json::parser::{hex4, hex_value, spec_read_string, string_body, unicode_escape};
use crate::options::{Options, Settings};
use crate::num::itoa::{decimal_digits, write_u64, write_u128_digits, lemma_decimal_digits_ascii};
use crate::num::dtoa::{f32_text, f64_text, float_text, lemma_spelled_ascii, spells_float, zero_text, MAX_FIXED_F32, MAX_FIXED_F64};
use crate::swar::{needs_escape, spec_needs_escape};
use crate::text::{all_ascii, at_boundary, bytes_into_string, lemma_after_ascii, lemma_ascii_byte_valid, lemma_ascii_valid, lemma_concat_valid, lemma_slice_valid, lemma_str_valid};

verus! {

/// `n` spaces.
pub open spec fn spaces(n: nat) -> Seq<u8> {
    Seq::new(n, |_k: int| 0x20u8)
}

/// How many spaces indent a line at `depth`, clamped to the address space.
pub open spec fn indent_width(depth: nat, indent: usize) -> nat {
    if depth * indent > usize::MAX {
        usize::MAX as nat
    } else {
        (depth * indent) as nat
    }
}

/// The line break and indentation written before a member or element under
/// an indenting policy, and nothing under a compact one.
pub open spec fn line_text(depth: nat, s: Settings) -> Seq<u8> {
    if s.pretty {
        seq![0x0au8] + spaces(indent_width(depth, s.indent))
    } else {
        Seq::empty()
    }
}

/// Whether a container opened or closed with `bracket` puts its contents on
/// lines of their own.
pub open spec fn spec_breaks_lines(bracket: u8, s: Settings) -> bool {
    s.pretty && (s.new_lines_in_arrays || bracket == 0x7b || bracket == 0x7d)
}

/// How one byte of a string is spelled inside JSON quotes.
pub open spec fn escape_byte(c: u8) -> Seq<u8> {
    if c == 0x22 {
        seq![0x5cu8, 0x22u8]
    } else if c == 0x5c {
        seq![0x5cu8, 0x5cu8]
    } else if c == 0x08 {
        seq![0x5cu8, 0x62u8]
    } else if c == 0x0c {
        seq![0x5cu8, 0x66u8]
    } else if c == 0x0a {
        seq![0x5cu8, 0x6eu8]
    } else if c == 0x0d {
        seq![0x5cu8, 0x72u8]
    } else if c == 0x09 {
        seq![0x5cu8, 0x74u8]
    } else if c < 0x20 {
        seq![0x5cu8, 0x75u8, 0x30u8, 0x30u8, hex_digit(c / 16), hex_digit(c % 16)]
    } else {
        seq![c]
    }
}

/// A lower-case hexadecimal digit.
pub open spec fn hex_digit(v: u8) -> u8 {
    if v < 10 {
        (0x30 + v) as u8
    } else {
        (0x61 + v - 10) as u8
    }
}

/// A string's bytes as they appear between JSON quotes.
pub open spec fn escape_bytes(s: Seq<u8>) -> Seq<u8>
    decreases s.len(),
{
    if s.len() == 0 {
        Seq::empty()
    } else {
        escape_bytes(s.drop_last()) + escape_byte(s.last())
    }
}

/// A whole JSON string: quotes around the escaped bytes.
pub open spec fn quoted(s: Seq<u8>) -> Seq<u8> {
    seq![0x22u8] + escape_bytes(s) + seq![0x22u8]
}

/// The text of a JSON boolean.
pub open spec fn bool_text(v: bool) -> Seq<u8> {
    if v {
        seq![0x74u8, 0x72u8, 0x75u8, 0x65u8]
    } else {
        seq![0x66u8, 0x61u8, 0x6cu8, 0x73u8, 0x65u8]
    }
}

/// The level inside a container opened with `bracket` at `level`.
pub open spec fn inner_level(bracket: u8, level: nat, s: Settings) -> nat {
    if spec_breaks_lines(bracket, s) && level < usize::MAX { level + 1 } else { level }
}

/// What closing a container over `buf` leaves, at indentation `depth`: the
/// bracket over the final comma, on a line of its own where the policy
/// breaks lines, or after an empty body.
pub open spec fn closed_text(buf: Seq<u8>, bracket: u8, depth: nat, s: Settings) -> Seq<u8> {
    let comma = buf.len() > 0 && buf.last() == 0x2c;
    if spec_breaks_lines(bracket, s) {
        if comma {
            buf.drop_last() + line_text(depth, s) + seq![bracket]
        } else {
            buf.push(bracket)
        }
    } else if comma {
        buf.drop_last().push(bracket)
    } else {
        buf.push(bracket)
    }
}

/// Closing over a prefix and a non-empty tail is closing over the tail.
pub proof fn lemma_closed_text_append(pre: Seq<u8>, buf: Seq<u8>, bracket: u8, depth: nat, s: Settings)
    requires
        buf.len() > 0,
    ensures
        closed_text(pre + buf, bracket, depth, s) == pre + closed_text(buf, bracket, depth, s),
{
    let all = pre + buf;
    assert(all.last() == buf.last());
    assert(all.drop_last() =~= pre + buf.drop_last());
    assert((pre + buf.drop_last()) + line_text(depth, s) + seq![bracket]
        =~= pre + (buf.drop_last() + line_text(depth, s) + seq![bracket]));
    assert(all.push(bracket) =~= pre + buf.push(bracket));
    assert((pre + buf.drop_last()).push(bracket) =~= pre + buf.drop_last().push(bracket));
}

/// The text of JSON null.
pub open spec fn null_text() -> Seq<u8> {
    seq![0x6eu8, 0x75u8, 0x6cu8, 0x6cu8]
}

/// The decimal text of a signed integer.
pub open spec fn signed_text(v: int) -> Seq<u8> {
    if v < 0 {
        seq![0x2du8] + decimal_digits((-v) as nat)
    } else {
        decimal_digits(v as nat)
    }
}

pub proof fn lemma_escape_bytes_concat(a: Seq<u8>, b: Seq<u8>)
    ensures
        escape_bytes(a + b) == escape_bytes(a) + escape_bytes(b),
    decreases b.len(),
{
    if b.len() == 0 {
        assert(a + b =~= a);
        assert(escape_bytes(a) + escape_bytes(b) =~= escape_bytes(a));
    } else {
        assert((a + b).drop_last() =~= a + b.drop_last());
        assert((a + b).last() == b.last());
        lemma_escape_bytes_concat(a, b.drop_last());
        assert(escape_bytes(a) + escape_bytes(b) =~= escape_bytes(a) + escape_bytes(b.drop_last())
            + escape_byte(b.last()));
    }
}

pub proof fn lemma_escape_bytes_plain(s: Seq<u8>)
    requires
        forall|k: int| 0 <= k < s.len() ==> !spec_needs_escape(#[trigger] s[k]),
    ensures
        escape_bytes(s) == s,
    decreases s.len(),
{
    if s.len() > 0 {
        assert(!spec_needs_escape(s[s.len() - 1]));
        lemma_escape_bytes_plain(s.drop_last());
        assert(escape_bytes(s) =~= s.drop_last() + seq![s.last()]);
        assert(s.drop_last() + seq![s.last()] =~= s);
    }
}

pub proof fn lemma_escape_byte_ascii(c: u8)
    requires
        spec_needs_escape(c),
    ensures
        all_ascii(escape_byte(c)),
{
    let e = escape_byte(c);
    assert forall|k: int| 0 <= k < e.len() implies #[trigger] e[k] < 0x80 by {
        if c < 0x20 && c != 0x08 && c != 0x0c && c != 0x0a && c != 0x0d && c != 0x09 {
            assert(c / 16 < 2);
            assert(c % 16 < 16);
        }
    }
}

/// Accumulates JSON output, laid out under the policy `O`.
pub struct Writer<O: Options> {
    buf: Vec<u8>,
    /// Where this writer's own output begins: bytes before it were handed
    /// in by [`Writer::appending`] and are not known to be text.
    text_from: usize,
    /// Nesting depth, for indentation.
    depth: usize,
    options: PhantomData<O>,
}

/// What the writer appends for the binary64 with bits `bits`: its text,
/// or `null` where JSON has no spelling for it.
pub open spec fn json_f64(bits: u64) -> Seq<u8> {
    match f64_text(bits) {
        Some(t) => t,
        None => null_text(),
    }
}

/// What the writer appends for the binary32 with bits `bits`.
pub open spec fn json_f32(bits: u32) -> Seq<u8> {
    match f32_text(bits) {
        Some(t) => t,
        None => null_text(),
    }
}

/// Writing a binary64, the sign bit only puts a minus sign in front: for
/// any bits with the sign clear, the same bits with the sign set are
/// written as `-` followed by what they are written as, wherever those
/// have a spelling, and as `null` exactly where they are.
pub proof fn lemma_write_f64_sign(bits: u64)
    requires
        bits >> 63u64 == 0,
    ensures
        json_f64(bits | 0x8000_0000_0000_0000) == if f64_text(bits) is Some {
            seq![0x2du8] + json_f64(bits)
        } else {
            null_text()
        },
{
    let neg = bits | 0x8000_0000_0000_0000u64;
    assert((neg >> 52u64) & 0x7ff == (bits >> 52u64) & 0x7ff && neg & 0x7fff_ffff_ffff_ffff == bits
        & 0x7fff_ffff_ffff_ffff && neg >> 63u64 == 1) by (bit_vector)
        requires
            neg == bits | 0x8000_0000_0000_0000u64,
    ;
    assert(zero_text(true) =~= seq![0x2du8] + zero_text(false));
    let mag = bits & 0x7fff_ffff_ffff_ffff;
    if let Some((ds, e10)) = crate::num::zmij::digits_f64_spec(mag) {
        assert(float_text(true, ds, e10 as int, MAX_FIXED_F64 as int) =~= seq![0x2du8] + float_text(
            false,
            ds,
            e10 as int,
            MAX_FIXED_F64 as int,
        ));
    }
}

/// Writing a binary32, likewise.
pub proof fn lemma_write_f32_sign(bits: u32)
    requires
        bits >> 31u32 == 0,
    ensures
        json_f32(bits | 0x8000_0000) == if f32_text(bits) is Some {
            seq![0x2du8] + json_f32(bits)
        } else {
            null_text()
        },
{
    let neg = bits | 0x8000_0000u32;
    assert((neg >> 23u32) & 0xff == (bits >> 23u32) & 0xff && neg & 0x7fff_ffff == bits & 0x7fff_ffff && neg
        >> 31u32 == 1) by (bit_vector)
        requires
            neg == bits | 0x8000_0000u32,
    ;
    assert(zero_text(true) =~= seq![0x2du8] + zero_text(false));
    let mag = bits & 0x7fff_ffff;
    if let Some((ds, e10)) = crate::num::zmij::digits_f32_spec(mag) {
        assert(float_text(true, ds, e10 as int, MAX_FIXED_F32 as int) =~= seq![0x2du8] + float_text(
            false,
            ds,
            e10 as int,
            MAX_FIXED_F32 as int,
        ));
    }
}

impl<O: Options> Writer<O> {
    /// The bytes written so far, including any handed in to append after.
    pub closed spec fn bytes(&self) -> Seq<u8> {
        self.buf@
    }

    /// Where this writer's own text begins.
    pub closed spec fn text_start(&self) -> int {
        self.text_from as int
    }

    /// The current nesting depth, which decides indentation.
    pub closed spec fn level(&self) -> nat {
        self.depth as nat
    }

    /// The writer's own text is valid UTF-8.
    pub closed spec fn wf(&self) -> bool {
        &&& self.text_from <= self.buf@.len()
        &&& valid_utf8(self.buf@.subrange(self.text_from as int, self.buf@.len() as int))
    }

    /// What well-formedness says of the buffer.
    pub proof fn lemma_wf(&self)
        requires
            self.wf(),
        ensures
            0 <= self.text_start() <= self.bytes().len(),
    {
    }

    /// The settings of the policy this writer lays out under.
    pub open spec fn settings(&self) -> Settings {
        O::spec_settings()
    }

    proof fn lemma_extend(&self, piece: Seq<u8>)
        requires
            self.wf(),
            valid_utf8(piece),
        ensures
            (self.buf@ + piece).subrange(self.text_from as int, (self.buf@ + piece).len() as int)
                == self.buf@.subrange(self.text_from as int, self.buf@.len() as int) + piece,
            valid_utf8(self.buf@.subrange(self.text_from as int, self.buf@.len() as int) + piece),
    {
        assert((self.buf@ + piece).subrange(self.text_from as int, (self.buf@ + piece).len() as int)
            =~= self.buf@.subrange(self.text_from as int, self.buf@.len() as int) + piece);
        lemma_concat_valid(self.buf@.subrange(self.text_from as int, self.buf@.len() as int), piece);
    }

    pub fn new() -> (w: Self)
        ensures
            w.wf(),
            w.bytes() == Seq::<u8>::empty(),
            w.text_start() == 0,
            w.level() == 0,
    {
        Writer::appending(Vec::new())
    }

    pub fn with_capacity(n: usize) -> (w: Self)
        ensures
            w.wf(),
            w.bytes() == Seq::<u8>::empty(),
            w.text_start() == 0,
            w.level() == 0,
    {
        Writer::appending(Vec::with_capacity(n))
    }

    /// Reuse an existing buffer, discarding whatever it held.
    pub fn from_vec(buf: Vec<u8>) -> (w: Self)
        ensures
            w.wf(),
            w.bytes() == Seq::<u8>::empty(),
            w.text_start() == 0,
            w.level() == 0,
    {
        let mut buf = buf;
        buf.clear();
        Writer::appending(buf)
    }

    /// Write after what a buffer already holds, rather than over it.
    pub fn appending(buf: Vec<u8>) -> (w: Self)
        ensures
            w.wf(),
            w.bytes() == buf@,
            w.text_start() == buf@.len(),
            w.level() == 0,
    {
        let t = buf.len();
        proof {
            assert(buf@.subrange(t as int, t as int) =~= Seq::<u8>::empty());
        }
        Writer { buf, text_from: t, depth: 0, options: PhantomData }
    }

    /// The bytes written so far.
    pub fn as_bytes(&self) -> (b: &[u8])
        ensures
            b@ == self.bytes(),
    {
        self.buf.as_slice()
    }

    /// Take the output as text.
    ///
    /// The bytes handed to [`Writer::appending`], if any, must be UTF-8 for
    /// there to be a `String` to give back; [`Writer::into_vec`] takes any.
    pub fn into_string(self) -> (s: String)
        requires
            self.wf(),
            valid_utf8(self.bytes().subrange(0, self.text_start())),
        ensures
            encode_utf8(s@) == self.bytes(),
    {
        proof {
            let b = self.buf@;
            lemma_concat_valid(b.subrange(0, self.text_from as int), b.subrange(self.text_from as int, b.len() as int));
            assert(b.subrange(0, self.text_from as int) + b.subrange(self.text_from as int, b.len() as int) =~= b);
        }
        bytes_into_string(self.buf)
    }

    pub fn into_vec(self) -> (v: Vec<u8>)
        ensures
            v@ == self.bytes(),
    {
        self.buf
    }

    /// Bytes currently buffered.
    pub fn len(&self) -> (n: usize)
        ensures
            n == self.bytes().len(),
    {
        self.buf.len()
    }

    pub fn is_empty(&self) -> (b: bool)
        ensures
            b == (self.bytes().len() == 0),
    {
        self.buf.len() == 0
    }

    /// Append one ASCII byte.
    pub fn push(&mut self, b: u8)
        requires
            old(self).wf(),
            b < 0x80,
        ensures
            final(self).wf(),
            final(self).bytes() == old(self).bytes().push(b),
            final(self).text_start() == old(self).text_start(),
            final(self).level() == old(self).level(),
    {
        proof {
            lemma_ascii_byte_valid(b);
            self.lemma_extend(seq![b]);
            assert(self.buf@.push(b) =~= self.buf@ + seq![b]);
        }
        self.buf.push(b);
    }

    /// Copy a run of bytes in.
    fn append(&mut self, bytes: &[u8])
        requires
            old(self).wf(),
            valid_utf8(bytes@),
        ensures
            final(self).wf(),
            final(self).bytes() == old(self).bytes() + bytes@,
            final(self).text_start() == old(self).text_start(),
            final(self).level() == old(self).level(),
    {
        proof {
            self.lemma_extend(bytes@);
        }
        let mut i: usize = 0;
        let ghost start = self.buf@;
        while i < bytes.len()
            invariant
                i <= bytes@.len(),
                self.buf@ == start + bytes@.subrange(0, i as int),
                self.text_from == old(self).text_from,
                self.depth == old(self).depth,
            decreases bytes@.len() - i,
        {
            self.buf.push(bytes[i]);
            i += 1;
            proof {
                assert(start + bytes@.subrange(0, i as int) =~= (start + bytes@.subrange(0, i - 1)).push(bytes@[i - 1]));
            }
        }
        proof {
            assert(bytes@.subrange(0, bytes@.len() as int) =~= bytes@);
        }
    }

    /// Append a string verbatim, without quoting or escaping it.
    pub fn raw(&mut self, s: &str)
        requires
            old(self).wf(),
        ensures
            final(self).wf(),
            final(self).bytes() == old(self).bytes() + s.spec_bytes(),
            final(self).text_start() == old(self).text_start(),
            final(self).level() == old(self).level(),
    {
        proof {
            lemma_str_valid(s);
        }
        self.append(s.as_bytes());
    }

    /// Append bytes verbatim; the caller shows they are text.
    pub fn raw_bytes(&mut self, b: &[u8])
        requires
            old(self).wf(),
            valid_utf8(b@),
        ensures
            final(self).wf(),
            final(self).bytes() == old(self).bytes() + b@,
            final(self).text_start() == old(self).text_start(),
            final(self).level() == old(self).level(),
    {
        self.append(b);
    }

    /// Append `n` spaces.
    fn spaces(&mut self, n: usize)
        requires
            old(self).wf(),
        ensures
            final(self).wf(),
            final(self).bytes() == old(self).bytes() + spaces(n as nat),
            final(self).text_start() == old(self).text_start(),
            final(self).level() == old(self).level(),
    {
        let mut k: usize = 0;
        while k < n
            invariant
                k <= n,
                self.wf(),
                self.bytes() == old(self).bytes() + spaces(k as nat),
                self.text_start() == old(self).text_start(),
                self.level() == old(self).level(),
            decreases n - k,
        {
            self.push(0x20u8);
            k += 1;
            proof {
                assert(old(self).bytes() + spaces(k as nat) =~= (old(self).bytes() + spaces((k - 1) as nat)).push(0x20u8));
            }
        }
    }

    /// Break the line and indent to the current depth, under an indenting
    /// policy and not otherwise.
    pub fn line(&mut self)
        requires
            old(self).wf(),
        ensures
            final(self).wf(),
            final(self).bytes() == old(self).bytes() + line_text(old(self).level(), old(self).settings()),
            final(self).text_start() == old(self).text_start(),
            final(self).level() == old(self).level(),
    {
        let s = O::settings();
        if s.pretty {
            self.push(0x0au8);
            let width = match self.depth.checked_mul(s.indent) {
                Some(w) => w,
                None => usize::MAX,
            };
            self.spaces(width);
            proof {
                assert(old(self).bytes() + line_text(old(self).level(), old(self).settings()) =~= old(self).bytes().push(0x0au8) + spaces(width as nat));
            }
        } else {
            proof {
                assert(old(self).bytes() + line_text(old(self).level(), old(self).settings()) =~= old(self).bytes());
            }
        }
    }

    /// The break before an array element: a line of its own, or the space
    /// after the comma that stands in for one under an inline-array policy.
    pub fn item(&mut self)
        requires
            old(self).wf(),
        ensures
            final(self).wf(),
            final(self).bytes() == old(self).bytes() + (if old(self).settings().new_lines_in_arrays {
                line_text(old(self).level(), old(self).settings())
            } else if old(self).settings().pretty && old(self).bytes().len() > 0
                && old(self).bytes().last() == 0x2c {
                seq![0x20u8]
            } else {
                Seq::empty()
            }),
            final(self).text_start() == old(self).text_start(),
            final(self).level() == old(self).level(),
    {
        let s = O::settings();
        if s.new_lines_in_arrays {
            self.line();
        } else if s.pretty && self.buf.len() > 0 && self.buf[self.buf.len() - 1] == 0x2cu8 {
            self.push(0x20u8);
            proof {
                assert(old(self).bytes().push(0x20u8) =~= old(self).bytes() + seq![0x20u8]);
            }
        } else {
            proof {
                assert(old(self).bytes() + Seq::<u8>::empty() =~= old(self).bytes());
            }
        }
    }

    /// Write the `:` between a key and its value, spaced under an indenting
    /// policy.
    pub fn colon(&mut self)
        requires
            old(self).wf(),
        ensures
            final(self).wf(),
            final(self).bytes() == old(self).bytes() + (if old(self).settings().pretty {
                seq![0x3au8, 0x20u8]
            } else {
                seq![0x3au8]
            }),
            final(self).text_start() == old(self).text_start(),
            final(self).level() == old(self).level(),
    {
        self.push(0x3au8);
        if O::settings().pretty {
            self.push(0x20u8);
        }
        proof {
            assert(old(self).bytes().push(0x3au8).push(0x20u8) =~= old(self).bytes() + seq![0x3au8, 0x20u8]);
            assert(old(self).bytes().push(0x3au8) =~= old(self).bytes() + seq![0x3au8]);
        }
    }

    /// Whether a container written with `bracket` puts its contents on lines
    /// of their own.
    pub fn breaks_lines(bracket: u8) -> (b: bool)
        ensures
            b == spec_breaks_lines(bracket, O::spec_settings()),
    {
        let s = O::settings();
        s.pretty && (s.new_lines_in_arrays || bracket == 0x7bu8 || bracket == 0x7du8)
    }

    /// Open a container: its bracket, and a level of indentation where the
    /// policy breaks its contents onto lines. Says whether the level was
    /// counted, which is what [`Writer::close`] takes back.
    pub fn open(&mut self, bracket: u8) -> (grew: bool)
        requires
            old(self).wf(),
            bracket < 0x80,
        ensures
            final(self).wf(),
            final(self).bytes() == old(self).bytes().push(bracket),
            final(self).text_start() == old(self).text_start(),
            grew == (spec_breaks_lines(bracket, old(self).settings()) && old(self).level() < usize::MAX),
            final(self).level() == inner_level(bracket, old(self).level(), old(self).settings()),
    {
        self.push(bracket);
        if Self::breaks_lines(bracket) && self.depth < usize::MAX {
            self.depth = self.depth + 1;
            true
        } else {
            false
        }
    }

    /// Close a container whose members each wrote a trailing comma: the
    /// level counted by [`Writer::open`], then the bracket over that comma.
    pub fn close(&mut self, bracket: u8, grew: bool)
        requires
            old(self).wf(),
            bracket < 0x80,
            old(self).bytes().len() > old(self).text_start(),
            grew ==> old(self).level() > 0,
        ensures
            final(self).wf(),
            final(self).level() == (if grew { (old(self).level() - 1) as nat } else { old(self).level() }),
            final(self).bytes() == closed_text(old(self).bytes(), bracket, final(self).level(), old(self).settings()),
            final(self).text_start() == old(self).text_start(),
    {
        if grew {
            self.depth = self.depth - 1;
        }
        self.close_over_comma(bracket);
    }

    /// Turn the final comma into `close`, or append `close` when nothing was
    /// written.
    fn close_over_comma(&mut self, close: u8)
        requires
            old(self).wf(),
            close < 0x80,
            old(self).bytes().len() > old(self).text_start(),
        ensures
            final(self).wf(),
            final(self).level() == old(self).level(),
            final(self).bytes() == closed_text(old(self).bytes(), close, old(self).level(), old(self).settings()),
            final(self).text_start() == old(self).text_start(),
    {
        let n = self.buf.len();
        let comma = self.buf[n - 1] == 0x2cu8;
        if comma {
            proof {
                let t = self.buf@.subrange(self.text_from as int, n as int);
                assert(t[t.len() - 1] == 0x2cu8);
                assert(t.len() - 1 < t.len());
                is_char_boundary_iff_not_is_continuation_byte(t, t.len() - 1);
                valid_utf8_split(t, t.len() - 1);
                assert(t.subrange(0, t.len() - 1) =~= self.buf@.drop_last().subrange(self.text_from as int, n - 1));
            }
            self.buf.pop();
            if Self::breaks_lines(close) {
                self.line();
            }
            self.push(close);
        } else {
            self.push(close);
        }
    }

    /// Begin a member: its line, its pre-quoted `"key":`, and the space after
    /// the colon that indentation asks for.
    pub fn key(&mut self, prefix: &str)
        requires
            old(self).wf(),
        ensures
            final(self).wf(),
            final(self).bytes() == old(self).bytes() + line_text(old(self).level(), old(self).settings())
                + prefix.spec_bytes() + (if old(self).settings().pretty { seq![0x20u8] } else { Seq::empty() }),
            final(self).text_start() == old(self).text_start(),
            final(self).level() == old(self).level(),
    {
        self.line();
        self.raw(prefix);
        if O::settings().pretty {
            self.push(0x20u8);
        }
        proof {
            let a = old(self).bytes() + line_text(old(self).level(), old(self).settings()) + prefix.spec_bytes();
            assert(a.push(0x20u8) =~= a + seq![0x20u8]);
            assert(a + Seq::<u8>::empty() =~= a);
        }
    }

    pub fn write_bool(&mut self, v: bool)
        requires
            old(self).wf(),
        ensures
            final(self).wf(),
            final(self).bytes() == old(self).bytes() + bool_text(v),
            final(self).text_start() == old(self).text_start(),
            final(self).level() == old(self).level(),
    {
        if v {
            let lit: [u8; 4] = [0x74u8, 0x72u8, 0x75u8, 0x65u8];
            proof {
                assert(lit@ =~= bool_text(true));
                lemma_ascii_valid(lit@);
            }
            self.append(&lit);
        } else {
            let lit: [u8; 5] = [0x66u8, 0x61u8, 0x6cu8, 0x73u8, 0x65u8];
            proof {
                assert(lit@ =~= bool_text(false));
                lemma_ascii_valid(lit@);
            }
            self.append(&lit);
        }
    }

    pub fn write_null(&mut self)
        requires
            old(self).wf(),
        ensures
            final(self).wf(),
            final(self).bytes() == old(self).bytes() + null_text(),
            final(self).text_start() == old(self).text_start(),
            final(self).level() == old(self).level(),
    {
        let lit: [u8; 4] = [0x6eu8, 0x75u8, 0x6cu8, 0x6cu8];
        proof {
            assert(lit@ =~= null_text());
            lemma_ascii_valid(lit@);
        }
        self.append(&lit);
    }

    pub fn write_u64(&mut self, v: u64)
        requires
            old(self).wf(),
        ensures
            final(self).wf(),
            final(self).bytes() == old(self).bytes() + decimal_digits(v as nat),
            final(self).text_start() == old(self).text_start(),
            final(self).level() == old(self).level(),
    {
        let mut tmp: Vec<u8> = Vec::new();
        write_u64(v, &mut tmp);
        proof {
            assert(tmp@ =~= decimal_digits(v as nat));
            lemma_decimal_digits_ascii(v as nat);
            lemma_ascii_valid(tmp@);
        }
        self.append(tmp.as_slice());
    }

    pub fn write_i64(&mut self, v: i64)
        requires
            old(self).wf(),
        ensures
            final(self).wf(),
            final(self).bytes() == old(self).bytes() + signed_text(v as int),
            final(self).text_start() == old(self).text_start(),
            final(self).level() == old(self).level(),
    {
        if v < 0 {
            self.push(0x2du8);
            let m: u64 = if v == i64::MIN { 0x8000_0000_0000_0000u64 } else { (-v) as u64 };
            self.write_u64(m);
            proof {
                assert(old(self).bytes().push(0x2du8) + decimal_digits(m as nat) =~= old(self).bytes() + (seq![0x2du8] + decimal_digits(m as nat)));
            }
        } else {
            self.write_u64(v as u64);
        }
    }

    /// Write a `u128`.
    pub fn write_u128(&mut self, v: u128)
        requires
            old(self).wf(),
        ensures
            final(self).wf(),
            final(self).bytes() == old(self).bytes() + decimal_digits(v as nat),
            final(self).text_start() == old(self).text_start(),
            final(self).level() == old(self).level(),
    {
        if v <= u64::MAX as u128 {
            return self.write_u64(v as u64);
        }
        let mut tmp: Vec<u8> = Vec::new();
        write_u128_digits(v, &mut tmp);
        proof {
            assert(tmp@ =~= decimal_digits(v as nat));
            lemma_decimal_digits_ascii(v as nat);
            lemma_ascii_valid(tmp@);
        }
        self.append(tmp.as_slice());
    }

    /// Write an `i128`, also used for the quoted-integer key path.
    pub fn write_i128_raw(&mut self, v: i128)
        requires
            old(self).wf(),
        ensures
            final(self).wf(),
            final(self).bytes() == old(self).bytes() + signed_text(v as int),
            final(self).text_start() == old(self).text_start(),
            final(self).level() == old(self).level(),
    {
        if v < 0 {
            self.push(0x2du8);
            let m: u128 = if v == i128::MIN { 0x8000_0000_0000_0000_0000_0000_0000_0000u128 } else { (-v) as u128 };
            self.write_u128(m);
            proof {
                assert(old(self).bytes().push(0x2du8) + decimal_digits(m as nat) =~= old(self).bytes() + (seq![0x2du8] + decimal_digits(m as nat)));
            }
        } else {
            self.write_u128(v as u128);
        }
    }

    /// Write the binary64 with bits `bits` as its shortest round-tripping
    /// digits; NaN and the infinities have no JSON form, so they are written
    /// as `null`, as is a value the conversion lays out no digits for.
    pub fn write_f64(&mut self, bits: u64)
        requires
            old(self).wf(),
        ensures
            final(self).wf(),
            final(self).text_start() == old(self).text_start(),
            final(self).level() == old(self).level(),
            (bits >> 52) & 0x7ff == 0x7ff ==> final(self).bytes() == old(self).bytes() + null_text(),
            (bits >> 52) & 0x7ff != 0x7ff && bits & 0x7fff_ffff_ffff_ffff == 0 ==> final(self).bytes()
                == old(self).bytes() + zero_text(bits >> 63 == 1),
            (bits >> 52) & 0x7ff != 0x7ff && bits & 0x7fff_ffff_ffff_ffff != 0 ==> final(self).bytes()
                == old(self).bytes() + null_text() || exists|t: Seq<u8>|
                final(self).bytes() == old(self).bytes() + t && spells_float(t, bits >> 63 == 1, MAX_FIXED_F64 as int),
            final(self).bytes() == old(self).bytes() + json_f64(bits),
    {
        let mut tmp: Vec<u8> = Vec::new();
        if crate::num::dtoa::write_f64(bits, &mut tmp) {
            proof {
                if bits & 0x7fff_ffff_ffff_ffff == 0 {
                    assert(tmp@ =~= zero_text(bits >> 63 == 1));
                    assert(all_ascii(tmp@));
                } else {
                    let t = choose|t: Seq<u8>| tmp@ == Seq::<u8>::empty() + t && spells_float(t, bits >> 63 == 1, MAX_FIXED_F64 as int);
                    assert(tmp@ =~= t);
                    lemma_spelled_ascii(t, bits >> 63 == 1, MAX_FIXED_F64 as int);
                }
                lemma_ascii_valid(tmp@);
            }
            self.append(tmp.as_slice());
        } else {
            self.write_null();
        }
    }

    /// Write the binary32 with bits `bits`, as [`Writer::write_f64`] does a
    /// binary64.
    pub fn write_f32(&mut self, bits: u32)
        requires
            old(self).wf(),
        ensures
            final(self).wf(),
            final(self).text_start() == old(self).text_start(),
            final(self).level() == old(self).level(),
            (bits >> 23) & 0xff == 0xff ==> final(self).bytes() == old(self).bytes() + null_text(),
            (bits >> 23) & 0xff != 0xff && bits & 0x7fff_ffff == 0 ==> final(self).bytes() == old(self).bytes()
                + zero_text(bits >> 31 == 1),
            (bits >> 23) & 0xff != 0xff && bits & 0x7fff_ffff != 0 ==> final(self).bytes() == old(self).bytes()
                + null_text() || exists|t: Seq<u8>|
                final(self).bytes() == old(self).bytes() + t && spells_float(t, bits >> 31 == 1, MAX_FIXED_F32 as int),
            final(self).bytes() == old(self).bytes() + json_f32(bits),
    {
        let mut tmp: Vec<u8> = Vec::new();
        if crate::num::dtoa::write_f32(bits, &mut tmp) {
            proof {
                if bits & 0x7fff_ffff == 0 {
                    assert(tmp@ =~= zero_text(bits >> 31 == 1));
                    assert(all_ascii(tmp@));
                } else {
                    let t = choose|t: Seq<u8>| tmp@ == Seq::<u8>::empty() + t && spells_float(t, bits >> 31 == 1, MAX_FIXED_F32 as int);
                    assert(tmp@ =~= t);
                    lemma_spelled_ascii(t, bits >> 31 == 1, MAX_FIXED_F32 as int);
                }
                lemma_ascii_valid(tmp@);
            }
            self.append(tmp.as_slice());
        } else {
            self.write_null();
        }
    }

    /// Write a number already in its JSON form, as it stands: it is never
    /// rounded or reformatted.
    pub fn write_number_str(&mut self, s: &str)
        requires
            old(self).wf(),
            crate::num::atof::spec_is_number(s.spec_bytes()),
        ensures
            final(self).wf(),
            final(self).bytes() == old(self).bytes() + s.spec_bytes(),
            final(self).text_start() == old(self).text_start(),
            final(self).level() == old(self).level(),
    {
        self.raw(s);
    }

    /// Write the escape for one byte a JSON string cannot carry literally.
    fn write_escape(&mut self, c: u8)
        requires
            old(self).wf(),
            spec_needs_escape(c),
        ensures
            final(self).wf(),
            final(self).bytes() == old(self).bytes() + escape_byte(c),
            final(self).text_start() == old(self).text_start(),
            final(self).level() == old(self).level(),
    {
        let mut e: Vec<u8> = Vec::new();
        e.push(0x5cu8);
        if c == 0x22u8 {
            e.push(0x22u8);
        } else if c == 0x5cu8 {
            e.push(0x5cu8);
        } else if c == 0x08u8 {
            e.push(0x62u8);
        } else if c == 0x0cu8 {
            e.push(0x66u8);
        } else if c == 0x0au8 {
            e.push(0x6eu8);
        } else if c == 0x0du8 {
            e.push(0x72u8);
        } else if c == 0x09u8 {
            e.push(0x74u8);
        } else {
            e.push(0x75u8);
            e.push(0x30u8);
            e.push(0x30u8);
            let hi = c / 16;
            let lo = c % 16;
            e.push(if hi < 10 { 0x30u8 + hi } else { 0x61u8 + hi - 10 });
            e.push(if lo < 10 { 0x30u8 + lo } else { 0x61u8 + lo - 10 });
        }
        proof {
            assert(e@ =~= escape_byte(c));
            lemma_escape_byte_ascii(c);
            lemma_ascii_valid(e@);
        }
        self.append(e.as_slice());
    }

    /// Write a quoted, escaped JSON string.
    pub fn write_str(&mut self, s: &str)
        requires
            old(self).wf(),
        ensures
            final(self).wf(),
            final(self).bytes() == old(self).bytes() + quoted(s.spec_bytes()),
            final(self).text_start() == old(self).text_start(),
            final(self).level() == old(self).level(),
    {
        let bytes = s.as_bytes();
        proof {
            lemma_str_valid(s);
        }
        self.write_escaped(bytes);
    }

    /// Quote and escape bytes known to be text.
    pub fn write_escaped(&mut self, bytes: &[u8])
        requires
            old(self).wf(),
            valid_utf8(bytes@),
        ensures
            final(self).wf(),
            final(self).bytes() == old(self).bytes() + quoted(bytes@),
            final(self).text_start() == old(self).text_start(),
            final(self).level() == old(self).level(),
    {
        self.push(0x22u8);
        let n = bytes.len();
        let mut start: usize = 0;
        let mut i: usize = 0;
        proof {
            assert(bytes@.subrange(0, 0) =~= Seq::<u8>::empty());
        }
        while i < n
            invariant
                n == bytes@.len(),
                valid_utf8(bytes@),
                start <= i <= n,
                at_boundary(bytes@, start as int),
                forall|k: int| start <= k < i ==> !spec_needs_escape(#[trigger] bytes@[k]),
                self.wf(),
                self.bytes() == old(self).bytes().push(0x22u8) + escape_bytes(bytes@.subrange(0, start as int)),
                self.text_start() == old(self).text_start(),
                self.level() == old(self).level(),
            decreases n - i,
        {
            if !needs_escape(bytes[i]) {
                i += 1;
                continue;
            }
            let c = bytes[i];
            proof {
                assert(at_boundary(bytes@, i as int));
                lemma_slice_valid(bytes@, start as int, i as int);
                lemma_escape_bytes_plain(bytes@.subrange(start as int, i as int));
                lemma_escape_bytes_concat(bytes@.subrange(0, start as int), bytes@.subrange(start as int, i as int));
                assert(bytes@.subrange(0, start as int) + bytes@.subrange(start as int, i as int) =~= bytes@.subrange(0, i as int));
                lemma_escape_bytes_concat(bytes@.subrange(0, i as int), seq![c]);
                assert(bytes@.subrange(0, i as int) + seq![c] =~= bytes@.subrange(0, i + 1));
                assert(escape_bytes(seq![c]) =~= escape_byte(c)) by {
                    assert(seq![c].drop_last() =~= Seq::<u8>::empty());
                    assert(seq![c].last() == c);
                    assert(escape_bytes(Seq::<u8>::empty()) =~= Seq::<u8>::empty());
                    assert(Seq::<u8>::empty() + escape_byte(c) =~= escape_byte(c));
                }
                lemma_after_ascii(bytes@, i as int);
            }
            self.append(&bytes[start..i]);
            self.write_escape(c);
            i += 1;
            start = i;
            proof {
                assert(self.bytes() =~= old(self).bytes().push(0x22u8) + escape_bytes(bytes@.subrange(0, start as int)));
            }
        }
        proof {
            lemma_slice_valid(bytes@, start as int, n as int);
            lemma_escape_bytes_plain(bytes@.subrange(start as int, n as int));
            lemma_escape_bytes_concat(bytes@.subrange(0, start as int), bytes@.subrange(start as int, n as int));
            assert(bytes@.subrange(0, start as int) + bytes@.subrange(start as int, n as int) =~= bytes@);
        }
        self.append(&bytes[start..n]);
        self.push(0x22u8);
        proof {
            assert(self.bytes() =~= old(self).bytes() + quoted(bytes@));
        }
    }
}

/// An escape's hex digit reads back as the value it spells.
proof fn lemma_hex_digit(v: u8)
    requires
        v < 16,
    ensures
        hex_value(hex_digit(v)) == Some(v as u32),
{
}

/// The spelling of one byte, found at `i`, reads back as that byte and
/// then whatever the string holds after it.
proof fn lemma_body_escaped_byte(u: Seq<u8>, i: int, c: u8)
    requires
        0 <= i,
        i + escape_byte(c).len() <= u.len(),
        u.subrange(i, i + escape_byte(c).len()) == escape_byte(c),
    ensures
        string_body(u, i) == (match string_body(u, i + escape_byte(c).len()) {
            Err(e) => Err::<(Seq<u8>, int), ErrorCode>(e),
            Ok((rest, k)) => Ok((seq![c] + rest, k)),
        }),
{
    reveal_with_fuel(string_body, 1);
    let e = escape_byte(c);
    assert(u[i] == e[0]);
    if e.len() >= 2 {
        assert(u[i + 1] == e[1]);
    }
    if c < 0x20 && c != 0x08 && c != 0x0c && c != 0x0a && c != 0x0d && c != 0x09 {
        assert(u[i + 2] == e[2]);
        assert(u[i + 3] == e[3]);
        assert(u[i + 4] == e[4]);
        assert(u[i + 5] == e[5]);
        lemma_hex_digit(c / 16);
        lemma_hex_digit(c % 16);
        assert(hex4(u, i + 2) == Ok::<u32, ErrorCode>(c as u32));
        assert(unicode_escape(u, i + 2) == Ok::<(u32, int), ErrorCode>((c as u32, i + 6)));
        assert(((c as u32) & 0x7f) as u8 == c) by (bit_vector)
            requires
                c < 0x20,
        ;
        assert(vstd::utf8::encode_scalar(c as u32) =~= seq![c]);
    }
}

/// The front byte of a string's spelling is spelled first.
proof fn lemma_escape_bytes_front(s: Seq<u8>)
    requires
        s.len() > 0,
    ensures
        escape_bytes(s) == escape_byte(s[0]) + escape_bytes(s.subrange(1, s.len() as int)),
{
    lemma_escape_bytes_concat(seq![s[0]], s.subrange(1, s.len() as int));
    assert(seq![s[0]] + s.subrange(1, s.len() as int) =~= s);
    let one = seq![s[0]];
    assert(one.drop_last() =~= Seq::<u8>::empty());
    assert(one.last() == s[0]);
    assert(escape_bytes(Seq::<u8>::empty()) == Seq::<u8>::empty());
    assert(escape_bytes(one) == escape_bytes(one.drop_last()) + escape_byte(one.last()));
    assert(Seq::<u8>::empty() + escape_byte(s[0]) =~= escape_byte(s[0]));
}

/// The escaped spelling of any bytes, closed by a quote, reads back as
/// those bytes, with the cursor just past the quote.
pub proof fn lemma_body_reads_escaped(u: Seq<u8>, i: int, s: Seq<u8>)
    requires
        0 <= i,
        i + escape_bytes(s).len() < u.len(),
        u.subrange(i, i + escape_bytes(s).len()) == escape_bytes(s),
        u[i + escape_bytes(s).len()] == 0x22,
    ensures
        string_body(u, i) == Ok::<(Seq<u8>, int), ErrorCode>((s, i + escape_bytes(s).len() + 1)),
    decreases s.len(),
{
    if s.len() == 0 {
        reveal_with_fuel(string_body, 1);
        assert(s =~= Seq::<u8>::empty());
    } else {
        let c = s[0];
        let rest = s.subrange(1, s.len() as int);
        let e = escape_byte(c);
        lemma_escape_bytes_front(s);
        assert(u.subrange(i, i + e.len()) =~= e) by {
            assert forall|k: int| 0 <= k < e.len() implies u.subrange(i, i + e.len())[k] == e[k] by {
                assert(u.subrange(i, i + escape_bytes(s).len())[k] == escape_bytes(s)[k]);
            }
        }
        assert(u.subrange(i + e.len(), i + e.len() + escape_bytes(rest).len()) =~= escape_bytes(rest)) by {
            assert forall|k: int| 0 <= k < escape_bytes(rest).len() implies u.subrange(
                i + e.len(),
                i + e.len() + escape_bytes(rest).len(),
            )[k] == escape_bytes(rest)[k] by {
                assert(u.subrange(i, i + escape_bytes(s).len())[e.len() + k] == escape_bytes(s)[e.len() + k]);
            }
        }
        lemma_body_escaped_byte(u, i, c);
        lemma_body_reads_escaped(u, i + e.len(), rest);
        assert(seq![c] + rest =~= s);
    }
}

/// A whole quoted string reads back as the bytes it quotes, the cursor
/// just past its closing quote.
pub proof fn lemma_quoted_reads_back(s: Seq<u8>)
    ensures
        spec_read_string(quoted(s), 0) == (Ok::<Seq<u8>, ErrorCode>(s), quoted(s).len() as int),
{
    let u = quoted(s);
    let n = escape_bytes(s).len() as int;
    assert(u.subrange(1, 1 + n) =~= escape_bytes(s));
    assert(u[1 + n] == 0x22);
    lemma_body_reads_escaped(u, 1, s);
}

} // verus!

//! Taking the whitespace back out of JSON text.
//!
//! Whitespace inside a string is the document's, and whitespace outside one
//! is the formatter's; that is all the minifier looks for. Runs of bytes are
//! copied through untouched, a string is stepped over whole, and whitespace
//! between tokens is dropped. Nothing counts brackets and no token is read, so
//! nothing is refused for being wrong. Three things are refused for being
//! unanswerable: a string that never closes, a slash that begins no comment
//! where comments are whitespace, and whitespace holding two bare tokens
//! apart, whose removal would make a different document.
use vstd::prelude::*;
use vstd::string::StringSliceAdditionalSpecFns;
use vstd::utf8::*;
use crate::error::{Error, ErrorCode};
use crate::json::parser::{lemma_ws_end, scalar_byte, skip_ws_at, spec_is_ws, spec_scalar_byte, ws_end, comment_end, block_comment_close};
use crate::json::writer::Writer;
use crate::options::{Options, Standard};
use crate::swar::{find_byte, first_byte_from, lemma_first_byte_from};
use crate::text::{at_boundary, lemma_after_ascii, lemma_slice_valid, lemma_str_valid};

verus! {

/// A byte the copy stops at: whitespace or a control byte, a quote, and a
/// slash where comments are whitespace.
pub open spec fn is_stop(b: u8, c: bool) -> bool {
    b < 0x21 || b == 0x22 || (c && b == 0x2f)
}

/// The first index at or after `from` holding a stop byte, or the end.
pub open spec fn next_stop_spec(s: Seq<u8>, from: int, c: bool) -> int
    decreases s.len() - from,
{
    if from < 0 || from >= s.len() {
        from
    } else if is_stop(s[from], c) {
        from
    } else {
        next_stop_spec(s, from + 1, c)
    }
}

/// The start of the run of backslashes that ends just before `b`.
pub open spec fn backslashes_start(s: Seq<u8>, b: int) -> int
    decreases b,
{
    if b > 0 && b <= s.len() && s[b - 1] == 0x5c {
        backslashes_start(s, b - 1)
    } else {
        b
    }
}

/// Index just past the first quote at or after `from` that an even run of
/// backslashes leaves unescaped.
pub open spec fn string_end_from(s: Seq<u8>, from: int) -> Option<int>
    decreases s.len() - from,
{
    if from < 0 {
        None
    } else {
        match first_byte_from(s, from, 0x22u8) {
            None => None,
            Some(q) => if (q - backslashes_start(s, q)) % 2 == 0 {
                Some(q + 1)
            } else if from < q + 1 <= s.len() {
                string_end_from(s, q + 1)
            } else {
                None
            },
        }
    }
}

/// Put `piece` in front of what the rest of a walk produced.
pub open spec fn prepend(piece: Seq<u8>, rest: (Seq<u8>, Option<(ErrorCode, int)>)) -> (Seq<u8>, Option<(ErrorCode, int)>) {
    (piece + rest.0, rest.1)
}

/// What minifying `s` from `i` writes, and the failure it stops at, if any.
#[verifier::opaque]
pub open spec fn minify_spec(s: Seq<u8>, i: int, c: bool) -> (Seq<u8>, Option<(ErrorCode, int)>)
    decreases s.len() - i,
{
    if i < 0 || i >= s.len() {
        (Seq::empty(), None)
    } else if s[i] == 0x22 {
        match string_end_from(s, i + 1) {
            None => (Seq::empty(), Some((ErrorCode::UnexpectedEnd, i + 1))),
            Some(e) => if i < e <= s.len() {
                prepend(s.subrange(i, e), minify_spec(s, e, c))
            } else {
                (Seq::empty(), None)
            },
        }
    } else if is_stop(s[i], c) {
        let after = ws_end(s, i, c);
        if after == i {
            if c && s[i] == 0x2f {
                (Seq::empty(), Some((ErrorCode::UnexpectedCharacter, i)))
            } else {
                prepend(seq![s[i]], minify_spec(s, i + 1, c))
            }
        } else if i > 0 && after < s.len() && spec_scalar_byte(s[i - 1]) && spec_scalar_byte(s[after]) {
            (Seq::empty(), Some((ErrorCode::UnexpectedCharacter, after)))
        } else if i < after <= s.len() {
            minify_spec(s, after, c)
        } else {
            (Seq::empty(), None)
        }
    } else {
        prepend(seq![s[i]], minify_spec(s, i + 1, c))
    }
}

proof fn lemma_next_stop(s: Seq<u8>, from: int, c: bool)
    requires
        0 <= from <= s.len(),
    ensures
        from <= next_stop_spec(s, from, c) <= s.len(),
        forall|k: int| from <= k < next_stop_spec(s, from, c) ==> !is_stop(#[trigger] s[k], c),
        next_stop_spec(s, from, c) < s.len() ==> is_stop(s[next_stop_spec(s, from, c)], c),
    decreases s.len() - from,
{
    if from < s.len() && !is_stop(s[from], c) {
        lemma_next_stop(s, from + 1, c);
    }
}

/// A run of bytes that stop nothing is copied through as it stands.
pub(crate) proof fn lemma_copy_run(s: Seq<u8>, a: int, b: int, c: bool)
    requires
        0 <= a <= b <= s.len(),
        forall|k: int| a <= k < b ==> !is_stop(#[trigger] s[k], c),
    ensures
        minify_spec(s, a, c) == prepend(s.subrange(a, b), minify_spec(s, b, c)),
    decreases b - a,
{
    reveal(minify_spec);
    if a < b {
        lemma_copy_run(s, a + 1, b, c);
        assert(!is_stop(s[a], c));
        assert(seq![s[a]] + (s.subrange(a + 1, b) + minify_spec(s, b, c).0) =~= s.subrange(a, b) + minify_spec(s, b, c).0);
    } else {
        assert(Seq::<u8>::empty() + minify_spec(s, b, c).0 =~= minify_spec(s, b, c).0);
    }
}

proof fn lemma_backslashes_start(s: Seq<u8>, b: int, open: int)
    requires
        0 <= open < b <= s.len(),
        s[open] != 0x5c,
    ensures
        open < backslashes_start(s, b) <= b,
        forall|k: int| backslashes_start(s, b) <= k < b ==> #[trigger] s[k] == 0x5c,
    decreases b,
{
    if b > open + 1 && s[b - 1] == 0x5c {
        lemma_backslashes_start(s, b - 1, open);
    }
}

pub(crate) proof fn lemma_string_end_from(s: Seq<u8>, from: int)
    requires
        0 <= from,
    ensures
        string_end_from(s, from) matches Some(e) ==> from < e <= s.len() && s[e - 1] == 0x22,
    decreases s.len() - from,
{
    lemma_first_byte_from(s, from, 0x22u8);
    match first_byte_from(s, from, 0x22u8) {
        None => {},
        Some(q) => if (q - backslashes_start(s, q)) % 2 != 0 && from < q + 1 <= s.len() {
            lemma_string_end_from(s, q + 1);
        },
    }
}

/// Index of the first byte at or after `from` that is not simply copied
/// through, or the end of the input.
fn next_stop(data: &[u8], from: usize, comments: bool) -> (r: usize)
    requires
        from <= data@.len(),
    ensures
        r == next_stop_spec(data@, from as int, comments),
{
    let n = data.len();
    let mut i = from;
    while i < n
        invariant
            from <= i <= n,
            n == data@.len(),
            next_stop_spec(data@, from as int, comments) == next_stop_spec(data@, i as int, comments),
        decreases n - i,
    {
        let c = data[i];
        if c < 0x21u8 || c == 0x22u8 || (comments && c == 0x2fu8) {
            return i;
        }
        i += 1;
    }
    n
}

/// Index just past the closing quote of the string whose opening quote is
/// at `open`, or `None` if it never closes. A quote closes the string unless
/// an odd run of backslashes escapes it.
fn string_end(data: &[u8], open: usize) -> (r: Option<usize>)
    requires
        open < data@.len(),
        data@[open as int] == 0x22,
    ensures
        r == (match string_end_from(data@, open + 1) {
            Some(e) => Some(e as usize),
            None => None::<usize>,
        }),
{
    let n = data.len();
    let mut i = open + 1;
    proof {
        lemma_string_end_from(data@, open + 1);
    }
    loop
        invariant
            open < i <= n,
            n == data@.len(),
            data@[open as int] == 0x22,
            string_end_from(data@, i as int) == string_end_from(data@, open + 1),
        decreases n - i,
    {
        proof {
            lemma_first_byte_from(data@, i as int, 0x22u8);
            lemma_string_end_from(data@, i as int);
        }
        let quote = match find_byte(data, i, 0x22u8) {
            Some(q) => q,
            None => return None,
        };
        let mut back = quote;
        proof {
            lemma_backslashes_start(data@, quote as int, open as int);
        }
        while data[back - 1] == 0x5cu8
            invariant
                open < back <= quote < n,
                n == data@.len(),
                data@[open as int] == 0x22,
                backslashes_start(data@, back as int) == backslashes_start(data@, quote as int),
            decreases back,
        {
            back -= 1;
        }
        if (quote - back) % 2 == 0 {
            return Some(quote + 1);
        }
        i = quote + 1;
    }
}

/// Are the `len` bytes at `at` the same as the `len` bytes at `prev`? Asked
/// of a run of whitespace against the run before it, which in a laid-out
/// document is the same indentation as often as not.
fn repeats(data: &[u8], at: usize, prev: usize, len: usize) -> (r: bool)
    requires
        prev + len <= data@.len(),
    ensures
        r == (len >= 8 && at + len <= data@.len()
            && data@.subrange(at as int, at + len) == data@.subrange(prev as int, prev + len)),
{
    if len < 8 || at > data.len() || len > data.len() - at {
        return false;
    }
    let n = data.len();
    let mut k: usize = 0;
    while k < len
        invariant
            k <= len,
            n == data@.len(),
            at + len <= n,
            prev + len <= data@.len(),
            forall|t: int| 0 <= t < k ==> data@.subrange(at as int, at + len)[t] == #[trigger] data@.subrange(prev as int, prev + len)[t],
        decreases len - k,
    {
        if data[at + k] != data[prev + k] {
            proof {
                assert(data@.subrange(at as int, at + len)[k as int] != data@.subrange(prev as int, prev + len)[k as int]);
            }
            return false;
        }
        k += 1;
    }
    proof {
        assert(data@.subrange(at as int, at + len) =~= data@.subrange(prev as int, prev + len));
    }
    true
}

/// A search for a byte inside a run finds the same offset in an equal run.
proof fn lemma_find_shift(s: Seq<u8>, a: int, b: int, m: int, x: int, ch: u8)
    requires
        0 <= a,
        0 <= b,
        a + m <= s.len(),
        b + m <= s.len(),
        s.subrange(a, a + m) == s.subrange(b, b + m),
        0 <= x <= m,
        first_byte_from(s, a + x, ch) matches Some(k) && k < a + m,
    ensures
        first_byte_from(s, b + x, ch) == Some(first_byte_from(s, a + x, ch).unwrap() - a + b),
    decreases m - x,
{
    lemma_first_byte_from(s, a + x, ch);
    assert(x < m);
    assert(s.subrange(a, a + m)[x] == s[a + x]);
    assert(s.subrange(b, b + m)[x] == s[b + x]);
    assert(s[a + x] == s[b + x]);
    if s[a + x] != ch {
        lemma_find_shift(s, a, b, m, x + 1, ch);
    }
}

/// A search for `*/` that ends inside a run finds the same offset in an
/// equal run.
proof fn lemma_close_shift(s: Seq<u8>, a: int, b: int, m: int, x: int)
    requires
        0 <= a,
        0 <= b,
        a + m <= s.len(),
        b + m <= s.len(),
        s.subrange(a, a + m) == s.subrange(b, b + m),
        0 <= x <= m,
        block_comment_close(s, a + x) matches Some(k) && k + 1 < a + m,
    ensures
        block_comment_close(s, b + x) == Some(block_comment_close(s, a + x).unwrap() - a + b),
    decreases m - x,
{
    crate::json::parser::lemma_block_comment_close(s, a + x);
    assert(x + 1 < m);
    assert(s.subrange(a, a + m)[x] == s[a + x]);
    assert(s.subrange(b, b + m)[x] == s[b + x]);
    assert(s.subrange(a, a + m)[x + 1] == s[a + x + 1]);
    assert(s.subrange(b, b + m)[x + 1] == s[b + x + 1]);
    if !(s[a + x] == 0x2a && s[a + x + 1] == 0x2f) {
        lemma_close_shift(s, a, b, m, x + 1);
    }
}

/// Whitespace that repeats a run already known to be whitespace ends where
/// the whitespace after the repetition ends.
proof fn lemma_ws_repeat(s: Seq<u8>, prev: int, i: int, len: int, p: int, c: bool)
    requires
        0 <= prev,
        prev + len <= i,
        i + len <= s.len(),
        0 <= p <= len,
        s.subrange(prev, prev + len) == s.subrange(i, i + len),
        ws_end(s, prev + p, c) == prev + len,
    ensures
        ws_end(s, i + p, c) == ws_end(s, i + len, c),
    decreases len - p,
{
    if p < len {
        let q = prev + p;
        let r = i + p;
        assert(s.subrange(prev, prev + len)[p] == s[q]);
        assert(s.subrange(i, i + len)[p] == s[r]);
        assert(s[q] == s[r]);
        if spec_is_ws(s[q]) {
            lemma_ws_repeat(s, prev, i, len, p + 1, c);
        } else {
            assert(c && s[q] == 0x2f);
            crate::json::parser::lemma_comment_end(s, q);
            let j = comment_end(s, q).unwrap();
            assert(q < j <= s.len());
            lemma_ws_end(s, j, c);
            assert(j <= prev + len);
            if s[q + 1] == 0x2f {
                lemma_first_byte_from(s, q + 2, 0x0au8);
                match first_byte_from(s, q + 2, 0x0au8) {
                    Some(k) => {
                        assert(j == k);
                        if k == prev + len {
                            lemma_ws_end(s, k + 1, c);
                            assert(false);
                        }
                        assert(q + 1 < prev + len);
                        assert(s.subrange(prev, prev + len)[p + 1] == s[q + 1]);
                        assert(s.subrange(i, i + len)[p + 1] == s[r + 1]);
                        lemma_find_shift(s, prev, i, len, p + 2, 0x0au8);
                    },
                    None => {
                        assert(false);
                    },
                }
            } else {
                crate::json::parser::lemma_block_comment_close(s, q + 2);
                assert(q + 1 < prev + len);
                assert(s.subrange(prev, prev + len)[p + 1] == s[q + 1]);
                assert(s.subrange(i, i + len)[p + 1] == s[r + 1]);
                lemma_close_shift(s, prev, i, len, p + 2);
            }
            assert(comment_end(s, r) == Some(j - prev + i));
            lemma_ws_repeat(s, prev, i, len, j - prev, c);
        }
    }
}

/// Whitespace that ends before the end of the input ends just after an
/// ASCII byte: a space, a newline, or the slash of a block comment.
proof fn lemma_ws_end_ascii(s: Seq<u8>, i: int, c: bool)
    requires
        0 <= i <= s.len(),
    ensures
        i < ws_end(s, i, c) < s.len() ==> s[ws_end(s, i, c) - 1] < 0x80,
    decreases s.len() - i,
{
    if i < s.len() {
        if spec_is_ws(s[i]) {
            lemma_ws_end(s, i + 1, c);
            lemma_ws_end_ascii(s, i + 1, c);
            if ws_end(s, i + 1, c) == i + 1 {
                assert(s[i] < 0x80);
            }
        } else if c && s[i] == 0x2f {
            crate::json::parser::lemma_comment_end(s, i);
            match comment_end(s, i) {
                Some(j) => if i < j <= s.len() {
                    lemma_ws_end(s, j, c);
                    lemma_ws_end_ascii(s, j, c);
                    if ws_end(s, j, c) == j && j < s.len() {
                        if s[i + 1] == 0x2f {
                            lemma_first_byte_from(s, i + 2, 0x0au8);
                            assert(spec_is_ws(s[j]));
                            lemma_ws_end(s, j + 1, c);
                            assert(false);
                        } else {
                            crate::json::parser::lemma_block_comment_close(s, i + 2);
                            assert(s[j - 1] == 0x2f);
                        }
                    }
                },
                None => {},
            }
        }
    }
}

/// The failure a minification stopped at, as the error it reports.
pub open spec fn minify_error(f: Option<(ErrorCode, int)>) -> Result<(), Error> {
    match f {
        None => Ok(()),
        Some((code, index)) => Err(Error { code, index: index as usize, key: None }),
    }
}

/// Copy `data[start..end]` to the output.
fn copy_run<O: Options>(w: &mut Writer<O>, data: &[u8], start: usize, end: usize)
    requires
        old(w).wf(),
        valid_utf8(data@),
        start <= end <= data@.len(),
        at_boundary(data@, start as int),
        at_boundary(data@, end as int),
    ensures
        final(w).wf(),
        final(w).bytes() == old(w).bytes() + data@.subrange(start as int, end as int),
        final(w).text_start() == old(w).text_start(),
        final(w).level() == old(w).level(),
{
    proof {
        lemma_slice_valid(data@, start as int, end as int);
    }
    w.raw_bytes(&data[start..end]);
}

/// What the walk keeps across steps: where it is, and the last run of
/// whitespace it dropped, which the next run is likely to repeat.
pub open spec fn walk_state(s: Seq<u8>, c: bool, i: int, ws_start: int, ws_len: int) -> bool {
    &&& 0 <= i <= s.len()
    &&& at_boundary(s, i)
    &&& 0 <= ws_start
    &&& 0 <= ws_len
    &&& ws_start + ws_len <= i
    &&& ws_len > 0 ==> ws_end(s, ws_start, c) == ws_start + ws_len
}

/// One decision at the stop byte `data[i]`: a whole string copied, a run of
/// whitespace dropped, or a stray byte passed through. Gives where the walk
/// goes on from and the run of whitespace it last dropped.
fn step<O: Options>(data: &[u8], w: &mut Writer<O>, i: usize, ws_start: usize, ws_len: usize)
    -> (r: Result<(usize, usize, usize), Error>)
    requires
        old(w).wf(),
        valid_utf8(data@),
        i < data@.len(),
        walk_state(data@, O::spec_settings().allow_comments, i as int, ws_start as int, ws_len as int),
        is_stop(data@[i as int], O::spec_settings().allow_comments),
    ensures
        final(w).wf(),
        final(w).text_start() == old(w).text_start(),
        match r {
            Ok((i2, s2, l2)) => i < i2 <= data@.len()
                && walk_state(data@, O::spec_settings().allow_comments, i2 as int, s2 as int, l2 as int)
                && final(w).bytes() + minify_spec(data@, i2 as int, O::spec_settings().allow_comments).0
                    == old(w).bytes() + minify_spec(data@, i as int, O::spec_settings().allow_comments).0
                && minify_spec(data@, i2 as int, O::spec_settings().allow_comments).1
                    == minify_spec(data@, i as int, O::spec_settings().allow_comments).1,
            Err(e) => final(w).bytes() == old(w).bytes() + minify_spec(data@, i as int, O::spec_settings().allow_comments).0
                && Err::<(), Error>(e) == minify_error(minify_spec(data@, i as int, O::spec_settings().allow_comments).1),
        },
{
    let comments = O::settings().allow_comments;
    let ghost s = data@;
    let ghost c = comments;
    let n = data.len();
    proof {
        reveal(minify_spec);
    }
    if data[i] == 0x22u8 {
        proof {
            lemma_string_end_from(s, i + 1);
        }
        let end = match string_end(data, i) {
            Some(e) => e,
            None => {
                proof {
                    assert(w.bytes() + Seq::<u8>::empty() =~= w.bytes());
                }
                return Err(Error::new(ErrorCode::UnexpectedEnd, i + 1));
            },
        };
        proof {
            lemma_after_ascii(s, end - 1);
        }
        let ghost before = w.bytes();
        copy_run(w, data, i, end);
        proof {
            assert(w.bytes() + minify_spec(s, end as int, c).0 =~= before + (s.subrange(i as int, end as int) + minify_spec(s, end as int, c).0));
        }
        return Ok((end, ws_start, ws_len));
    }
    let from = if ws_len != 0 && repeats(data, i, ws_start, ws_len) { i + ws_len } else { i };
    proof {
        if from != i {
            lemma_ws_repeat(s, ws_start as int, i as int, ws_len as int, 0, c);
        }
    }
    let after = skip_ws_at(data, from, comments);
    proof {
        lemma_ws_end(s, i as int, c);
        lemma_ws_end_ascii(s, i as int, c);
        assert(after == ws_end(s, i as int, c));
    }
    if after == i {
        if comments && data[i] == 0x2fu8 {
            proof {
                assert(w.bytes() + Seq::<u8>::empty() =~= w.bytes());
            }
            return Err(Error::new(ErrorCode::UnexpectedCharacter, i));
        }
        let b = data[i];
        let ghost before = w.bytes();
        w.push(b);
        proof {
            lemma_after_ascii(s, i as int);
            assert(w.bytes() + minify_spec(s, i + 1, c).0 =~= before + (seq![b] + minify_spec(s, i + 1, c).0));
        }
        return Ok((i + 1, i, 0));
    }
    if i > 0 && after < n && scalar_byte(data[i - 1]) && scalar_byte(data[after]) {
        proof {
            assert(w.bytes() + Seq::<u8>::empty() =~= w.bytes());
        }
        return Err(Error::new(ErrorCode::UnexpectedCharacter, after));
    }
    proof {
        if after < n {
            vstd::utf8::is_char_boundary_iff_not_is_continuation_byte(s, after as int);
            lemma_after_ascii(s, after - 1);
        }
    }
    Ok((after, i, after - i))
}

/// Copy `data` through, dropping the whitespace between its tokens.
fn scan<O: Options>(data: &[u8], w: &mut Writer<O>) -> (r: Result<(), Error>)
    requires
        old(w).wf(),
        valid_utf8(data@),
    ensures
        final(w).wf(),
        final(w).bytes() == old(w).bytes() + minify_spec(data@, 0, O::spec_settings().allow_comments).0,
        final(w).text_start() == old(w).text_start(),
        r == minify_error(minify_spec(data@, 0, O::spec_settings().allow_comments).1),
{
    let comments = O::settings().allow_comments;
    let ghost s = data@;
    let ghost c = comments;
    let ghost whole = minify_spec(s, 0, c);
    let n = data.len();
    let mut i: usize = 0;
    let mut ws_start: usize = 0;
    let mut ws_len: usize = 0;
    proof {
        assert(old(w).bytes() + whole.0 =~= w.bytes() + minify_spec(s, 0, c).0);
        vstd::utf8::is_char_boundary_start_end_of_seq(s);
    }
    while i < n
        invariant
            n == s.len(),
            s == data@,
            c == comments,
            c == O::spec_settings().allow_comments,
            valid_utf8(s),
            whole == minify_spec(s, 0, c),
            i <= n,
            walk_state(s, c, i as int, ws_start as int, ws_len as int),
            w.wf(),
            w.text_start() == old(w).text_start(),
            w.bytes() + minify_spec(s, i as int, c).0 == old(w).bytes() + whole.0,
            minify_spec(s, i as int, c).1 == whole.1,
        decreases n - i,
    {
        let start = i;
        proof {
            lemma_next_stop(s, start as int, c);
        }
        i = next_stop(data, i, comments);
        proof {
            lemma_copy_run(s, start as int, i as int, c);
            if i < n {
                assert(s[i as int] < 0x80);
                vstd::utf8::is_char_boundary_iff_not_is_continuation_byte(s, i as int);
            }
        }
        if i > start {
            let ghost before = w.bytes();
            copy_run(w, data, start, i);
            proof {
                assert(w.bytes() + minify_spec(s, i as int, c).0 =~= before + (s.subrange(start as int, i as int) + minify_spec(s, i as int, c).0));
            }
        } else {
            proof {
                assert(s.subrange(start as int, i as int) =~= Seq::<u8>::empty());
                assert(Seq::<u8>::empty() + minify_spec(s, i as int, c).0 =~= minify_spec(s, i as int, c).0);
            }
        }
        if i < n {
            match step(data, w, i, ws_start, ws_len) {
                Ok((i2, s2, l2)) => {
                    i = i2;
                    ws_start = s2;
                    ws_len = l2;
                },
                Err(e) => return Err(e),
            }
        }
    }
    proof {
        reveal(minify_spec);
        assert(w.bytes() + Seq::<u8>::empty() =~= w.bytes());
    }
    Ok(())
}

/// Strip the insignificant whitespace out of a JSON document.
pub fn minify(input: &str) -> (r: Result<String, Error>)
    ensures
        match minify_error(minify_spec(input.spec_bytes(), 0, Standard::spec_settings().allow_comments).1) {
            Ok(()) => r matches Ok(out) && encode_utf8(out@) == minify_spec(input.spec_bytes(), 0, Standard::spec_settings().allow_comments).0,
            Err(e) => r == Err::<String, Error>(e),
        },
        r matches Ok(out) ==> encode_utf8(out@).len() <= input.spec_bytes().len(),
{
    minify_with::<Standard>(input)
}

/// [`minify`] under an explicit policy, whose one relevant setting is
/// whether comments are whitespace.
pub fn minify_with<O: Options>(input: &str) -> (r: Result<String, Error>)
    ensures
        match minify_error(minify_spec(input.spec_bytes(), 0, O::spec_settings().allow_comments).1) {
            Ok(()) => r matches Ok(out) && encode_utf8(out@) == minify_spec(input.spec_bytes(), 0, O::spec_settings().allow_comments).0,
            Err(e) => r == Err::<String, Error>(e),
        },
        r matches Ok(out) ==> encode_utf8(out@).len() <= input.spec_bytes().len(),
{
    proof {
        lemma_minify_never_longer(input.spec_bytes(), 0, O::spec_settings().allow_comments);
    }
    let mut out = String::new();
    match minify_into_with::<O>(input, &mut out) {
        Ok(()) => Ok(out),
        Err(e) => Err(e),
    }
}

/// [`minify`] into an existing `String`, replacing its contents. On failure
/// `out` holds what was copied before the error.
pub fn minify_into(input: &str, out: &mut String) -> (r: Result<(), Error>)
    ensures
        encode_utf8(final(out)@) == minify_spec(input.spec_bytes(), 0, Standard::spec_settings().allow_comments).0,
        r == minify_error(minify_spec(input.spec_bytes(), 0, Standard::spec_settings().allow_comments).1),
        encode_utf8(final(out)@).len() <= input.spec_bytes().len(),
{
    minify_into_with::<Standard>(input, out)
}

/// [`minify_into`] under an explicit policy.
pub fn minify_into_with<O: Options>(input: &str, out: &mut String) -> (r: Result<(), Error>)
    ensures
        encode_utf8(final(out)@) == minify_spec(input.spec_bytes(), 0, O::spec_settings().allow_comments).0,
        r == minify_error(minify_spec(input.spec_bytes(), 0, O::spec_settings().allow_comments).1),
        encode_utf8(final(out)@).len() <= input.spec_bytes().len(),
{
    let mut w: Writer<O> = Writer::with_capacity(input.as_bytes().len());
    proof {
        lemma_str_valid(input);
        lemma_minify_never_longer(input.spec_bytes(), 0, O::spec_settings().allow_comments);
    }
    let result = scan::<O>(input.as_bytes(), &mut w);
    proof {
        assert(w.bytes().subrange(0, 0) =~= Seq::<u8>::empty());
        crate::text::lemma_empty_valid();
        assert(Seq::<u8>::empty() + minify_spec(input.spec_bytes(), 0, O::spec_settings().allow_comments).0
            =~= minify_spec(input.spec_bytes(), 0, O::spec_settings().allow_comments).0);
    }
    *out = w.into_string();
    result
}

/// Minifying never lengthens a document: what the minifier writes from
/// `i` on, whether it finishes or stops at a failure, is no longer than
/// what is left of the input.
pub proof fn lemma_minify_never_longer(s: Seq<u8>, i: int, c: bool)
    requires
        0 <= i,
    ensures
        minify_spec(s, i, c).0.len() <= if i <= s.len() { s.len() - i } else { 0 },
    decreases s.len() - i,
{
    reveal(minify_spec);
    if i < 0 || i >= s.len() {
    } else if s[i] == 0x22 {
        match string_end_from(s, i + 1) {
            None => {},
            Some(e) => if i < e <= s.len() {
                lemma_minify_never_longer(s, e, c);
            },
        }
    } else if is_stop(s[i], c) {
        let after = ws_end(s, i, c);
        if after == i {
            if !(c && s[i] == 0x2f) {
                lemma_minify_never_longer(s, i + 1, c);
            }
        } else if i > 0 && after < s.len() && spec_scalar_byte(s[i - 1]) && spec_scalar_byte(s[after]) {
        } else if i < after <= s.len() {
            lemma_minify_never_longer(s, after, c);
        }
    } else {
        lemma_minify_never_longer(s, i + 1, c);
    }
}

} // verus!

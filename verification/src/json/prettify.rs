//! Laying a JSON document out again.
//!
//! The walk reads the document's structure with the parser and writes it
//! back with the writer, so the output is laid out by the policy's settings:
//! indented under [`Pretty`], compact under [`Standard`](crate::Standard).
//! Tokens are copied through as they stand; the structure is checked, and a
//! document that is not JSON is refused at the byte where it stops being so.
use vstd::prelude::*;
use vstd::string::StringSliceAdditionalSpecFns;
use vstd::utf8::*;
use crate::error::{Error, ErrorCode};
use crate::json::compose::{colon_text, item_text};
use crate::json::parser::{
    lemma_skip_body, lemma_ws_end, lit_at, skip_body, spec_colon, spec_comma_or_close,
    spec_skip_scalar, ws_end, Parser, MAX_DEPTH,
};
use crate::json::writer::{bool_text, closed_text, inner_level, lemma_closed_text_append, line_text, null_text, Writer};
use crate::options::{Options, Pretty, Settings};
use crate::text::{at_boundary, lemma_after_ascii, lemma_slice_valid};

verus! {

/// An outcome of the walk: the result, where the cursor stopped, and the
/// text written on the way.
pub type Laid = (Result<(), ErrorCode>, int, Seq<u8>);

/// Copying the token at `i`: one of the three literals, or a scalar stepped
/// over and copied as it stands.
pub open spec fn copy_token_spec(s: Seq<u8>, i: int) -> Laid {
    if 0 <= i < s.len() && s[i] == 0x74 {
        if lit_at(s, i, seq![0x74u8, 0x72u8, 0x75u8, 0x65u8]) {
            (Ok(()), i + 4, bool_text(true))
        } else {
            (Err(ErrorCode::ExpectedTrue), i, Seq::empty())
        }
    } else if 0 <= i < s.len() && s[i] == 0x66 {
        if lit_at(s, i, seq![0x66u8, 0x61u8, 0x6cu8, 0x73u8, 0x65u8]) {
            (Ok(()), i + 5, bool_text(false))
        } else {
            (Err(ErrorCode::ExpectedFalse), i, Seq::empty())
        }
    } else if 0 <= i < s.len() && s[i] == 0x6e {
        if lit_at(s, i, seq![0x6eu8, 0x75u8, 0x6cu8, 0x6cu8]) {
            (Ok(()), i + 4, null_text())
        } else {
            (Err(ErrorCode::ExpectedNull), i, Seq::empty())
        }
    } else {
        let (r, p) = spec_skip_scalar(s, i);
        match r {
            Ok(_) => (Ok(()), p, s.subrange(i, p)),
            Err(e) => (Err(e), p, Seq::empty()),
        }
    }
}

/// A container around the outcome of laying out its body: closed after
/// success, left open at a failure.
pub open spec fn enclosed(open: u8, close: u8, body: Laid, wl: nat, st: Settings) -> Laid {
    match body.0 {
        Ok(_) => (Ok(()), body.1, closed_text(seq![open] + body.2, close, wl, st)),
        Err(e) => (Err(e), body.1, seq![open] + body.2),
    }
}

/// Laying out the value at `i`, the cursor on its first byte, at parser
/// level `d` and writer level `wl`.
pub open spec fn lay_value(s: Seq<u8>, i: int, d: nat, wl: nat, c: bool, st: Settings) -> Laid
    decreases s.len() - i, 1int,
{
    if !(0 <= i <= s.len()) {
        (Err(ErrorCode::UnexpectedEnd), i, Seq::empty())
    } else if i < s.len() && (s[i] == 0x7b || s[i] == 0x5b) {
        let open = s[i];
        let close: u8 = if open == 0x7b { 0x7du8 } else { 0x5du8 };
        if d >= MAX_DEPTH {
            (Err(ErrorCode::ExceededMaxDepth), i + 1, Seq::empty())
        } else {
            let inner = inner_level(open, wl, st);
            let k = ws_end(s, i + 1, c);
            if 0 <= k < s.len() && s[k] == close {
                (Ok(()), k + 1, closed_text(seq![open], close, wl, st))
            } else if !(i < k <= s.len()) {
                (Err(ErrorCode::UnexpectedEnd), k, Seq::empty())
            } else {
                let body = if open == 0x7b {
                    lay_members(s, k, d + 1, inner, c, st)
                } else {
                    lay_elements(s, k, d + 1, inner, c, st, true)
                };
                enclosed(open, close, body, wl, st)
            }
        }
    } else {
        copy_token_spec(s, i)
    }
}

/// Laying out the members of an object from `m`, where a key is due,
/// through the closing brace, at writer level `wl`.
pub open spec fn lay_members(s: Seq<u8>, m: int, d: nat, wl: nat, c: bool, st: Settings) -> Laid
    decreases s.len() - m, 2int,
{
    if !(0 <= m < s.len()) {
        (Err(ErrorCode::UnexpectedEnd), m, Seq::empty())
    } else if s[m] != 0x22 {
        (Err(ErrorCode::ExpectedQuote), m, Seq::empty())
    } else {
        let line = line_text(wl, st);
        let (kr, e1, key) = copy_token_spec(s, m);
        match kr {
            Err(e) => (Err(e), e1, line + key),
            Ok(_) => {
                let (cr, p) = spec_colon(s, e1, c);
                match cr {
                    Err(e) => (Err(e), p, line + key),
                    Ok(_) => if !(m < p <= s.len()) {
                        (Err(ErrorCode::UnexpectedEnd), p, Seq::empty())
                    } else {
                        let (vr, q, vt) = lay_value(s, p, d, wl, c, st);
                        let so_far = line + key + colon_text(st) + vt;
                        match vr {
                            Err(e) => (Err(e), q, so_far),
                            Ok(_) => {
                                let done = so_far + seq![0x2cu8];
                                let (sr, t) = spec_comma_or_close(s, q, 0x7du8, c);
                                match sr {
                                    Err(e) => (Err(e), t, done),
                                    Ok(more) => if !more {
                                        (Ok(()), t, done)
                                    } else if !(m < t <= s.len()) {
                                        (Err(ErrorCode::UnexpectedEnd), t, Seq::empty())
                                    } else {
                                        let (r2, p2, rest) = lay_members(s, t, d, wl, c, st);
                                        (r2, p2, done + rest)
                                    },
                                }
                            },
                        }
                    },
                }
            },
        }
    }
}

/// Laying out the elements of an array from `m`, where an element is due,
/// through the closing bracket, at writer level `wl`; `first` says whether
/// this is the first element, which decides the break before it.
pub open spec fn lay_elements(s: Seq<u8>, m: int, d: nat, wl: nat, c: bool, st: Settings, first: bool) -> Laid
    decreases s.len() - m, 2int,
{
    if !(0 <= m <= s.len()) {
        (Err(ErrorCode::UnexpectedEnd), m, Seq::empty())
    } else {
        let brk = item_text(if first { seq![0x5bu8] } else { seq![0x2cu8] }, wl, st);
        let (vr, q, vt) = lay_value(s, m, d, wl, c, st);
        match vr {
            Err(e) => (Err(e), q, brk + vt),
            Ok(_) => {
                let done = brk + vt + seq![0x2cu8];
                let (sr, t) = spec_comma_or_close(s, q, 0x5du8, c);
                match sr {
                    Err(e) => (Err(e), t, done),
                    Ok(more) => if !more {
                        (Ok(()), t, done)
                    } else if !(m < t <= s.len()) {
                        (Err(ErrorCode::UnexpectedEnd), t, Seq::empty())
                    } else {
                        let (r2, p2, rest) = lay_elements(s, t, d, wl, c, st, false);
                        (r2, p2, done + rest)
                    },
                }
            },
        }
    }
}

/// Laying out a whole document: leading whitespace, one value, and nothing
/// after it but whitespace.
pub open spec fn prettify_spec(s: Seq<u8>, st: Settings) -> Laid {
    let c = st.allow_comments;
    let j = ws_end(s, 0, c);
    let (r, p, out) = lay_value(s, j, 0, 0, c, st);
    match r {
        Err(e) => (Err(e), p, out),
        Ok(_) => {
            let f = ws_end(s, p, c);
            if f == s.len() { (Ok(()), f, out) } else { (Err(ErrorCode::TrailingContent), f, out) }
        },
    }
}

pub(crate) proof fn lemma_copy_token_progress(s: Seq<u8>, i: int)
    requires
        0 <= i <= s.len(),
    ensures
        copy_token_spec(s, i).0 is Ok ==> i < copy_token_spec(s, i).1 <= s.len(),
{
    if i < s.len() {
        if s[i] == 0x22 {
            lemma_skip_body(s, i + 1);
        } else if s[i] != 0x74 && s[i] != 0x66 && s[i] != 0x6e {
            crate::json::parser::lemma_number_run_end(s, i);
            if i + 1 <= s.len() {
                crate::json::parser::lemma_number_run_end(s, i + 1);
            }
        }
    }
}

pub(crate) proof fn lemma_lay_value_progress(s: Seq<u8>, i: int, d: nat, wl: nat, c: bool, st: Settings)
    requires
        0 <= i <= s.len(),
    ensures
        lay_value(s, i, d, wl, c, st).0 is Ok ==> i <= lay_value(s, i, d, wl, c, st).1 <= s.len(),
    decreases s.len() - i, 1int,
{
    if i < s.len() && (s[i] == 0x7b || s[i] == 0x5b) {
        if d < MAX_DEPTH {
            lemma_ws_end(s, i + 1, c);
            let k = ws_end(s, i + 1, c);
            let close: u8 = if s[i] == 0x7b { 0x7du8 } else { 0x5du8 };
            let inner = inner_level(s[i], wl, st);
            if 0 <= k < s.len() && s[k] == close {
            } else if !(i < k <= s.len()) {
            } else if s[i] == 0x7b {
                lemma_lay_members_progress(s, k, d + 1, inner, c, st);
            } else {
                lemma_lay_elements_progress(s, k, d + 1, inner, c, st, true);
            }
        }
    } else {
        lemma_copy_token_progress(s, i);
    }
}

pub(crate) proof fn lemma_lay_members_progress(s: Seq<u8>, m: int, d: nat, wl: nat, c: bool, st: Settings)
    requires
        0 <= m <= s.len(),
    ensures
        lay_members(s, m, d, wl, c, st).0 is Ok ==> m <= lay_members(s, m, d, wl, c, st).1 <= s.len(),
    decreases s.len() - m, 2int,
{
    if 0 <= m < s.len() && s[m] == 0x22 {
        lemma_copy_token_progress(s, m);
        let (kr, e1, key) = copy_token_spec(s, m);
        if kr is Ok {
            lemma_ws_end(s, e1, c);
            let a = ws_end(s, e1, c);
            if a < s.len() && s[a] == 0x3a {
                lemma_ws_end(s, a + 1, c);
                let p = ws_end(s, a + 1, c);
                lemma_lay_value_progress(s, p, d, wl, c, st);
                let (vr, q, vt) = lay_value(s, p, d, wl, c, st);
                if vr is Ok {
                    lemma_ws_end(s, q, c);
                    let b = ws_end(s, q, c);
                    if b < s.len() && s[b] == 0x2c {
                        lemma_ws_end(s, b + 1, c);
                        lemma_lay_members_progress(s, ws_end(s, b + 1, c), d, wl, c, st);
                    }
                }
            }
        }
    }
}

pub(crate) proof fn lemma_lay_elements_progress(s: Seq<u8>, m: int, d: nat, wl: nat, c: bool, st: Settings, first: bool)
    requires
        0 <= m <= s.len(),
    ensures
        lay_elements(s, m, d, wl, c, st, first).0 is Ok ==> m <= lay_elements(s, m, d, wl, c, st, first).1 <= s.len(),
    decreases s.len() - m, 2int,
{
    lemma_lay_value_progress(s, m, d, wl, c, st);
    let (vr, q, vt) = lay_value(s, m, d, wl, c, st);
    if vr is Ok {
        lemma_ws_end(s, q, c);
        let b = ws_end(s, q, c);
        if b < s.len() && s[b] == 0x2c {
            lemma_ws_end(s, b + 1, c);
            lemma_lay_elements_progress(s, ws_end(s, b + 1, c), d, wl, c, st, false);
        }
    }
}

pub(crate) proof fn lemma_skip_body_quote(s: Seq<u8>, i: int)
    requires
        0 <= i <= s.len(),
    ensures
        skip_body(s, i) matches Ok(e) ==> i < e <= s.len() && s[e - 1] == 0x22,
    decreases s.len() - i,
{
    crate::json::parser::lemma_first_stop(s, i);
    match crate::json::parser::first_stop(s, i) {
        None => {},
        Some(q) => if s[q] == 0x5c && q + 2 <= s.len() && i < q + 2 {
            lemma_skip_body_quote(s, q + 2);
        },
    }
}

proof fn lemma_number_run_last(s: Seq<u8>, i: int)
    requires
        0 <= i < s.len(),
        crate::json::parser::number_byte(s[i]),
    ensures
        i < crate::json::parser::number_run_end(s, i) <= s.len(),
        crate::json::parser::number_byte(s[crate::json::parser::number_run_end(s, i) - 1]),
    decreases s.len() - i,
{
    assert(crate::json::parser::number_run_end(s, i) == crate::json::parser::number_run_end(s, i + 1));
    if i + 1 < s.len() && crate::json::parser::number_byte(s[i + 1]) {
        lemma_number_run_last(s, i + 1);
    } else {
        assert(crate::json::parser::number_run_end(s, i + 1) == i + 1);
    }
}

/// Copy the token at the cursor to the output.
fn copy_token<'de, O: Options>(p: &mut Parser<'de, O>, w: &mut Writer<O>) -> (r: Result<(), ErrorCode>)
    requires
        old(p).wf(),
        old(w).wf(),
    ensures
        r == copy_token_spec(old(p).input(), old(p).pos()).0,
        final(p).moved(old(p), copy_token_spec(old(p).input(), old(p).pos()).1),
        final(w).wf(),
        final(w).bytes() == old(w).bytes() + copy_token_spec(old(p).input(), old(p).pos()).2,
        final(w).text_start() == old(w).text_start(),
        final(w).level() == old(w).level(),
{
    let ghost s = p.input();
    let ghost i = p.pos();
    proof {
        p.lemma_wf();
        lemma_copy_token_progress(s, i);
    }
    match p.peek() {
        Some(b) => {
            if b == 0x74u8 {
                let lit: [u8; 4] = [0x74u8, 0x72u8, 0x75u8, 0x65u8];
                proof { assert(lit@ =~= seq![0x74u8, 0x72u8, 0x75u8, 0x65u8]); }
                match p.expect_lit(&lit, ErrorCode::ExpectedTrue) {
                    Ok(()) => {},
                    Err(e) => {
                        proof { assert(w.bytes() + Seq::<u8>::empty() =~= w.bytes()); }
                        return Err(e);
                    },
                }
                w.write_bool(true);
                return Ok(());
            } else if b == 0x66u8 {
                let lit: [u8; 5] = [0x66u8, 0x61u8, 0x6cu8, 0x73u8, 0x65u8];
                proof { assert(lit@ =~= seq![0x66u8, 0x61u8, 0x6cu8, 0x73u8, 0x65u8]); }
                match p.expect_lit(&lit, ErrorCode::ExpectedFalse) {
                    Ok(()) => {},
                    Err(e) => {
                        proof { assert(w.bytes() + Seq::<u8>::empty() =~= w.bytes()); }
                        return Err(e);
                    },
                }
                w.write_bool(false);
                return Ok(());
            } else if b == 0x6eu8 {
                let lit: [u8; 4] = [0x6eu8, 0x75u8, 0x6cu8, 0x6cu8];
                proof { assert(lit@ =~= seq![0x6eu8, 0x75u8, 0x6cu8, 0x6cu8]); }
                match p.expect_lit(&lit, ErrorCode::ExpectedNull) {
                    Ok(()) => {},
                    Err(e) => {
                        proof { assert(w.bytes() + Seq::<u8>::empty() =~= w.bytes()); }
                        return Err(e);
                    },
                }
                w.write_null();
                return Ok(());
            }
        },
        None => {},
    }
    let from = p.rest();
    let start = p.position();
    match p.skip_scalar() {
        Ok(()) => {},
        Err(e) => {
            proof { assert(w.bytes() + Seq::<u8>::empty() =~= w.bytes()); }
            return Err(e);
        },
    }
    let end = p.position();
    proof {
        assert(from@ == s.subrange(start as int, s.len() as int));
        assert(s[start as int] < 0x80);
        vstd::utf8::is_char_boundary_iff_not_is_continuation_byte(s, start as int);
        if s[start as int] == 0x22 {
            lemma_skip_body_quote(s, start + 1);
        } else {
            lemma_number_run_last(s, start as int);
        }
        lemma_after_ascii(s, end - 1);
        lemma_slice_valid(s, start as int, end as int);
        assert(from@.subrange(0, end - start) =~= s.subrange(start as int, end as int));
    }
    w.raw_bytes(&from[0..end - start]);
    Ok(())
}


/// What laying a value out leaves of the parser and the writer: the result
/// and cursor of `out`, its text appended, and, after success, both nesting
/// levels as they were.
spec fn laid<'de, O: Options>(
    p0: Parser<'de, O>,
    p1: Parser<'de, O>,
    w0: Writer<O>,
    w1: Writer<O>,
    r: Result<(), ErrorCode>,
    out: Laid,
) -> bool {
    &&& r == out.0
    &&& p1.wf()
    &&& p1.input() == p0.input()
    &&& p1.pos() == out.1
    &&& (r is Ok ==> p1.level() == p0.level())
    &&& w1.wf()
    &&& w1.bytes() == w0.bytes() + out.2
    &&& w1.text_start() == w0.text_start()
    &&& (r is Ok ==> w1.level() == w0.level())
}

/// What one member's step says of the members from `m`: an error, the last
/// member, or a member with more to follow from `t`.
spec fn member_follows(
    s: Seq<u8>,
    m: int,
    t: int,
    d: nat,
    wl: nat,
    st: Settings,
    added: Seq<u8>,
    r: Result<bool, ErrorCode>,
) -> bool {
    let c = st.allow_comments;
    let lm = lay_members(s, m, d, wl, c, st);
    let next = lay_members(s, t, d, wl, c, st);
    match r {
        Err(e) => lm == (Err::<(), ErrorCode>(e), t, added),
        Ok(more) => if more {
            m < t <= s.len() && lm == (next.0, next.1, added + next.2)
        } else {
            m < t && lm == (Ok::<(), ErrorCode>(()), t, added)
        },
    }
}

/// The same for one element's step.
spec fn element_follows(
    s: Seq<u8>,
    m: int,
    t: int,
    d: nat,
    wl: nat,
    st: Settings,
    first: bool,
    added: Seq<u8>,
    r: Result<bool, ErrorCode>,
) -> bool {
    let c = st.allow_comments;
    let le = lay_elements(s, m, d, wl, c, st, first);
    let next = lay_elements(s, t, d, wl, c, st, false);
    match r {
        Err(e) => le == (Err::<(), ErrorCode>(e), t, added),
        Ok(more) => if more {
            m < t <= s.len() && le == (next.0, next.1, added + next.2)
        } else {
            m < t && le == (Ok::<(), ErrorCode>(()), t, added)
        },
    }
}

/// Lay out the value at the cursor, whatever it is.
fn value<'de, O: Options>(p: &mut Parser<'de, O>, w: &mut Writer<O>) -> (r: Result<(), ErrorCode>)
    requires
        old(p).wf(),
        old(w).wf(),
    ensures
        laid(*old(p), *final(p), *old(w), *final(w), r, lay_value(
            old(p).input(),
            old(p).pos(),
            old(p).level(),
            old(w).level(),
            O::spec_settings().allow_comments,
            O::spec_settings(),
        )),
    decreases old(p).input().len() - old(p).pos(), 2int,
{
    proof {
        p.lemma_wf();
        }
    match p.peek() {
        Some(b) => {
            if b == 0x7bu8 {
                return object(p, w);
            } else if b == 0x5bu8 {
                return array(p, w);
            }
        },
        None => {},
    }
    copy_token(p, w)
}

/// One member of an object: its line, its key, the colon, the value and
/// the comma, then what follows it.
#[verifier::spinoff_prover]
#[verifier::rlimit(40)]
fn member_step<'de, O: Options>(p: &mut Parser<'de, O>, w: &mut Writer<O>) -> (r: Result<bool, ErrorCode>)
    requires
        old(p).wf(),
        old(w).wf(),
    ensures
        final(p).wf(),
        final(p).input() == old(p).input(),
        r is Ok ==> final(p).level() == old(p).level(),
        final(w).wf(),
        final(w).text_start() == old(w).text_start(),
        r is Ok ==> final(w).level() == old(w).level(),
        old(w).bytes().len() <= final(w).bytes().len(),
        final(w).bytes() == old(w).bytes() + final(w).bytes().subrange(old(w).bytes().len() as int, final(w).bytes().len() as int),
        member_follows(
            old(p).input(),
            old(p).pos(),
            final(p).pos(),
            old(p).level(),
            old(w).level(),
            O::spec_settings(),
            final(w).bytes().subrange(old(w).bytes().len() as int, final(w).bytes().len() as int),
            r,
        ),
    decreases old(p).input().len() - old(p).pos(), 3int,
{
    let ghost s = p.input();
    let ghost m = p.pos();
    let ghost d = p.level();
    let ghost wl = w.level();
    let ghost st = O::spec_settings();
    let ghost c = st.allow_comments;
    let ghost before = w.bytes();
    proof {
        p.lemma_wf();
            assert(before.subrange(before.len() as int, before.len() as int) =~= Seq::<u8>::empty());
        assert(before + Seq::<u8>::empty() =~= before);
    }
    match p.peek() {
        Some(b) => {
            if b != 0x22u8 {
                return Err(ErrorCode::ExpectedQuote);
            }
        },
        None => {
            return Err(ErrorCode::UnexpectedEnd);
        },
    }
    w.line();
    let ghost line = line_text(wl, st);
    proof {
        lemma_copy_token_progress(s, m);
    }
    let ghost key = copy_token_spec(s, m).2;
    match copy_token(p, w) {
        Ok(()) => {},
        Err(e) => {
            proof {
                assert(w.bytes() =~= before + (line + key));
                assert(w.bytes().subrange(before.len() as int, w.bytes().len() as int) =~= line + key);
            }
            return Err(e);
        },
    }
    let ghost e1 = p.pos();
    proof {
        lemma_ws_end(s, e1, c);
    }
    match p.colon() {
        Ok(()) => {},
        Err(e) => {
            proof {
                assert(w.bytes() =~= before + (line + key));
                assert(w.bytes().subrange(before.len() as int, w.bytes().len() as int) =~= line + key);
            }
            return Err(e);
        },
    }
    proof {
        lemma_ws_end(s, ws_end(s, e1, c) + 1, c);
    }
    w.colon();
    let ghost pv = p.pos();
    proof {
        lemma_lay_value_progress(s, pv, d, wl, c, st);
    }
    let ghost vt = lay_value(s, pv, d, wl, c, st).2;
    match value(p, w) {
        Ok(()) => {},
        Err(e) => {
            proof {
                assert(w.bytes() =~= before + (line + key + colon_text(st) + vt));
                assert(w.bytes().subrange(before.len() as int, w.bytes().len() as int) =~= line + key + colon_text(st) + vt);
            }
            return Err(e);
        },
    }
    w.push(0x2cu8);
    let ghost q = p.pos();
    let ghost done = line + key + colon_text(st) + vt + seq![0x2cu8];
    proof {
        assert(w.bytes() =~= before + done);
        assert(w.bytes().subrange(before.len() as int, w.bytes().len() as int) =~= done);
        lemma_ws_end(s, q, c);
        if ws_end(s, q, c) < s.len() {
            lemma_ws_end(s, ws_end(s, q, c) + 1, c);
        }
    }
    p.comma_or_close(0x7du8)
}

/// One element of an array: its break, the value and the comma, then what
/// follows it.
#[verifier::spinoff_prover]
#[verifier::rlimit(80)]
fn element_step<'de, O: Options>(p: &mut Parser<'de, O>, w: &mut Writer<O>, first: Ghost<bool>) -> (r: Result<bool, ErrorCode>)
    requires
        old(p).wf(),
        old(w).wf(),
        old(w).bytes().len() > 0,
        old(w).bytes().last() == (if first@ { 0x5bu8 } else { 0x2cu8 }),
    ensures
        final(p).wf(),
        final(p).input() == old(p).input(),
        r is Ok ==> final(p).level() == old(p).level(),
        final(w).wf(),
        final(w).text_start() == old(w).text_start(),
        r is Ok ==> final(w).level() == old(w).level(),
        r is Ok ==> final(w).bytes().len() > 0 && final(w).bytes().last() == 0x2c,
        old(w).bytes().len() <= final(w).bytes().len(),
        final(w).bytes() == old(w).bytes() + final(w).bytes().subrange(old(w).bytes().len() as int, final(w).bytes().len() as int),
        element_follows(
            old(p).input(),
            old(p).pos(),
            final(p).pos(),
            old(p).level(),
            old(w).level(),
            O::spec_settings(),
            first@,
            final(w).bytes().subrange(old(w).bytes().len() as int, final(w).bytes().len() as int),
            r,
        ),
    decreases old(p).input().len() - old(p).pos(), 3int,
{
    let ghost s = p.input();
    let ghost m = p.pos();
    let ghost d = p.level();
    let ghost wl = w.level();
    let ghost st = O::spec_settings();
    let ghost c = st.allow_comments;
    let ghost before = w.bytes();
    proof {
        p.lemma_wf();
        }
    w.item();
    let ghost brk = item_text(if first@ { seq![0x5bu8] } else { seq![0x2cu8] }, wl, st);
    proof {
        lemma_lay_value_progress(s, m, d, wl, c, st);
        assert(w.bytes() == before + brk);
    }
    let ghost vt = lay_value(s, m, d, wl, c, st).2;
    match value(p, w) {
        Ok(()) => {},
        Err(e) => {
            proof {
                assert(w.bytes() =~= before + (brk + vt));
                assert(w.bytes().subrange(before.len() as int, w.bytes().len() as int) =~= brk + vt);
            }
            return Err(e);
        },
    }
    w.push(0x2cu8);
    let ghost q = p.pos();
    let ghost done = brk + vt + seq![0x2cu8];
    proof {
        assert(w.bytes() =~= before + done);
        assert(w.bytes().subrange(before.len() as int, w.bytes().len() as int) =~= done);
        lemma_ws_end(s, q, c);
        if ws_end(s, q, c) < s.len() {
            lemma_ws_end(s, ws_end(s, q, c) + 1, c);
        }
    }
    p.comma_or_close(0x5du8)
}

/// `{ "key": value, ... }`, one member per line.
fn object<'de, O: Options>(p: &mut Parser<'de, O>, w: &mut Writer<O>) -> (r: Result<(), ErrorCode>)
    requires
        old(p).wf(),
        old(w).wf(),
        old(p).pos() < old(p).input().len(),
        old(p).input()[old(p).pos()] == 0x7b,
    ensures
        laid(*old(p), *final(p), *old(w), *final(w), r, lay_value(
            old(p).input(),
            old(p).pos(),
            old(p).level(),
            old(w).level(),
            O::spec_settings().allow_comments,
            O::spec_settings(),
        )),
    decreases old(p).input().len() - old(p).pos(), 1int,
{
    let ghost s = p.input();
    let ghost i = p.pos();
    let ghost d = p.level();
    let ghost wl = w.level();
    let ghost st = O::spec_settings();
    let ghost c = st.allow_comments;
    let ghost before = w.bytes();
    let ghost ts = w.text_start();
    proof {
        w.lemma_wf();
        p.lemma_wf();
            assert(before + Seq::<u8>::empty() =~= before);
    }
    match p.expect(0x7bu8, ErrorCode::ExpectedBrace) {
        Ok(()) => {},
        Err(e) => return Err(e),
    }
    match p.enter() {
        Ok(()) => {},
        Err(e) => return Err(e),
    }
    let grew = w.open(0x7bu8);
    p.skip_ws();
    proof {
        lemma_ws_end(s, i + 1, c);
    }
    let ghost inner = w.level();
    let ghost k = p.pos();
    let ghost base = w.bytes();
    let ghost mut acc: Seq<u8> = Seq::empty();
    proof {
        assert(base =~= before + seq![0x7bu8]);
    }
    if !p.try_byte(0x7du8) {
        let mut going = true;
        proof {
            assert(base + acc =~= base);
            let lm = lay_members(s, k, d + 1, inner, c, st);
            assert(acc + lm.2 =~= lm.2);
        }
        while going
            invariant
                p.wf(),
                p.input() == s,
                p.level() == d + 1,
                old(p).input() == s,
                old(p).pos() == i,
                st == O::spec_settings(),
                c == st.allow_comments,
                w.wf(),
                w.text_start() == ts,
                w.level() == inner,
                w.bytes() == base + acc,
                base == before + seq![0x7bu8],
                s[i] == 0x7bu8,
                k == ws_end(s, i + 1, c),
                !(k < s.len() && s[k] == 0x7du8),
                inner == inner_level(0x7bu8, wl, st),
                wl == old(w).level(),
                d == old(p).level(),
                d < MAX_DEPTH,
                before == old(w).bytes(),
                ts == old(w).text_start(),
                lay_value(s, i, d, wl, c, st) == enclosed(0x7bu8, 0x7du8, lay_members(s, k, d + 1, inner, c, st), wl, st),
                i < k <= p.pos() <= s.len(),
                going ==> lay_members(s, k, d + 1, inner, c, st) == (
                    lay_members(s, p.pos(), d + 1, inner, c, st).0,
                    lay_members(s, p.pos(), d + 1, inner, c, st).1,
                    acc + lay_members(s, p.pos(), d + 1, inner, c, st).2,
                ),
                !going ==> lay_members(s, k, d + 1, inner, c, st) == (Ok::<(), ErrorCode>(()), p.pos(), acc),
            decreases (if going { s.len() - p.pos() + 1 } else { 0 }),
        {
            let ghost m = p.pos();
            let ghost wb = w.bytes();
            let step = member_step(p, w);
            proof {
                p.lemma_wf();
                let added = w.bytes().subrange(wb.len() as int, w.bytes().len() as int);
                let lm_m = lay_members(s, m, d + 1, inner, c, st);
                let lm_t = lay_members(s, p.pos(), d + 1, inner, c, st);
                assert(base + (acc + added) =~= w.bytes());
                if step matches Ok(true) {
                    assert(acc + (added + lm_t.2) =~= (acc + added) + lm_t.2);
                }
                acc = acc + added;
            }
            match step {
                Ok(more) => {
                    going = more;
                },
                Err(e) => {
                    proof {
                        assert(w.bytes() =~= before + (seq![0x7bu8] + acc));
                    }
                    return Err(e);
                },
            }
        }
    }
    proof {
        assert(w.bytes() =~= before + (seq![0x7bu8] + acc));
        lemma_closed_text_append(before, seq![0x7bu8] + acc, 0x7du8, wl, st);
    }
    w.close(0x7du8, grew);
    p.leave();
    Ok(())
}

/// `[value, ...]`, one element per line or all on one, as the policy says.
fn array<'de, O: Options>(p: &mut Parser<'de, O>, w: &mut Writer<O>) -> (r: Result<(), ErrorCode>)
    requires
        old(p).wf(),
        old(w).wf(),
        old(p).pos() < old(p).input().len(),
        old(p).input()[old(p).pos()] == 0x5b,
    ensures
        laid(*old(p), *final(p), *old(w), *final(w), r, lay_value(
            old(p).input(),
            old(p).pos(),
            old(p).level(),
            old(w).level(),
            O::spec_settings().allow_comments,
            O::spec_settings(),
        )),
    decreases old(p).input().len() - old(p).pos(), 1int,
{
    let ghost s = p.input();
    let ghost i = p.pos();
    let ghost d = p.level();
    let ghost wl = w.level();
    let ghost st = O::spec_settings();
    let ghost c = st.allow_comments;
    let ghost before = w.bytes();
    let ghost ts = w.text_start();
    proof {
        w.lemma_wf();
        p.lemma_wf();
            assert(before + Seq::<u8>::empty() =~= before);
    }
    match p.expect(0x5bu8, ErrorCode::ExpectedBracket) {
        Ok(()) => {},
        Err(e) => return Err(e),
    }
    match p.enter() {
        Ok(()) => {},
        Err(e) => return Err(e),
    }
    let grew = w.open(0x5bu8);
    p.skip_ws();
    proof {
        lemma_ws_end(s, i + 1, c);
    }
    let ghost inner = w.level();
    let ghost k = p.pos();
    let ghost base = w.bytes();
    let ghost mut acc: Seq<u8> = Seq::empty();
    proof {
        assert(base =~= before + seq![0x5bu8]);
    }
    if !p.try_byte(0x5du8) {
        let mut going = true;
        let ghost mut first = true;
        proof {
            assert(base + acc =~= base);
            let le = lay_elements(s, k, d + 1, inner, c, st, true);
            assert(acc + le.2 =~= le.2);
        }
        while going
            invariant
                p.wf(),
                p.input() == s,
                p.level() == d + 1,
                old(p).input() == s,
                old(p).pos() == i,
                st == O::spec_settings(),
                c == st.allow_comments,
                w.wf(),
                w.text_start() == ts,
                w.level() == inner,
                w.bytes() == base + acc,
                base == before + seq![0x5bu8],
                s[i] == 0x5bu8,
                k == ws_end(s, i + 1, c),
                !(k < s.len() && s[k] == 0x5du8),
                inner == inner_level(0x5bu8, wl, st),
                wl == old(w).level(),
                d == old(p).level(),
                d < MAX_DEPTH,
                before == old(w).bytes(),
                ts == old(w).text_start(),
                lay_value(s, i, d, wl, c, st) == enclosed(0x5bu8, 0x5du8, lay_elements(s, k, d + 1, inner, c, st, true), wl, st),
                w.bytes().len() > 0,
                w.bytes().last() == (if first { 0x5bu8 } else { 0x2cu8 }),
                i < k <= p.pos() <= s.len(),
                going ==> lay_elements(s, k, d + 1, inner, c, st, true) == (
                    lay_elements(s, p.pos(), d + 1, inner, c, st, first).0,
                    lay_elements(s, p.pos(), d + 1, inner, c, st, first).1,
                    acc + lay_elements(s, p.pos(), d + 1, inner, c, st, first).2,
                ),
                !going ==> lay_elements(s, k, d + 1, inner, c, st, true) == (Ok::<(), ErrorCode>(()), p.pos(), acc),
            decreases (if going { s.len() - p.pos() + 1 } else { 0 }),
        {
            let ghost m = p.pos();
            let ghost wb = w.bytes();
            let step = element_step(p, w, Ghost(first));
            proof {
                p.lemma_wf();
                let added = w.bytes().subrange(wb.len() as int, w.bytes().len() as int);
                let le_t = lay_elements(s, p.pos(), d + 1, inner, c, st, false);
                assert(base + (acc + added) =~= w.bytes());
                if step matches Ok(true) {
                    assert(acc + (added + le_t.2) =~= (acc + added) + le_t.2);
                }
                acc = acc + added;
                first = false;
            }
            match step {
                Ok(more) => {
                    going = more;
                },
                Err(e) => {
                    proof {
                        assert(w.bytes() =~= before + (seq![0x5bu8] + acc));
                    }
                    return Err(e);
                },
            }
        }
    }
    proof {
        assert(w.bytes() =~= before + (seq![0x5bu8] + acc));
        lemma_closed_text_append(before, seq![0x5bu8] + acc, 0x5du8, wl, st);
    }
    w.close(0x5du8, grew);
    p.leave();
    Ok(())
}

/// One whole document: the value, then nothing but whitespace.
fn walk<'de, O: Options>(p: &mut Parser<'de, O>, w: &mut Writer<O>) -> (r: Result<(), ErrorCode>)
    requires
        old(p).wf(),
        old(p).pos() == 0,
        old(p).level() == 0,
        old(w).wf(),
        old(w).level() == 0,
    ensures
        r == prettify_spec(old(p).input(), O::spec_settings()).0,
        final(p).pos() == prettify_spec(old(p).input(), O::spec_settings()).1,
        final(w).wf(),
        final(w).bytes() == old(w).bytes() + prettify_spec(old(p).input(), O::spec_settings()).2,
        final(w).text_start() == old(w).text_start(),
{
    p.skip_ws();
    match value(p, w) {
        Ok(()) => {},
        Err(e) => return Err(e),
    }
    p.finish()
}

/// What a layout pass returns for the outcome `l`: success, or its error
/// at the byte where the walk stopped.
pub open spec fn laid_result(l: Laid) -> Result<(), Error> {
    match l.0 {
        Ok(_) => Ok(()),
        Err(code) => Err(Error { code, index: l.1 as usize, key: None }),
    }
}

/// Lay out a JSON document across indented lines, two spaces per level and
/// one member or element per line: [`Pretty`].
pub fn prettify(input: &str) -> (r: Result<String, Error>)
    ensures
        match laid_result(prettify_spec(input.spec_bytes(), Pretty::spec_settings())) {
            Ok(()) => r matches Ok(out) && encode_utf8(out@) == prettify_spec(input.spec_bytes(), Pretty::spec_settings()).2,
            Err(e) => r == Err::<String, Error>(e),
        },
{
    prettify_with::<Pretty>(input)
}

/// [`prettify`] under an explicit policy, which decides the layout exactly
/// as it does when a value is written; a compact policy compacts.
pub fn prettify_with<O: Options>(input: &str) -> (r: Result<String, Error>)
    ensures
        match laid_result(prettify_spec(input.spec_bytes(), O::spec_settings())) {
            Ok(()) => r matches Ok(out) && encode_utf8(out@) == prettify_spec(input.spec_bytes(), O::spec_settings()).2,
            Err(e) => r == Err::<String, Error>(e),
        },
{
    let mut out = String::new();
    match prettify_into_with::<O>(input, &mut out) {
        Ok(()) => Ok(out),
        Err(e) => Err(e),
    }
}

/// [`prettify`] into an existing `String`, replacing its contents. On
/// failure `out` holds what was laid out before the error.
pub fn prettify_into(input: &str, out: &mut String) -> (r: Result<(), Error>)
    ensures
        encode_utf8(final(out)@) == prettify_spec(input.spec_bytes(), Pretty::spec_settings()).2,
        r == laid_result(prettify_spec(input.spec_bytes(), Pretty::spec_settings())),
{
    prettify_into_with::<Pretty>(input, out)
}

/// [`prettify_into`] under an explicit policy.
pub fn prettify_into_with<O: Options>(input: &str, out: &mut String) -> (r: Result<(), Error>)
    ensures
        encode_utf8(final(out)@) == prettify_spec(input.spec_bytes(), O::spec_settings()).2,
        r == laid_result(prettify_spec(input.spec_bytes(), O::spec_settings())),
{
    let n = input.as_bytes().len();
    let cap = if O::settings().pretty {
        match n.checked_mul(2) {
            Some(m) => m,
            None => usize::MAX,
        }
    } else {
        n
    };
    let mut w: Writer<O> = Writer::with_capacity(cap);
    let mut p: Parser<'_, O> = Parser::with_options(input);
    let result = walk(&mut p, &mut w);
    proof {
        assert(w.bytes().subrange(0, 0) =~= Seq::<u8>::empty());
        crate::text::lemma_empty_valid();
        assert(Seq::<u8>::empty() + prettify_spec(input.spec_bytes(), O::spec_settings()).2
            =~= prettify_spec(input.spec_bytes(), O::spec_settings()).2);
    }
    *out = w.into_string();
    match result {
        Ok(()) => Ok(()),
        Err(code) => Err(Error::new(code, p.position())),
    }
}

} // verus!

//! The structural walks of the parser: stepping over a whole value, and
//! driving arrays and objects for the readers that fill containers.
use vstd::prelude::*;
use crate::error::ErrorCode;
use crate::json::parser::{
    lemma_skip_body, lemma_ws_end, skip_body, spec_colon, spec_comma_or_close, spec_skip_scalar,
    ws_end, JsonStr, Parser, MAX_DEPTH,
};
use crate::json::traits::{read_step, Read, ReadArray, ReadEntry, ReadEnum, ReadObject, ReadSeq};
use crate::options::Options;

verus! {

/// What stepping over the value at `i`, at nesting level `d`, gives, and
/// where the cursor ends up.
pub open spec fn skip_value_spec(s: Seq<u8>, i: int, d: nat, c: bool) -> (Result<(), ErrorCode>, int)
    decreases s.len() - i, 1int,
{
    if i < 0 || i > s.len() {
        (Err(ErrorCode::UnexpectedEnd), i)
    } else {
        let j = ws_end(s, i, c);
        if 0 <= j < s.len() && (s[j] == 0x7b || s[j] == 0x5b) {
            if d >= MAX_DEPTH {
                (Err(ErrorCode::ExceededMaxDepth), j + 1)
            } else {
                let k = ws_end(s, j + 1, c);
                let close: u8 = if s[j] == 0x7b { 0x7du8 } else { 0x5du8 };
                if 0 <= k < s.len() && s[k] == close {
                    (Ok(()), k + 1)
                } else if !(i < k <= s.len()) {
                    (Err(ErrorCode::UnexpectedEnd), k)
                } else if s[j] == 0x7b {
                    skip_members(s, k, d + 1, c)
                } else {
                    skip_elements(s, k, d + 1, c)
                }
            }
        } else {
            spec_skip_scalar(s, j)
        }
    }
}

/// The members of an object from `k`, where a key's opening quote is due,
/// through the closing brace.
pub open spec fn skip_members(s: Seq<u8>, k: int, d: nat, c: bool) -> (Result<(), ErrorCode>, int)
    decreases s.len() - k, 2int,
{
    if !(0 <= k < s.len()) {
        (Err(ErrorCode::UnexpectedEnd), k)
    } else if s[k] != 0x22 {
        (Err(ErrorCode::ExpectedQuote), k)
    } else {
        match skip_body(s, k + 1) {
            Err(e) => (Err(e), k + 1),
            Ok(e1) => {
                let (cr, p) = spec_colon(s, e1, c);
                match cr {
                    Err(e) => (Err(e), p),
                    Ok(_) => if !(k <= p <= s.len()) {
                        (Err(ErrorCode::UnexpectedEnd), p)
                    } else {
                        let (vr, q) = skip_value_spec(s, p, d, c);
                        match vr {
                            Err(e) => (Err(e), q),
                            Ok(_) => {
                                let (sr, t) = spec_comma_or_close(s, q, 0x7du8, c);
                                match sr {
                                    Err(e) => (Err(e), t),
                                    Ok(more) => if !more {
                                        (Ok(()), t)
                                    } else if !(k < t <= s.len()) {
                                        (Err(ErrorCode::UnexpectedEnd), t)
                                    } else {
                                        skip_members(s, t, d, c)
                                    },
                                }
                            },
                        }
                    },
                }
            },
        }
    }
}

/// The elements of an array from `k`, where an element is due, through the
/// closing bracket.
pub open spec fn skip_elements(s: Seq<u8>, k: int, d: nat, c: bool) -> (Result<(), ErrorCode>, int)
    decreases s.len() - k, 2int,
{
    if !(0 <= k <= s.len()) {
        (Err(ErrorCode::UnexpectedEnd), k)
    } else {
        let (vr, q) = skip_value_spec(s, k, d, c);
        match vr {
            Err(e) => (Err(e), q),
            Ok(_) => {
                let (sr, t) = spec_comma_or_close(s, q, 0x5du8, c);
                match sr {
                    Err(e) => (Err(e), t),
                    Ok(more) => if !more {
                        (Ok(()), t)
                    } else if !(k < t <= s.len()) {
                        (Err(ErrorCode::UnexpectedEnd), t)
                    } else {
                        skip_elements(s, t, d, c)
                    },
                }
            },
        }
    }
}

/// A value stepped over successfully ends no earlier than it began, and
/// within the input.
pub proof fn lemma_value_progress(s: Seq<u8>, i: int, d: nat, c: bool)
    requires
        0 <= i <= s.len(),
    ensures
        skip_value_spec(s, i, d, c).0 is Ok ==> i <= skip_value_spec(s, i, d, c).1 <= s.len(),
    decreases s.len() - i, 1int,
{
    lemma_ws_end(s, i, c);
    let j = ws_end(s, i, c);
    if 0 <= j < s.len() && (s[j] == 0x7b || s[j] == 0x5b) {
        if d < MAX_DEPTH {
            lemma_ws_end(s, j + 1, c);
            let k = ws_end(s, j + 1, c);
            let close: u8 = if s[j] == 0x7b { 0x7du8 } else { 0x5du8 };
            if 0 <= k < s.len() && s[k] == close {
            } else if !(i < k <= s.len()) {
            } else if s[j] == 0x7b {
                lemma_members_progress(s, k, d + 1, c);
            } else {
                lemma_elements_progress(s, k, d + 1, c);
            }
        }
    } else if j < s.len() {
        if s[j] == 0x22 {
            lemma_skip_body(s, j + 1);
        } else {
            crate::json::parser::lemma_number_run_end(s, j);
        }
    }
}

/// The members of an object, stepped over successfully, end within the
/// input and no earlier than they began.
pub proof fn lemma_members_progress(s: Seq<u8>, k: int, d: nat, c: bool)
    requires
        0 <= k <= s.len(),
    ensures
        skip_members(s, k, d, c).0 is Ok ==> k <= skip_members(s, k, d, c).1 <= s.len(),
    decreases s.len() - k, 2int,
{
    if 0 <= k < s.len() && s[k] == 0x22 {
        lemma_skip_body(s, k + 1);
        match skip_body(s, k + 1) {
            Err(_) => {},
            Ok(e1) => {
                lemma_ws_end(s, e1, c);
                let a = ws_end(s, e1, c);
                if a < s.len() && s[a] == 0x3a {
                    lemma_ws_end(s, a + 1, c);
                    let p = ws_end(s, a + 1, c);
                    lemma_value_progress(s, p, d, c);
                    let q = skip_value_spec(s, p, d, c).1;
                    if skip_value_spec(s, p, d, c).0 is Ok {
                        lemma_ws_end(s, q, c);
                        let b = ws_end(s, q, c);
                        if b < s.len() && s[b] == 0x2c {
                            lemma_ws_end(s, b + 1, c);
                            lemma_members_progress(s, ws_end(s, b + 1, c), d, c);
                        }
                    }
                }
            },
        }
    }
}

/// The elements of an array, stepped over successfully, end within the
/// input and no earlier than they began.
pub proof fn lemma_elements_progress(s: Seq<u8>, k: int, d: nat, c: bool)
    requires
        0 <= k <= s.len(),
    ensures
        skip_elements(s, k, d, c).0 is Ok ==> k <= skip_elements(s, k, d, c).1 <= s.len(),
    decreases s.len() - k, 2int,
{
    lemma_value_progress(s, k, d, c);
    let q = skip_value_spec(s, k, d, c).1;
    if skip_value_spec(s, k, d, c).0 is Ok {
        lemma_ws_end(s, q, c);
        let b = ws_end(s, q, c);
        if b < s.len() && s[b] == 0x2c {
            lemma_ws_end(s, b + 1, c);
            lemma_elements_progress(s, ws_end(s, b + 1, c), d, c);
        }
    }
}

impl<'de, O: Options> Parser<'de, O> {
    /// Discard the next value, whatever it is.
    #[verifier::spinoff_prover]
    pub fn skip_value(&mut self) -> (r: Result<(), ErrorCode>)
        requires
            old(self).wf(),
        ensures
            r == skip_value_spec(old(self).input(), old(self).pos(), old(self).level(), old(self).settings().allow_comments).0,
            final(self).pos() == skip_value_spec(old(self).input(), old(self).pos(), old(self).level(), old(self).settings().allow_comments).1,
            final(self).wf(),
            final(self).input() == old(self).input(),
            final(self).err_key() == old(self).err_key(),
            r is Ok ==> final(self).level() == old(self).level(),
        decreases old(self).input().len() - old(self).pos(), 1int,
    {
        let ghost s = self.input();
        let ghost c = self.settings().allow_comments;
        let ghost i = self.pos();
        let ghost d = self.level();
        proof {
            self.lemma_wf();
            lemma_ws_end(s, i, c);
        }
        self.skip_ws();
        let ghost j = self.pos();
        let ghost want = skip_value_spec(s, i, d, c);
        match self.peek() {
            Some(b) => {
                if b == 0x7bu8 || b == 0x5bu8 {
                    self.try_byte(b);
                    match self.enter() {
                        Ok(()) => {},
                        Err(e) => return Err(e),
                    }
                    proof {
                        lemma_ws_end(s, j + 1, c);
                    }
                    self.skip_ws();
                    let close: u8 = if b == 0x7bu8 { 0x7du8 } else { 0x5du8 };
                    if self.try_byte(close) {
                        self.leave();
                        return Ok(());
                    }
                    let ghost k = self.pos();
                    proof {
                        assert(k == ws_end(s, j + 1, c));
                        assert(d < MAX_DEPTH);
                        assert(i < k <= s.len());
                        if b == 0x7bu8 {
                            assert(want == skip_members(s, k, d + 1, c));
                        } else {
                            assert(want == skip_elements(s, k, d + 1, c));
                        }
                    }
                    let r = if b == 0x7bu8 { self.skip_members() } else { self.skip_elements() };
                    proof {
                        assert(r == want.0);
                    }
                    if r.is_ok() {
                        self.leave();
                    }
                    r
                } else {
                    let r = self.skip_scalar();
                    proof {
                        assert(want == spec_skip_scalar(s, j));
                        assert(r == want.0);
                    }
                    r
                }
            },
            None => {
                let r = self.skip_scalar();
                proof {
                    assert(want == spec_skip_scalar(s, j));
                    assert(r == want.0);
                }
                r
            },
        }
    }

    /// The members of an object, the cursor where a key's opening quote is
    /// due, through the closing brace.
    fn skip_members(&mut self) -> (r: Result<(), ErrorCode>)
        requires
            old(self).wf(),
        ensures
            r == skip_members(old(self).input(), old(self).pos(), old(self).level(), old(self).settings().allow_comments).0,
            final(self).pos() == skip_members(old(self).input(), old(self).pos(), old(self).level(), old(self).settings().allow_comments).1,
            final(self).wf(),
            final(self).input() == old(self).input(),
            final(self).err_key() == old(self).err_key(),
            r is Ok ==> final(self).level() == old(self).level(),
        decreases old(self).input().len() - old(self).pos(), 2int,
    {
        let ghost s = self.input();
        let ghost c = self.settings().allow_comments;
        let ghost d = self.level();
        let ghost k0 = self.pos();
        proof {
            self.lemma_wf();
        }
        loop
            invariant
                self.wf(),
                self.input() == s,
                s == old(self).input(),
                c == old(self).settings().allow_comments,
                self.err_key() == old(self).err_key(),
                self.level() == d,
                d == old(self).level(),
                k0 == old(self).pos(),
                k0 <= self.pos() <= s.len(),
                skip_members(s, self.pos(), d, c) == skip_members(s, k0, d, c),
            decreases s.len() - self.pos(),
        {
            let ghost k = self.pos();
            proof {
                self.lemma_wf();
            }
            match self.expect(0x22u8, ErrorCode::ExpectedQuote) {
                Ok(()) => {},
                Err(e) => return Err(e),
            }
            proof {
                lemma_skip_body(s, k + 1);
            }
            match self.skip_string_body() {
                Ok(()) => {},
                Err(e) => return Err(e),
            }
            let ghost e1 = self.pos();
            proof {
                lemma_ws_end(s, e1, c);
            }
            match self.colon() {
                Ok(()) => {},
                Err(e) => return Err(e),
            }
            proof {
                let a = ws_end(s, e1, c);
                if a < s.len() {
                    lemma_ws_end(s, a + 1, c);
                }
                lemma_value_progress(s, self.pos(), d, c);
            }
            match self.skip_value() {
                Ok(()) => {},
                Err(e) => return Err(e),
            }
            let ghost q = self.pos();
            proof {
                lemma_ws_end(s, q, c);
                let a = ws_end(s, q, c);
                if a < s.len() {
                    lemma_ws_end(s, a + 1, c);
                }
            }
            match self.comma_or_close(0x7du8) {
                Ok(true) => {},
                Ok(false) => return Ok(()),
                Err(e) => return Err(e),
            }
        }
    }

    /// The elements of an array, the cursor where an element is due,
    /// through the closing bracket.
    fn skip_elements(&mut self) -> (r: Result<(), ErrorCode>)
        requires
            old(self).wf(),
        ensures
            r == skip_elements(old(self).input(), old(self).pos(), old(self).level(), old(self).settings().allow_comments).0,
            final(self).pos() == skip_elements(old(self).input(), old(self).pos(), old(self).level(), old(self).settings().allow_comments).1,
            final(self).wf(),
            final(self).input() == old(self).input(),
            final(self).err_key() == old(self).err_key(),
            r is Ok ==> final(self).level() == old(self).level(),
        decreases old(self).input().len() - old(self).pos(), 2int,
    {
        let ghost s = self.input();
        let ghost c = self.settings().allow_comments;
        let ghost d = self.level();
        let ghost k0 = self.pos();
        proof {
            self.lemma_wf();
        }
        loop
            invariant
                self.wf(),
                self.input() == s,
                s == old(self).input(),
                c == old(self).settings().allow_comments,
                self.err_key() == old(self).err_key(),
                self.level() == d,
                d == old(self).level(),
                k0 == old(self).pos(),
                k0 <= self.pos() <= s.len(),
                skip_elements(s, self.pos(), d, c) == skip_elements(s, k0, d, c),
            decreases s.len() - self.pos(),
        {
            proof {
                self.lemma_wf();
                lemma_value_progress(s, self.pos(), d, c);
            }
            match self.skip_value() {
                Ok(()) => {},
                Err(e) => return Err(e),
            }
            let ghost q = self.pos();
            proof {
                lemma_ws_end(s, q, c);
                let a = ws_end(s, q, c);
                if a < s.len() {
                    lemma_ws_end(s, a + 1, c);
                }
            }
            let ghost q = self.pos();
            proof {
                self.lemma_wf();
                let c = self.settings().allow_comments;
                lemma_ws_end(s, q, c);
                let a = ws_end(s, q, c);
                if a < s.len() {
                    lemma_ws_end(s, a + 1, c);
                }
            }
            match self.comma_or_close(0x5du8) {
                Ok(true) => {},
                Ok(false) => return Ok(()),
                Err(e) => return Err(e),
            }
        }
    }
}

/// How a container opening with `open` and closing with `close` begins at
/// `i`, at nesting level `d`: `Some` with the outcome and the cursor where
/// that is decided before any member is read, `None` where members follow,
/// the cursor then on the first of them.
pub open spec fn container_start(s: Seq<u8>, i: int, d: nat, c: bool, open: u8, close: u8, code: ErrorCode)
    -> Option<(Result<(), ErrorCode>, int)>
{
    let j = ws_end(s, i, c);
    if j >= s.len() {
        Some((Err(ErrorCode::UnexpectedEnd), j))
    } else if s[j] != open {
        Some((Err(code), j))
    } else if d >= MAX_DEPTH {
        Some((Err(ErrorCode::ExceededMaxDepth), j + 1))
    } else {
        let k = ws_end(s, j + 1, c);
        if k < s.len() && s[k] == close {
            Some((Ok(()), k + 1))
        } else {
            None
        }
    }
}

/// What reading the elements of an array from `at`, element `index` due,
/// gives where the reader of each element is one the text alone decides:
/// the number of elements or the failure, and where the cursor stops.
/// `None` where some element's reading is not decided so.
pub open spec fn elements_outcome<'de, F: ReadSeq<'de>>(s: Seq<u8>, at: int, index: nat, c: bool) -> Option<
    (Result<nat, ErrorCode>, int),
>
    decreases s.len() - at,
{
    match F::spec_element(index, s, at) {
        None => None,
        Some((Err(e), end)) => Some((Err(e), end)),
        Some((Ok(_), end)) => {
            let (cr, t) = spec_comma_or_close(s, end, 0x5du8, c);
            match cr {
                Err(e) => Some((Err(e), t)),
                Ok(false) => Some((Ok(index + 1), t)),
                Ok(true) => if at < t <= s.len() {
                    elements_outcome::<F>(s, t, index + 1, c)
                } else {
                    None
                },
            }
        },
    }
}

/// Where element `k` of an array starts, walking from element `index` at
/// `at`, for a reader the text alone decides; `None` where the walk stops
/// before it.
pub open spec fn element_start<'de, F: ReadSeq<'de>>(s: Seq<u8>, at: int, index: nat, k: nat, c: bool) -> Option<int>
    decreases s.len() - at,
{
    if k <= index {
        Some(at)
    } else {
        match F::spec_element(index, s, at) {
            Some((Ok(_), end)) => {
                let (cr, t) = spec_comma_or_close(s, end, 0x5du8, c);
                if cr == Ok::<bool, ErrorCode>(true) && at < t <= s.len() {
                    element_start::<F>(s, t, index + 1, k, c)
                } else {
                    None
                }
            },
            _ => None,
        }
    }
}

/// Every element an array is counted to hold has a start.
pub proof fn lemma_element_start_some<'de, F: ReadSeq<'de>>(s: Seq<u8>, at: int, index: nat, k: nat, c: bool)
    requires
        index <= k,
        elements_outcome::<'de, F>(s, at, index, c) matches Some((Ok(n), _)) && k < n,
    ensures
        element_start::<'de, F>(s, at, index, k, c) is Some,
    decreases s.len() - at,
{
    if k > index {
        let (_, end) = F::spec_element(index, s, at)->Some_0;
        let (cr, t) = spec_comma_or_close(s, end, 0x5du8, c);
        assert(cr == Ok::<bool, ErrorCode>(true) && at < t <= s.len());
        lemma_element_start_some::<'de, F>(s, t, index + 1, k, c);
    }
}

/// The walk to the element after `k` goes through `k`: past its text and
/// the comma behind it.
proof fn lemma_element_start_next<'de, F: ReadSeq<'de>>(
    s: Seq<u8>,
    at: int,
    index: nat,
    k: nat,
    c: bool,
    a: int,
    end: int,
    t: int,
)
    requires
        index <= k,
        element_start::<F>(s, at, index, k, c) == Some(a),
        F::spec_element(k, s, a) matches Some((Ok(_), e)) && e == end,
        spec_comma_or_close(s, end, 0x5du8, c) == (Ok::<bool, ErrorCode>(true), t),
        a < t <= s.len(),
    ensures
        element_start::<F>(s, at, index, k + 1, c) == Some(t),
    decreases k - index,
{
    if k > index {
        let (_, e0) = F::spec_element(index, s, at)->Some_0;
        let (_, t0) = spec_comma_or_close(s, e0, 0x5du8, c);
        assert(element_start::<F>(s, at, index, k, c) == element_start::<F>(s, t0, index + 1, k, c));
        lemma_element_start_next::<F>(s, t0, index + 1, k, c, a, end, t);
        assert(element_start::<F>(s, at, index, k + 1, c) == element_start::<F>(s, t0, index + 1, k + 1, c));
    } else {
        assert(a == at);
        assert(element_start::<F>(s, t, index + 1, k + 1, c) == Some(t));
        assert(element_start::<F>(s, at, index, k + 1, c) == element_start::<F>(s, t, index + 1, k + 1, c));
    }
}

/// No more elements are counted than there are bytes left to hold them.
pub proof fn lemma_elements_count_bound<'de, F: ReadSeq<'de>>(s: Seq<u8>, at: int, index: nat, c: bool)
    requires
        0 <= at <= s.len(),
    ensures
        elements_outcome::<'de, F>(s, at, index, c) matches Some((Ok(n), _)) ==> n <= index + (s.len() - at) + 1,
    decreases s.len() - at,
{
    match F::spec_element(index, s, at) {
        Some((Ok(_), end)) => {
            let (cr, t) = spec_comma_or_close(s, end, 0x5du8, c);
            if cr == Ok::<bool, ErrorCode>(true) && at < t <= s.len() {
                lemma_elements_count_bound::<F>(s, t, index + 1, c);
            }
        },
        _ => {},
    }
}

/// What reading the members of an object as a map from `at`, a key due,
/// gives where the taker of each member is one the text alone decides:
/// success or the failure, and where the cursor stops. Each member is
/// handed its key's bytes and whether the key borrows from the input.
/// `None` where some member's taking is not decided so.
pub open spec fn members_outcome<'de, F: ReadEntry<'de>>(s: Seq<u8>, at: int, c: bool) -> Option<
    (Result<(), ErrorCode>, int),
>
    decreases s.len() - at,
{
    let (kr, k) = crate::json::parser::spec_read_string(s, at);
    match kr {
        Err(e) => Some((Err(e), k)),
        Ok(key) => {
            let (cr, v) = spec_colon(s, k, c);
            match cr {
                Err(e) => Some((Err(e), v)),
                Ok(_) => match F::spec_entry(key, crate::json::parser::string_borrows(s, at), s, v) {
                    None => None,
                    Some((Err(e), end)) => Some((Err(e), end)),
                    Some((Ok(_), end)) => {
                        let (sr, t) = spec_comma_or_close(s, end, 0x7du8, c);
                        match sr {
                            Err(e) => Some((Err(e), t)),
                            Ok(false) => Some((Ok(()), t)),
                            Ok(true) => if at < t <= s.len() {
                                members_outcome::<F>(s, t, c)
                            } else {
                                None
                            },
                        }
                    },
                },
            }
        },
    }
}

/// What a key nothing claimed, its opening quote just behind `at`, comes
/// to: refused in place where the policy refuses unknown keys, else the
/// key, the colon and the value stepped over at nesting `level`.
pub open spec fn unclaimed_outcome(s: Seq<u8>, at: int, level: nat, c: bool, refuse: bool) -> (Result<(), ErrorCode>, int) {
    match skip_body(s, at) {
        Err(e) => (Err(e), at),
        Ok(e1) => if refuse {
            (Err(ErrorCode::UnknownKey), at)
        } else {
            let (cr, p) = spec_colon(s, e1, c);
            match cr {
                Err(e) => (Err(e), p),
                Ok(_) => skip_value_spec(s, p, level, c),
            }
        },
    }
}

/// The fields an object must carry: those the type requires, and under a
/// policy that refuses missing keys, every one of its `n` fields among the
/// first 64.
pub open spec fn required_mask(n: u32, required: u64, all: bool) -> u64 {
    if all {
        required | (if n >= 64 { 0xffff_ffff_ffff_ffffu64 } else { ((1u64 << (n as u64)) - 1) as u64 })
    } else {
        required
    }
}

/// What reading the members of an object into a struct from `at`, a key
/// due, gives where the type states its keys, map and required fields and
/// the reading of each field is one the text alone decides: success or the
/// failure, and where the cursor stops. `seen` holds the fields read so
/// far, `mask` those that must be, `open` where the object opened; each key
/// is looked up in the map, a candidate handed to the field, and a key no
/// field claims refused or stepped over as the policy says.
pub open spec fn object_outcome<'de, T: ReadObject<'de>>(
    s: Seq<u8>,
    at: int,
    c: bool,
    level: nat,
    seen: u64,
    mask: u64,
    open: int,
    refuse: bool,
) -> Option<(Result<(), ErrorCode>, int)>
    decreases s.len() - at,
{
    if !(0 <= at < s.len()) {
        Some((Err(ErrorCode::UnexpectedEnd), at))
    } else if s[at] != 0x22 {
        Some((Err(ErrorCode::ExpectedQuote), at))
    } else {
        match (T::spec_key_map(), T::spec_keys()) {
            (Some(m), Some(ks)) => {
                let k = at + 1;
                let index = crate::keymap::spec_lookup(m, crate::keymap::key_seqs(ks), s.subrange(k, s.len() as int));
                let field = if index < m.n { T::spec_field(index as nat, s, k) } else { Some((Ok(false), k)) };
                match field {
                    None => None,
                    Some((Err(e), e1)) => Some((Err(e), e1)),
                    Some((Ok(matched), p1)) => {
                        let seen2 = if matched && index < 64 { seen | (1u64 << (index as u64)) } else { seen };
                        let step = if matched { (Ok(()), p1) } else { unclaimed_outcome(s, k, level, c, refuse) };
                        match step.0 {
                            Err(e) => Some((Err(e), step.1)),
                            Ok(_) => {
                                let (sr, t) = spec_comma_or_close(s, step.1, 0x7du8, c);
                                match sr {
                                    Err(e) => Some((Err(e), t)),
                                    Ok(false) => if seen2 & mask != mask {
                                        Some((Err(ErrorCode::MissingKey), open))
                                    } else {
                                        Some((Ok(()), t))
                                    },
                                    Ok(true) => if at < t <= s.len() {
                                        object_outcome::<T>(s, t, c, level, seen2, mask, open, refuse)
                                    } else {
                                        None
                                    },
                                }
                            },
                        }
                    },
                }
            },
            _ => None,
        }
    }
}

/// What handing the name whose opening quote is just behind `a` to an
/// enum gives, where the type states its names and map and the taking of
/// each variant is one the text alone decides: the name is looked up, a
/// candidate is handed over as a bare name or as an object's key, and a
/// name nothing claims is refused in place once it is a whole string.
pub open spec fn variant_outcome<'de, T: ReadEnum<'de>>(s: Seq<u8>, a: int, payload: bool) -> Option<
    (Result<(), ErrorCode>, int),
> {
    match (T::spec_variant_map(), T::spec_variants()) {
        (Some(m), Some(names)) => {
            let index = crate::keymap::spec_lookup(m, crate::keymap::key_seqs(names), s.subrange(a, s.len() as int));
            let taken = if index < m.n {
                if payload { T::spec_payload(index as nat, s, a) } else { T::spec_name(index as nat, s, a) }
            } else {
                Some((Ok(false), a))
            };
            match taken {
                None => None,
                Some((Err(e), end)) => Some((Err(e), end)),
                Some((Ok(true), end)) => Some((Ok(()), end)),
                Some((Ok(false), _)) => Some((
                    match skip_body(s, a) {
                        Ok(_) => Err(ErrorCode::UnknownVariant),
                        Err(e) => Err(e),
                    },
                    a,
                )),
            }
        },
        _ => None,
    }
}

/// What reading an enum from `i` at nesting `d` gives where the variant's
/// taking is decided by the text: a bare name, or an object holding one
/// member under the name and no other.
pub open spec fn enum_outcome<'de, T: ReadEnum<'de>>(s: Seq<u8>, i: int, d: nat, c: bool) -> Option<
    (Result<(), ErrorCode>, int),
> {
    let j = ws_end(s, i, c);
    if !(0 <= j < s.len()) {
        Some((Err(ErrorCode::UnexpectedEnd), j))
    } else if s[j] == 0x22 {
        variant_outcome::<T>(s, j + 1, false)
    } else if s[j] != 0x7b {
        Some((Err(ErrorCode::ExpectedVariant), j))
    } else if d >= MAX_DEPTH {
        Some((Err(ErrorCode::ExceededMaxDepth), j + 1))
    } else {
        let k = ws_end(s, j + 1, c);
        if k < s.len() && s[k] == 0x7d {
            Some((Err(ErrorCode::ExpectedVariant), j))
        } else if k >= s.len() {
            Some((Err(ErrorCode::UnexpectedEnd), k))
        } else if s[k] != 0x22 {
            Some((Err(ErrorCode::ExpectedQuote), k))
        } else {
            match variant_outcome::<T>(s, k + 1, true) {
                None => None,
                Some((Err(e), end)) => Some((Err(e), end)),
                Some((Ok(_), end)) => {
                    let (sr, t) = spec_comma_or_close(s, end, 0x7du8, c);
                    match sr {
                        Ok(true) => Some((Err(ErrorCode::ExpectedVariant), j)),
                        Ok(false) => Some((Ok(()), t)),
                        Err(e) => Some((Err(e), t)),
                    }
                },
            }
        }
    }
}

/// Where the first member of a container that `container_start` did not
/// settle begins.
pub open spec fn container_body(s: Seq<u8>, i: int, c: bool) -> int {
    ws_end(s, ws_end(s, i, c) + 1, c)
}

impl<'de, O: Options> Parser<'de, O> {
    /// Open a container: whitespace, the opening byte, a level of nesting,
    /// whitespace. `Ok(true)` says it closed at once, and has been left again.
    fn open_container(&mut self, open: u8, close: u8, code: ErrorCode) -> (r: Result<bool, ErrorCode>)
        requires
            old(self).wf(),
        ensures
            final(self).wf(),
            final(self).input() == old(self).input(),
            final(self).err_key() == old(self).err_key(),
            r is Ok ==> old(self).pos() < final(self).pos(),
            match container_start(old(self).input(), old(self).pos(), old(self).level(),
                old(self).settings().allow_comments, open, close, code) {
                Some((res, at)) => final(self).pos() == at && match res {
                    Ok(_) => r == Ok::<bool, ErrorCode>(true) && final(self).level() == old(self).level(),
                    Err(e) => r == Err::<bool, ErrorCode>(e),
                },
                None => r == Ok::<bool, ErrorCode>(false)
                    && final(self).pos() == container_body(old(self).input(), old(self).pos(), old(self).settings().allow_comments)
                    && final(self).level() == old(self).level() + 1
                    && old(self).pos() < final(self).pos(),
            },
    {
        let ghost s = self.input();
        let ghost c = self.settings().allow_comments;
        proof {
            self.lemma_wf();
            lemma_ws_end(s, self.pos(), c);
        }
        self.skip_ws();
        match self.expect(open, code) {
            Ok(()) => {},
            Err(e) => return Err(e),
        }
        match self.enter() {
            Ok(()) => {},
            Err(e) => return Err(e),
        }
        proof {
            lemma_ws_end(s, self.pos(), c);
        }
        self.skip_ws();
        if self.try_byte(close) {
            self.leave();
            return Ok(true);
        }
        Ok(false)
    }

    /// Drive a JSON array, handing each element to `element` with its
    /// zero-based position. Gives the number of elements.
    pub fn read_seq<F: ReadSeq<'de>>(&mut self, element: &mut F) -> (r: Result<usize, ErrorCode>)
        requires
            old(self).wf(),
        ensures
            read_step(*old(self), *final(self), r is Ok),
            match container_start(old(self).input(), old(self).pos(), old(self).level(),
                old(self).settings().allow_comments, 0x5bu8, 0x5du8, ErrorCode::ExpectedBracket) {
                Some((res, at)) => final(self).pos() == at && match res {
                    Ok(_) => r == Ok::<usize, ErrorCode>(0),
                    Err(e) => r == Err::<usize, ErrorCode>(e),
                },
                None => r is Ok ==> r.unwrap() >= 1 && final(self).input()[final(self).pos() - 1] == 0x5d,
            },
            container_start(old(self).input(), old(self).pos(), old(self).level(),
                old(self).settings().allow_comments, 0x5bu8, 0x5du8, ErrorCode::ExpectedBracket) is None
                ==> match elements_outcome::<'de, F>(
                old(self).input(),
                container_body(old(self).input(), old(self).pos(), old(self).settings().allow_comments),
                0,
                old(self).settings().allow_comments,
            ) {
                Some((res, end)) => final(self).pos() == end && match res {
                    Ok(n) => r == Ok::<usize, ErrorCode>(n as usize),
                    Err(e) => r == Err::<usize, ErrorCode>(e),
                },
                None => true,
            },
            r matches Ok(n) ==> (old(element).spec_filled() is Some ==> (final(element).spec_filled() matches Some(b)
                && b >= n)),
            container_start(old(self).input(), old(self).pos(), old(self).level(),
                old(self).settings().allow_comments, 0x5bu8, 0x5du8, ErrorCode::ExpectedBracket) is None
                && elements_outcome::<'de, F>(
                old(self).input(),
                container_body(old(self).input(), old(self).pos(), old(self).settings().allow_comments),
                0,
                old(self).settings().allow_comments,
            ) is Some ==> (r matches Ok(n) ==> forall|k: nat|
                #![trigger element_start::<'de, F>(old(self).input(), container_body(old(self).input(), old(self).pos(), old(self).settings().allow_comments), 0, k, old(self).settings().allow_comments)]
                k < n ==> (element_start::<'de, F>(
                old(self).input(),
                container_body(old(self).input(), old(self).pos(), old(self).settings().allow_comments),
                0,
                k,
                old(self).settings().allow_comments,
            ) matches Some(a) ==> final(element).spec_holds(k, old(self).input(), a))),
    {
        match self.open_container(0x5bu8, 0x5du8, ErrorCode::ExpectedBracket) {
            Ok(true) => return Ok(0),
            Ok(false) => {},
            Err(e) => return Err(e),
        }
        let ghost s = self.input();
        let ghost d = self.level();
        let ghost body = self.pos();
        let mut count: usize = 0;
        proof {
            self.lemma_wf();
            old(self).lemma_wf();
        }
        loop
            invariant
                self.wf(),
                self.input() == s,
                s == old(self).input(),
                self.level() == d,
                d == old(self).level() + 1,
                old(self).pos() < self.pos(),
                count < self.pos(),
                container_start(s, old(self).pos(), old(self).level(), old(self).settings().allow_comments,
                    0x5bu8, 0x5du8, ErrorCode::ExpectedBracket) is None,
                body == container_body(s, old(self).pos(), old(self).settings().allow_comments),
                old(element).spec_filled() is Some ==> (element.spec_filled() matches Some(b) && b >= count),
                elements_outcome::<'de, F>(s, body, 0, old(self).settings().allow_comments) is Some
                    ==> elements_outcome::<'de, F>(s, body, 0, old(self).settings().allow_comments)
                    == elements_outcome::<'de, F>(s, self.pos(), count as nat, old(self).settings().allow_comments),
                elements_outcome::<'de, F>(s, body, 0, old(self).settings().allow_comments) is Some
                    ==> element_start::<'de, F>(s, body, 0, count as nat, old(self).settings().allow_comments)
                    == Some(self.pos() as int),
                elements_outcome::<'de, F>(s, body, 0, old(self).settings().allow_comments) is Some
                    ==> forall|k: nat|
                    #![trigger element_start::<'de, F>(s, body, 0, k, old(self).settings().allow_comments)]
                    k < count ==> (element_start::<'de, F>(s, body, 0, k, old(self).settings().allow_comments)
                    matches Some(a) ==> element.spec_holds(k, s, a)),
            decreases s.len() - self.pos(),
        {
            proof {
                self.lemma_wf();
            }
            let ghost at = self.pos();
            let ghost element_before = *element;
            let er = element.element(count, self);
            proof {
                let c = old(self).settings().allow_comments;
                assert(F::spec_element(count as nat, s, at) matches Some((res, end)) ==> er == res && self.pos() == end);
                if elements_outcome::<'de, F>(s, body, 0, c) is Some {
                    assert(elements_outcome::<'de, F>(s, body, 0, c) == elements_outcome::<'de, F>(s, at, count as nat, c));
                    assert(F::spec_element(count as nat, s, at) is Some);
                    if er is Err {
                        assert(elements_outcome::<'de, F>(s, at, count as nat, c) == Some(
                            (Err::<nat, ErrorCode>(er->Err_0), self.pos()),
                        ));
                    }
                }
            }
            match er {
                Ok(()) => {},
                Err(e) => return Err(e),
            }
            proof {
                let c = old(self).settings().allow_comments;
                if elements_outcome::<'de, F>(s, body, 0, c) is Some {
                    assert forall|k: nat|
                        #![trigger element_start::<'de, F>(s, body, 0, k, c)]
                        k < count + 1 implies (element_start::<'de, F>(s, body, 0, k, c) matches Some(a)
                        ==> element.spec_holds(k, s, a)) by {
                        if k == count {
                            assert(element_start::<'de, F>(s, body, 0, k, c) == Some(at));
                        } else {
                            assert(element_start::<'de, F>(s, body, 0, k, c) matches Some(a)
                                ==> element_before.spec_holds(k, s, a));
                        }
                    }
                }
            }
            count = count + 1;
            let ghost q = self.pos();
            proof {
                self.lemma_wf();
                let c = self.settings().allow_comments;
                lemma_ws_end(s, q, c);
                let a = ws_end(s, q, c);
                if a < s.len() {
                    lemma_ws_end(s, a + 1, c);
                }
            }
            match self.comma_or_close(0x5du8) {
                Ok(true) => {
                    proof {
                        let c = old(self).settings().allow_comments;
                        if elements_outcome::<'de, F>(s, body, 0, c) is Some {
                            lemma_element_start_next::<'de, F>(s, body, 0, (count - 1) as nat, c, at, q, self.pos() as int);
                        }
                    }
                },
                Ok(false) => {
                    self.leave();
                    return Ok(count);
                },
                Err(e) => return Err(e),
            }
        }
    }

    /// Drive a JSON object as a map, handing each member's key and value to
    /// `entry`. The key is borrowed from the input when it holds no escape.
    pub fn read_map<F: ReadEntry<'de>>(&mut self, entry: &mut F) -> (r: Result<(), ErrorCode>)
        requires
            old(self).wf(),
        ensures
            read_step(*old(self), *final(self), r is Ok),
            match container_start(old(self).input(), old(self).pos(), old(self).level(),
                old(self).settings().allow_comments, 0x7bu8, 0x7du8, ErrorCode::ExpectedBrace) {
                Some((res, at)) => final(self).pos() == at && r == res,
                None => r is Ok ==> final(self).input()[final(self).pos() - 1] == 0x7d,
            },
            container_start(old(self).input(), old(self).pos(), old(self).level(),
                old(self).settings().allow_comments, 0x7bu8, 0x7du8, ErrorCode::ExpectedBrace) is None
                ==> match members_outcome::<'de, F>(
                old(self).input(),
                container_body(old(self).input(), old(self).pos(), old(self).settings().allow_comments),
                old(self).settings().allow_comments,
            ) {
                Some((res, end)) => final(self).pos() == end && r == res,
                None => true,
            },
    {
        match self.open_container(0x7bu8, 0x7du8, ErrorCode::ExpectedBrace) {
            Ok(true) => return Ok(()),
            Ok(false) => {},
            Err(e) => return Err(e),
        }
        let ghost s = self.input();
        let ghost d = self.level();
        let ghost body = self.pos();
        loop
            invariant
                self.wf(),
                self.input() == s,
                s == old(self).input(),
                self.level() == d,
                d == old(self).level() + 1,
                old(self).pos() < self.pos(),
                container_start(s, old(self).pos(), old(self).level(), old(self).settings().allow_comments,
                    0x7bu8, 0x7du8, ErrorCode::ExpectedBrace) is None,
                body == container_body(s, old(self).pos(), old(self).settings().allow_comments),
                members_outcome::<'de, F>(s, body, old(self).settings().allow_comments) is Some
                    ==> members_outcome::<'de, F>(s, body, old(self).settings().allow_comments)
                    == members_outcome::<'de, F>(s, self.pos(), old(self).settings().allow_comments),
            decreases s.len() - self.pos(),
        {
            proof {
                self.lemma_wf();
                crate::json::parser::lemma_string_body_progress(s, self.pos() + 1);
            }
            let ghost k0 = self.pos();
            let key = match self.read_string() {
                Ok(k) => k,
                Err(e) => return Err(e),
            };
            let ghost e1 = self.pos();
            proof {
                self.lemma_wf();
                let c = self.settings().allow_comments;
                assert(k0 < e1);
                lemma_ws_end(s, e1, c);
                let a = ws_end(s, e1, c);
                if a < s.len() {
                    lemma_ws_end(s, a + 1, c);
                }
            }
            match self.colon() {
                Ok(()) => {},
                Err(e) => return Err(e),
            }
            match entry.entry(key, self) {
                Ok(()) => {},
                Err(e) => return Err(e),
            }
            let ghost q = self.pos();
            proof {
                self.lemma_wf();
                let c = self.settings().allow_comments;
                lemma_ws_end(s, q, c);
                let a = ws_end(s, q, c);
                if a < s.len() {
                    lemma_ws_end(s, a + 1, c);
                }
            }
            match self.comma_or_close(0x7du8) {
                Ok(true) => {},
                Ok(false) => {
                    self.leave();
                    return Ok(());
                },
                Err(e) => return Err(e),
            }
        }
    }

    /// Read a JSON array into a struct declared positionally: element `i`
    /// is field `i`, and the document must hold exactly as many elements as
    /// the struct has fields.
    pub fn read_array<T: ReadArray<'de>>(&mut self, value: &mut T) -> (r: Result<(), ErrorCode>)
        requires
            old(self).wf(),
        ensures
            read_step(*old(self), *final(self), r is Ok),
            match container_start(old(self).input(), old(self).pos(), old(self).level(),
                old(self).settings().allow_comments, 0x5bu8, 0x5du8, ErrorCode::ExpectedBracket) {
                Some((res, at)) => final(self).pos() == at && match res {
                    Ok(_) => r == (if T::spec_len() == 0 {
                        Ok::<(), ErrorCode>(())
                    } else {
                        Err::<(), ErrorCode>(ErrorCode::ArrayLengthMismatch)
                    }),
                    Err(e) => r == Err::<(), ErrorCode>(e),
                },
                None => r is Ok ==> final(self).input()[final(self).pos() - 1] == 0x5d,
            },
    {
        let want = T::len();
        let mut count: usize = 0;
        match self.open_container(0x5bu8, 0x5du8, ErrorCode::ExpectedBracket) {
            Ok(true) => {
                if count != want {
                    return Err(ErrorCode::ArrayLengthMismatch);
                }
                return Ok(());
            },
            Ok(false) => {},
            Err(e) => return Err(e),
        }
        let ghost s = self.input();
        let ghost d = self.level();
        proof {
            self.lemma_wf();
            old(self).lemma_wf();
        }
        loop
            invariant
                self.wf(),
                self.input() == s,
                s == old(self).input(),
                self.level() == d,
                d == old(self).level() + 1,
                old(self).pos() < self.pos(),
                count < self.pos(),
                container_start(s, old(self).pos(), old(self).level(), old(self).settings().allow_comments,
                    0x5bu8, 0x5du8, ErrorCode::ExpectedBracket) is None,
            decreases s.len() - self.pos(),
        {
            proof {
                self.lemma_wf();
            }
            match value.read_element(count, self) {
                Ok(()) => {},
                Err(e) => return Err(e),
            }
            count = count + 1;
            let ghost q = self.pos();
            proof {
                self.lemma_wf();
                let c = self.settings().allow_comments;
                lemma_ws_end(s, q, c);
                let a = ws_end(s, q, c);
                if a < s.len() {
                    lemma_ws_end(s, a + 1, c);
                }
            }
            match self.comma_or_close(0x5du8) {
                Ok(true) => {},
                Ok(false) => {
                    self.leave();
                    if count != want {
                        return Err(ErrorCode::ArrayLengthMismatch);
                    }
                    return Ok(());
                },
                Err(e) => return Err(e),
            }
        }
    }

    /// Read any value into `value`.
    pub fn read<T: Read<'de>>(&mut self, value: &mut T) -> (r: Result<(), ErrorCode>)
        requires
            old(self).wf(),
        ensures
            read_step(*old(self), *final(self), r is Ok),
            T::spec_read(old(self).input(), old(self).pos()) matches Some((res, end)) ==> final(self).pos() == end
                && match res {
                Ok(v) => r is Ok && *final(value) == v,
                Err(e) => r == Err::<(), ErrorCode>(e),
            },
    {
        value.read(self)
    }

    /// A key nothing claimed, the cursor just past its opening quote: under
    /// a policy that refuses unknown keys, refused with `UnknownKey` and the
    /// cursor put back on the key's first byte, once the key is known to be
    /// a whole string; under one that skips them, the key, the colon and the
    /// value stepped over.
    pub fn unclaimed_key(&mut self) -> (r: Result<(), ErrorCode>)
        requires
            old(self).wf(),
        ensures
            (r, final(self).pos()) == unclaimed_outcome(old(self).input(), old(self).pos(), old(self).level(),
                old(self).settings().allow_comments, old(self).settings().error_on_unknown_keys),
            final(self).wf(),
            final(self).input() == old(self).input(),
            final(self).err_key() == old(self).err_key(),
            r is Ok ==> final(self).level() == old(self).level() && final(self).pos() > old(self).pos(),
            old(self).settings().error_on_unknown_keys ==> final(self).pos() == old(self).pos()
                && final(self).level() == old(self).level() && match skip_body(old(self).input(), old(self).pos()) {
                Ok(_) => r == Err::<(), ErrorCode>(ErrorCode::UnknownKey),
                Err(e) => r == Err::<(), ErrorCode>(e),
            },
            !old(self).settings().error_on_unknown_keys ==> match skip_body(old(self).input(), old(self).pos()) {
                Err(e) => r == Err::<(), ErrorCode>(e) && final(self).pos() == old(self).pos(),
                Ok(e1) => {
                    let (cr, p) = spec_colon(old(self).input(), e1, old(self).settings().allow_comments);
                    match cr {
                        Err(e) => r == Err::<(), ErrorCode>(e) && final(self).pos() == p,
                        Ok(_) => r == skip_value_spec(old(self).input(), p, old(self).level(), old(self).settings().allow_comments).0
                            && final(self).pos() == skip_value_spec(old(self).input(), p, old(self).level(), old(self).settings().allow_comments).1,
                    }
                },
            },
    {
        if O::settings().error_on_unknown_keys {
            let key = self.position();
            proof {
                self.lemma_wf();
                lemma_skip_body(self.input(), key as int);
            }
            match self.skip_string_body() {
                Ok(()) => {},
                Err(e) => return Err(e),
            }
            self.seek_back(key);
            return Err(ErrorCode::UnknownKey);
        }
        self.skip_unknown_member()
    }

    /// The cursor sits just past a key's opening quote and the key is not
    /// one of ours: discard the key and its value.
    pub fn skip_unknown_member(&mut self) -> (r: Result<(), ErrorCode>)
        requires
            old(self).wf(),
        ensures
            final(self).wf(),
            final(self).input() == old(self).input(),
            final(self).err_key() == old(self).err_key(),
            r is Ok ==> final(self).level() == old(self).level() && final(self).pos() > old(self).pos(),
            match skip_body(old(self).input(), old(self).pos()) {
                Err(e) => r == Err::<(), ErrorCode>(e) && final(self).pos() == old(self).pos(),
                Ok(e1) => {
                    let (cr, p) = spec_colon(old(self).input(), e1, old(self).settings().allow_comments);
                    match cr {
                        Err(e) => r == Err::<(), ErrorCode>(e) && final(self).pos() == p,
                        Ok(_) => r == skip_value_spec(old(self).input(), p, old(self).level(), old(self).settings().allow_comments).0
                            && final(self).pos() == skip_value_spec(old(self).input(), p, old(self).level(), old(self).settings().allow_comments).1,
                    }
                },
            },
    {
        let ghost s = self.input();
        let ghost c = self.settings().allow_comments;
        proof {
            self.lemma_wf();
            lemma_skip_body(s, self.pos());
        }
        match self.skip_string_body() {
            Ok(()) => {},
            Err(e) => return Err(e),
        }
        proof {
            lemma_ws_end(s, self.pos(), c);
            let a = ws_end(s, self.pos(), c);
            if a < s.len() {
                lemma_ws_end(s, a + 1, c);
            }
        }
        match self.colon() {
            Ok(()) => {},
            Err(e) => return Err(e),
        }
        proof {
            lemma_value_progress(s, self.pos(), self.level(), c);
        }
        self.skip_value()
    }
}

impl<'de, O: Options> Parser<'de, O> {
    /// Refuse an object that ended with a field it had to carry never
    /// filled: the cursor goes back to the object's opening brace, and the
    /// first missing field's key is named.
    fn require_fields(&mut self, seen: u64, mask: u64, open: usize, keys: &Vec<&'static str>) -> (r: Result<(), ErrorCode>)
        requires
            old(self).wf(),
            open <= old(self).pos(),
        ensures
            r == (if seen & mask != mask { Err(ErrorCode::MissingKey) } else { Ok::<(), ErrorCode>(()) }),
            r is Ok ==> *final(self) == *old(self),
            r is Err ==> final(self).wf() && final(self).input() == old(self).input()
                && final(self).pos() == open && final(self).level() == old(self).level(),
    {
        if seen & mask != mask {
            self.seek_back(open);
            let missing = mask & !seen;
            let i = missing.trailing_zeros() as usize;
            if i < keys.len() {
                self.set_error_key(keys[i]);
            }
            return Err(ErrorCode::MissingKey);
        }
        Ok(())
    }

    /// Read a JSON object into a struct, one member at a time: the key is
    /// hashed to a candidate field, the struct confirms it and reads the
    /// value, and a key it does not claim is refused or stepped over as the
    /// policy says.
    #[verifier::spinoff_prover]
    #[verifier::rlimit(100)]
    pub fn read_object<T: ReadObject<'de>>(&mut self, value: &mut T) -> (r: Result<(), ErrorCode>)
        requires
            old(self).wf(),
        ensures
            read_step(*old(self), *final(self), r is Ok),
            match container_start(old(self).input(), old(self).pos(), old(self).level(),
                old(self).settings().allow_comments, 0x7bu8, 0x7du8, ErrorCode::ExpectedBrace) {
                Some((res, at)) => match res {
                    Ok(_) => (r is Ok ==> final(self).pos() == at) && (r is Err ==> r == Err::<(), ErrorCode>(ErrorCode::MissingKey)),
                    Err(e) => r == Err::<(), ErrorCode>(e) && final(self).pos() == at,
                },
                None => r is Ok ==> final(self).input()[final(self).pos() - 1] == 0x7d,
            },
            container_start(old(self).input(), old(self).pos(), old(self).level(),
                old(self).settings().allow_comments, 0x7bu8, 0x7du8, ErrorCode::ExpectedBrace) is None
                ==> match (T::spec_required(), T::spec_key_map()) {
                (Some(rq), Some(m)) => match object_outcome::<'de, T>(
                    old(self).input(),
                    container_body(old(self).input(), old(self).pos(), old(self).settings().allow_comments),
                    old(self).settings().allow_comments,
                    old(self).level() + 1,
                    0,
                    required_mask(m.n, rq, old(self).settings().error_on_missing_keys),
                    ws_end(old(self).input(), old(self).pos(), old(self).settings().allow_comments),
                    old(self).settings().error_on_unknown_keys,
                ) {
                    Some((res, end)) => final(self).pos() == end && r == res,
                    None => true,
                },
                _ => true,
            },
    {
        let ghost s = self.input();
        let ghost c = self.settings().allow_comments;
        proof {
            self.lemma_wf();
            lemma_ws_end(s, self.pos(), c);
        }
        let open = ws_skip_position(self);
        proof {
            crate::json::parser::lemma_ws_end_idem(s, old(self).pos(), c);
        }
        let settings = O::settings();
        let keys = T::keys();
        let map = T::key_map();
        let n = map.n as usize;
        let mut mask = T::required();
        if settings.error_on_missing_keys {
            let all: u64 = if n >= 64 {
                0xffff_ffff_ffff_ffffu64
            } else {
                let sh = n as u64;
                proof {
                    assert(1u64 << sh >= 1) by (bit_vector)
                        requires
                            sh < 64,
                    ;
                }
                (1u64 << sh) - 1
            };
            mask = mask | all;
        }
        proof {
            if T::spec_required() is Some && T::spec_key_map() is Some {
                assert(mask == required_mask(map.n, T::spec_required()->Some_0, settings.error_on_missing_keys));
            }
        }
        let mut seen: u64 = 0;
        match self.open_container(0x7bu8, 0x7du8, ErrorCode::ExpectedBrace) {
            Ok(true) => {
                let ghost at = self.pos();
                let r = self.require_fields(seen, mask, open, &keys);
                proof {
                    if r is Err {
                        assert(open < at);
                    }
                }
                return r;
            },
            Ok(false) => {},
            Err(e) => return Err(e),
        }
        let ghost d = self.level();
        let ghost body = self.pos();
        proof {
            self.lemma_wf();
            old(self).lemma_wf();
        }
        loop
            invariant
                self.wf(),
                self.input() == s,
                s == old(self).input(),
                c == old(self).settings().allow_comments,
                settings == O::spec_settings(),
                body == container_body(s, old(self).pos(), c),
                T::spec_key_map() matches Some(m) ==> map == m,
                T::spec_keys() matches Some(k) ==> keys@ == k,
                T::spec_required() is Some && T::spec_key_map() is Some ==> mask == required_mask(
                    map.n,
                    T::spec_required()->Some_0,
                    settings.error_on_missing_keys,
                ),
                object_outcome::<'de, T>(s, body, c, d, 0, mask, open as int, settings.error_on_unknown_keys) is Some
                    ==> object_outcome::<'de, T>(s, body, c, d, 0, mask, open as int, settings.error_on_unknown_keys)
                    == object_outcome::<'de, T>(s, self.pos(), c, d, seen, mask, open as int, settings.error_on_unknown_keys),
                self.level() == d,
                d == old(self).level() + 1,
                old(self).pos() < self.pos(),
                open as int == ws_end(s, old(self).pos(), c),
                old(self).pos() <= open <= self.pos(),
                map.shape_ok(),
                n == map.n,
                container_start(s, old(self).pos(), old(self).level(), c, 0x7bu8, 0x7du8, ErrorCode::ExpectedBrace) is None,
            decreases s.len() - self.pos(),
        {
            proof {
                self.lemma_wf();
            }
            match self.expect(0x22u8, ErrorCode::ExpectedQuote) {
                Ok(()) => {},
                Err(e) => return Err(e),
            }
            let index = map.lookup(keys.as_slice(), self.rest());
            let matched = if index < n {
                match value.read_field(index, self) {
                    Ok(b) => b,
                    Err(e) => return Err(e),
                }
            } else {
                false
            };
            if matched && index < 64 {
                seen = seen | (1u64 << (index as u64));
            }
            if !matched {
                match self.unclaimed_key() {
                    Ok(()) => {},
                    Err(e) => return Err(e),
                }
            }
            let ghost q = self.pos();
            proof {
                self.lemma_wf();
                lemma_ws_end(s, q, c);
                let a = ws_end(s, q, c);
                if a < s.len() {
                    lemma_ws_end(s, a + 1, c);
                }
            }
            match self.comma_or_close(0x7du8) {
                Ok(true) => {},
                Ok(false) => {
                    self.leave();
                    let ghost at = self.pos();
                    let r = self.require_fields(seen, mask, open, &keys);
                    proof {
                        if r is Err {
                            assert(old(self).pos() <= open);
                        }
                    }
                    return r;
                },
                Err(e) => return Err(e),
            }
        }
    }

    /// Hash the name at the cursor, hand the candidate to the enum, and
    /// report a name nothing claimed against the name itself.
    fn dispatch_variant<T: ReadEnum<'de>>(&mut self, value: &mut T, payload: bool) -> (r: Result<(), ErrorCode>)
        requires
            old(self).wf(),
        ensures
            read_step(*old(self), *final(self), r is Ok),
            variant_outcome::<'de, T>(old(self).input(), old(self).pos(), payload) matches Some((res, end)) ==> r == res
                && final(self).pos() == end,
    {
        let names = T::variants();
        let map = T::variant_map();
        let index = map.lookup(names.as_slice(), self.rest());
        if index < map.n as usize {
            let taken = if payload { value.read_payload(index, self) } else { value.read_name(index, self) };
            match taken {
                Ok(true) => return Ok(()),
                Ok(false) => {},
                Err(e) => return Err(e),
            }
        }
        self.unclaimed_variant()
    }

    /// A variant name nothing claimed, the cursor on its first byte:
    /// refused with `UnknownVariant` and the cursor left there, once the
    /// name is known to be a whole string.
    pub fn unclaimed_variant(&mut self) -> (r: Result<(), ErrorCode>)
        requires
            old(self).wf(),
        ensures
            final(self).moved(old(self), old(self).pos()),
            match skip_body(old(self).input(), old(self).pos()) {
                Ok(_) => r == Err::<(), ErrorCode>(ErrorCode::UnknownVariant),
                Err(e) => r == Err::<(), ErrorCode>(e),
            },
    {
        let at = self.position();
        proof {
            self.lemma_wf();
            lemma_skip_body(self.input(), at as int);
        }
        match self.skip_string_body() {
            Ok(()) => {},
            Err(e) => return Err(e),
        }
        self.seek_back(at);
        Err(ErrorCode::UnknownVariant)
    }

    /// Read a JSON enum: a bare `"Name"` for a variant carrying nothing, or
    /// `{"Name":value}` for one carrying a value, the object holding that
    /// single member and no other.
    pub fn read_enum<T: ReadEnum<'de>>(&mut self, value: &mut T) -> (r: Result<(), ErrorCode>)
        requires
            old(self).wf(),
        ensures
            read_step(*old(self), *final(self), r is Ok),
            ({
                let s = old(self).input();
                let j = ws_end(s, old(self).pos(), old(self).settings().allow_comments);
                &&& j >= s.len() ==> r == Err::<(), ErrorCode>(ErrorCode::UnexpectedEnd) && final(self).pos() == j
                &&& j < s.len() && s[j] != 0x22 && s[j] != 0x7b
                    ==> r == Err::<(), ErrorCode>(ErrorCode::ExpectedVariant) && final(self).pos() == j
                &&& j < s.len() && s[j] == 0x7b && old(self).level() >= MAX_DEPTH
                    ==> r == Err::<(), ErrorCode>(ErrorCode::ExceededMaxDepth) && final(self).pos() == j + 1
                &&& j < s.len() && s[j] == 0x7b && old(self).level() < MAX_DEPTH
                    && ws_end(s, j + 1, old(self).settings().allow_comments) < s.len()
                    && s[ws_end(s, j + 1, old(self).settings().allow_comments)] == 0x7d
                    ==> r == Err::<(), ErrorCode>(ErrorCode::ExpectedVariant) && final(self).pos() == j
            }),
            enum_outcome::<'de, T>(old(self).input(), old(self).pos(), old(self).level(),
                old(self).settings().allow_comments) matches Some((res, end)) ==> r == res && final(self).pos() == end,
    {
        let ghost s = self.input();
        let ghost c = self.settings().allow_comments;
        proof {
            self.lemma_wf();
            lemma_ws_end(s, self.pos(), c);
        }
        self.skip_ws();
        match self.peek() {
            Some(b) => {
                if b == 0x22u8 {
                    self.try_byte(0x22u8);
                    self.dispatch_variant(value, false)
                } else if b == 0x7bu8 {
                    let open = self.position();
                    self.try_byte(0x7bu8);
                    match self.enter() {
                        Ok(()) => {},
                        Err(e) => return Err(e),
                    }
                    proof {
                        lemma_ws_end(s, self.pos(), c);
                    }
                    self.skip_ws();
                    if self.peek() == Some(0x7du8) {
                        self.seek_back(open);
                        return Err(ErrorCode::ExpectedVariant);
                    }
                    match self.expect(0x22u8, ErrorCode::ExpectedQuote) {
                        Ok(()) => {},
                        Err(e) => return Err(e),
                    }
                    match self.dispatch_variant(value, true) {
                        Ok(()) => {},
                        Err(e) => return Err(e),
                    }
                    proof {
                        self.lemma_wf();
                        let q = self.pos();
                        lemma_ws_end(s, q, c);
                        let a = ws_end(s, q, c);
                        if a < s.len() {
                            lemma_ws_end(s, a + 1, c);
                        }
                    }
                    match self.comma_or_close(0x7du8) {
                        Ok(true) => {
                            self.seek_back(open);
                            Err(ErrorCode::ExpectedVariant)
                        },
                        Ok(false) => {
                            self.leave();
                            Ok(())
                        },
                        Err(e) => Err(e),
                    }
                } else {
                    Err(ErrorCode::ExpectedVariant)
                }
            },
            None => Err(ErrorCode::UnexpectedEnd),
        }
    }
}

/// Skip whitespace and say where the cursor landed, which is where a
/// container that follows opens.
fn ws_skip_position<'de, O: Options>(p: &mut Parser<'de, O>) -> (r: usize)
    requires
        old(p).wf(),
    ensures
        r == ws_end(old(p).input(), old(p).pos(), old(p).settings().allow_comments),
        final(p).moved(old(p), r as int),
{
    p.skip_ws();
    p.position()
}

} // verus!

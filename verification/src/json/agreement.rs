//! The two ways of taking layout out of a document agree.
//!
//! [`minify`](crate::json::minify::minify) only knows where the strings
//! are; [`prettify`](crate::json::prettify::prettify) walks the structure.
//! Under a policy that adds no whitespace of its own, the walk writes
//! exactly what the minifier copies, on every document the walk accepts.
use vstd::prelude::*;
use crate::error::ErrorCode;
use crate::json::minify::{backslashes_start, is_stop, lemma_copy_run, lemma_string_end_from, minify_spec, prepend, string_end_from};
use crate::json::parser::{
    first_stop, lemma_first_stop, lemma_ws_end, number_byte, number_run_end, skip_body, spec_is_ws,
    spec_scalar_byte, ws_end,
};
use crate::json::prettify::{
    copy_token_spec, lay_elements, lay_members, lay_value, lemma_copy_token_progress, lemma_lay_elements_progress,
    lemma_lay_members_progress, lemma_lay_value_progress, lemma_skip_body_quote, prettify_spec,
};
use crate::options::Settings;
use crate::swar::{first_byte_from, lemma_first_byte_from};

verus! {

/// A search that starts before a stretch free of `ch` finds what a search
/// after it finds.
proof fn lemma_first_byte_same(s: Seq<u8>, a: int, b: int, ch: u8)
    requires
        0 <= a <= b,
        forall|k: int| a <= k < b && k < s.len() ==> s[k] != ch,
    ensures
        first_byte_from(s, a, ch) == first_byte_from(s, b, ch),
    decreases b - a,
{
    if a < b && a < s.len() {
        lemma_first_byte_same(s, a + 1, b, ch);
    }
}

/// Where a string ends depends only on the first quote the search meets.
proof fn lemma_string_end_same(s: Seq<u8>, a: int, b: int)
    requires
        0 <= a,
        0 <= b,
        first_byte_from(s, a, 0x22u8) == first_byte_from(s, b, 0x22u8),
    ensures
        string_end_from(s, a) == string_end_from(s, b),
{
    lemma_first_byte_from(s, a, 0x22u8);
    lemma_first_byte_from(s, b, 0x22u8);
}

/// A string body that the parser steps over ends, for the minifier, at the
/// same quote: escapes come in pairs of bytes, so the quote that closes the
/// body follows an even run of backslashes and every quote before it an odd
/// one.
proof fn lemma_body_end_agrees(s: Seq<u8>, j: int)
    requires
        0 < j <= s.len(),
        skip_body(s, j) is Ok,
        (j - backslashes_start(s, j)) % 2 == 0,
    ensures
        string_end_from(s, j) == Some(skip_body(s, j)->Ok_0),
    decreases s.len() - j,
{
    lemma_first_stop(s, j);
    let p = first_stop(s, j)->Some_0;
    assert forall|k: int| j <= k < p && k < s.len() implies s[k] != 0x22u8 by {}
    lemma_first_byte_same(s, j, p, 0x22u8);
    if p > j {
        assert(!crate::swar::spec_needs_escape(s[p - 1]));
        assert(backslashes_start(s, p) == p);
    }
    if s[p] == 0x22 {
        assert(first_byte_from(s, p, 0x22u8) == Some(p));
    } else {
        assert(s[p] == 0x5c);
        assert(p + 2 <= s.len());
        assert(skip_body(s, j) == skip_body(s, p + 2));
        assert(backslashes_start(s, p + 1) == backslashes_start(s, p));
        if s[p + 1] == 0x22 {
            assert(first_byte_from(s, p, 0x22u8) == first_byte_from(s, p + 1, 0x22u8));
            assert(first_byte_from(s, p + 1, 0x22u8) == Some(p + 1));
            assert((p + 1 - backslashes_start(s, p + 1)) % 2 != 0);
            assert(string_end_from(s, j) == string_end_from(s, p + 2));
            assert(backslashes_start(s, p + 2) == p + 2);
        } else {
            assert forall|k: int| j <= k < p + 2 && k < s.len() implies s[k] != 0x22u8 by {}
            lemma_first_byte_same(s, j, p + 2, 0x22u8);
            lemma_string_end_same(s, j, p + 2);
            if s[p + 1] == 0x5c {
                assert(backslashes_start(s, p + 2) == backslashes_start(s, p + 1));
            } else {
                assert(backslashes_start(s, p + 2) == p + 2);
            }
        }
        lemma_body_end_agrees(s, p + 2);
    }
}

/// Every byte of a number run is a number byte.
proof fn lemma_number_run_bytes(s: Seq<u8>, i: int)
    requires
        0 <= i <= s.len(),
    ensures
        i <= number_run_end(s, i) <= s.len(),
        forall|k: int| i <= k < number_run_end(s, i) ==> number_byte(#[trigger] s[k]),
    decreases s.len() - i,
{
    if i < s.len() && number_byte(s[i]) {
        lemma_number_run_bytes(s, i + 1);
    }
}

/// A run of whitespace that a byte outside every token bounds on one side
/// is dropped by the minifier.
proof fn lemma_minify_skips_ws(s: Seq<u8>, j: int, c: bool)
    requires
        0 <= j <= s.len(),
        j > 0 ==> !spec_scalar_byte(s[j - 1]) || ws_end(s, j, c) >= s.len() || !spec_scalar_byte(
            s[ws_end(s, j, c)],
        ),
    ensures
        minify_spec(s, j, c) == minify_spec(s, ws_end(s, j, c), c),
{
    lemma_ws_end(s, j, c);
    let k = ws_end(s, j, c);
    if k != j {
        assert(j < s.len());
        assert(spec_is_ws(s[j]) || (c && s[j] == 0x2f));
        assert(is_stop(s[j], c));
        reveal(minify_spec);
    }
}

/// A token the walk copies is copied by the minifier too.
proof fn lemma_token_minifies(s: Seq<u8>, i: int, c: bool)
    requires
        0 <= i <= s.len(),
        copy_token_spec(s, i).0 is Ok,
    ensures
        minify_spec(s, i, c) == prepend(copy_token_spec(s, i).2, minify_spec(s, copy_token_spec(s, i).1, c)),
{
    lemma_copy_token_progress(s, i);
    let p = copy_token_spec(s, i).1;
    if s[i] == 0x22 {
        lemma_skip_body_quote(s, i + 1);
        assert(backslashes_start(s, i + 1) == i + 1);
        lemma_body_end_agrees(s, i + 1);
        reveal(minify_spec);
    } else if s[i] == 0x74 || s[i] == 0x66 || s[i] == 0x6e {
        assert(s.subrange(i, p) == copy_token_spec(s, i).2);
        assert forall|k: int| i <= k < p implies !is_stop(#[trigger] s[k], c) by {
            assert(s[k] == s.subrange(i, p)[k - i]);
        }
        lemma_copy_run(s, i, p, c);
    } else {
        lemma_number_run_bytes(s, i);
        assert forall|k: int| i <= k < p implies !is_stop(#[trigger] s[k], c) by {
            assert(number_byte(s[k]));
        }
        lemma_copy_run(s, i, p, c);
    }
}

/// The bytes of the text written so far, then what minifying from where the
/// walk stopped gives.
spec fn followed_by(text: Seq<u8>, s: Seq<u8>, at: int, c: bool) -> (Seq<u8>, Option<(ErrorCode, int)>) {
    prepend(text, minify_spec(s, at, c))
}

/// A value the compact walk lays out is what the minifier copies of it.
proof fn lemma_value_minifies(s: Seq<u8>, i: int, d: nat, wl: nat, c: bool, st: Settings)
    requires
        !st.pretty,
        0 <= i <= s.len(),
        lay_value(s, i, d, wl, c, st).0 is Ok,
    ensures
        minify_spec(s, i, c) == followed_by(lay_value(s, i, d, wl, c, st).2, s, lay_value(s, i, d, wl, c, st).1, c),
    decreases s.len() - i, 1int,
{
    lemma_lay_value_progress(s, i, d, wl, c, st);
    if i < s.len() && (s[i] == 0x7b || s[i] == 0x5b) {
        let open = s[i];
        let close: u8 = if open == 0x7b { 0x7du8 } else { 0x5du8 };
        lemma_ws_end(s, i + 1, c);
        let k = ws_end(s, i + 1, c);
        lemma_copy_run(s, i, i + 1, c);
        lemma_minify_skips_ws(s, i + 1, c);
        assert(s.subrange(i, i + 1) =~= seq![open]);
        if 0 <= k < s.len() && s[k] == close {
            lemma_copy_run(s, k, k + 1, c);
            assert(s.subrange(k, k + 1) =~= seq![close]);
            assert(seq![open] + (seq![close] + minify_spec(s, k + 1, c).0) =~= seq![open, close] + minify_spec(s, k + 1, c).0);
        } else {
            let inner = crate::json::writer::inner_level(open, wl, st);
            let body = if open == 0x7b {
                lay_members(s, k, d + 1, inner, c, st)
            } else {
                lay_elements(s, k, d + 1, inner, c, st, true)
            };
            if open == 0x7b {
                lemma_members_minify(s, k, d + 1, inner, c, st);
            } else {
                lemma_elements_minify(s, k, d + 1, inner, c, st, true);
            }
            let b = body.2;
            assert((seq![open] + b).drop_last().push(close) =~= seq![open] + b.drop_last().push(close));
            assert(seq![open] + (b.drop_last().push(close) + minify_spec(s, body.1, c).0) =~= seq![open]
                + b.drop_last().push(close) + minify_spec(s, body.1, c).0);
        }
    } else {
        lemma_token_minifies(s, i, c);
    }
}

/// The members of an object, through its closing brace: what the walk
/// writes, its last comma turned into the brace, is what the minifier
/// copies.
#[verifier::spinoff_prover]
#[verifier::rlimit(60)]
proof fn lemma_members_minify(s: Seq<u8>, m: int, d: nat, wl: nat, c: bool, st: Settings)
    requires
        !st.pretty,
        0 <= m <= s.len(),
        lay_members(s, m, d, wl, c, st).0 is Ok,
    ensures
        lay_members(s, m, d, wl, c, st).2.len() > 0,
        lay_members(s, m, d, wl, c, st).2.last() == 0x2cu8,
        minify_spec(s, m, c) == followed_by(lay_members(s, m, d, wl, c, st).2.drop_last().push(0x7du8), s,
            lay_members(s, m, d, wl, c, st).1, c),
    decreases s.len() - m, 2int,
{
    lemma_copy_token_progress(s, m);
    let (kr, e1, key) = copy_token_spec(s, m);
    lemma_token_minifies(s, m, c);
    lemma_ws_end(s, e1, c);
    let a = ws_end(s, e1, c);
    lemma_minify_skips_ws(s, e1, c);
    lemma_copy_run(s, a, a + 1, c);
    assert(s.subrange(a, a + 1) =~= seq![0x3au8]);
    lemma_ws_end(s, a + 1, c);
    let p = ws_end(s, a + 1, c);
    lemma_minify_skips_ws(s, a + 1, c);
    lemma_lay_value_progress(s, p, d, wl, c, st);
    lemma_value_minifies(s, p, d, wl, c, st);
    let (vr, q, vt) = lay_value(s, p, d, wl, c, st);
    lemma_ws_end(s, q, c);
    let b = ws_end(s, q, c);
    lemma_minify_skips_ws(s, q, c);
    lemma_copy_run(s, b, b + 1, c);
    let done = key + seq![0x3au8] + vt + seq![0x2cu8];
    assert(crate::json::writer::line_text(wl, st) =~= Seq::<u8>::empty());
    if s[b] == 0x2c {
        assert(s.subrange(b, b + 1) =~= seq![0x2cu8]);
        lemma_ws_end(s, b + 1, c);
        let t = ws_end(s, b + 1, c);
        lemma_minify_skips_ws(s, b + 1, c);
        lemma_lay_members_progress(s, t, d, wl, c, st);
        lemma_members_minify(s, t, d, wl, c, st);
        let rest = lay_members(s, t, d, wl, c, st).2;
        let tail = minify_spec(s, lay_members(s, t, d, wl, c, st).1, c).0;
        assert(lay_members(s, m, d, wl, c, st).2 =~= done + rest);
        assert((done + rest).drop_last().push(0x7du8) =~= done + rest.drop_last().push(0x7du8));
        assert(key + (seq![0x3au8] + (vt + (seq![0x2cu8] + (rest.drop_last().push(0x7du8) + tail))))
            =~= (done + rest).drop_last().push(0x7du8) + tail);
    } else {
        assert(s.subrange(b, b + 1) =~= seq![0x7du8]);
        assert(lay_members(s, m, d, wl, c, st).2 =~= done);
        let tail = minify_spec(s, b + 1, c).0;
        assert(key + (seq![0x3au8] + (vt + (seq![0x7du8] + tail))) =~= done.drop_last().push(0x7du8) + tail);
    }
}

/// The elements of an array, through its closing bracket, likewise.
#[verifier::spinoff_prover]
#[verifier::rlimit(60)]
proof fn lemma_elements_minify(s: Seq<u8>, m: int, d: nat, wl: nat, c: bool, st: Settings, first: bool)
    requires
        !st.pretty,
        0 <= m <= s.len(),
        lay_elements(s, m, d, wl, c, st, first).0 is Ok,
    ensures
        lay_elements(s, m, d, wl, c, st, first).2.len() > 0,
        lay_elements(s, m, d, wl, c, st, first).2.last() == 0x2cu8,
        minify_spec(s, m, c) == followed_by(lay_elements(s, m, d, wl, c, st, first).2.drop_last().push(0x5du8), s,
            lay_elements(s, m, d, wl, c, st, first).1, c),
    decreases s.len() - m, 2int,
{
    lemma_lay_value_progress(s, m, d, wl, c, st);
    lemma_value_minifies(s, m, d, wl, c, st);
    let (vr, q, vt) = lay_value(s, m, d, wl, c, st);
    lemma_ws_end(s, q, c);
    let b = ws_end(s, q, c);
    lemma_minify_skips_ws(s, q, c);
    lemma_copy_run(s, b, b + 1, c);
    assert(crate::json::compose::item_text(if first { seq![0x5bu8] } else { seq![0x2cu8] }, wl, st)
        =~= Seq::<u8>::empty());
    let done = vt + seq![0x2cu8];
    if s[b] == 0x2c {
        assert(s.subrange(b, b + 1) =~= seq![0x2cu8]);
        lemma_ws_end(s, b + 1, c);
        let t = ws_end(s, b + 1, c);
        lemma_minify_skips_ws(s, b + 1, c);
        lemma_lay_elements_progress(s, t, d, wl, c, st, false);
        lemma_elements_minify(s, t, d, wl, c, st, false);
        let rest = lay_elements(s, t, d, wl, c, st, false).2;
        let tail = minify_spec(s, lay_elements(s, t, d, wl, c, st, false).1, c).0;
        assert(lay_elements(s, m, d, wl, c, st, first).2 =~= done + rest);
        assert(vt + (seq![0x2cu8] + (rest.drop_last().push(0x5du8) + tail)) =~= (done + rest).drop_last().push(
            0x5du8,
        ) + tail);
    } else {
        assert(s.subrange(b, b + 1) =~= seq![0x5du8]);
        assert(lay_elements(s, m, d, wl, c, st, first).2 =~= done);
        let tail = minify_spec(s, b + 1, c).0;
        assert(vt + (seq![0x5du8] + tail) =~= done.drop_last().push(0x5du8) + tail);
    }
}

/// Under a layout that adds no whitespace of its own, laying a document
/// out and minifying it agree byte for byte on every document the layout
/// accepts, and the minifier accepts it too.
pub proof fn lemma_compact_layout_is_minified(s: Seq<u8>, st: Settings)
    requires
        !st.pretty,
        prettify_spec(s, st).0 is Ok,
    ensures
        minify_spec(s, 0, st.allow_comments) == (prettify_spec(s, st).2, None::<(ErrorCode, int)>),
{
    let c = st.allow_comments;
    lemma_ws_end(s, 0, c);
    let j = ws_end(s, 0, c);
    lemma_minify_skips_ws(s, 0, c);
    lemma_lay_value_progress(s, j, 0, 0, c, st);
    lemma_value_minifies(s, j, 0, 0, c, st);
    let p = lay_value(s, j, 0, 0, c, st).1;
    lemma_ws_end(s, p, c);
    lemma_minify_skips_ws(s, p, c);
    reveal(minify_spec);
    assert(prettify_spec(s, st).2 + Seq::<u8>::empty() =~= prettify_spec(s, st).2);
}

// ---------------------------------------------------------------------------
// Laying out changes only the layout
// ---------------------------------------------------------------------------

/// The same settings with nothing laid out between tokens.
pub open spec fn compact(st: Settings) -> Settings {
    Settings { pretty: false, ..st }
}

/// Whether a layout succeeds, and where it stops, does not depend on how
/// it lays the document out.
proof fn lemma_value_shape(s: Seq<u8>, i: int, d: nat, wl: nat, wl2: nat, c: bool, st: Settings, st2: Settings)
    requires
        0 <= i <= s.len(),
    ensures
        lay_value(s, i, d, wl, c, st).0 == lay_value(s, i, d, wl2, c, st2).0,
        lay_value(s, i, d, wl, c, st).1 == lay_value(s, i, d, wl2, c, st2).1,
    decreases s.len() - i, 1int,
{
    if i < s.len() && (s[i] == 0x7b || s[i] == 0x5b) && d < crate::json::parser::MAX_DEPTH {
        lemma_ws_end(s, i + 1, c);
        let k = ws_end(s, i + 1, c);
        let open = s[i];
        let close: u8 = if open == 0x7b { 0x7du8 } else { 0x5du8 };
        if !(0 <= k < s.len() && s[k] == close) && i < k <= s.len() {
            let in1 = crate::json::writer::inner_level(open, wl, st);
            let in2 = crate::json::writer::inner_level(open, wl2, st2);
            if open == 0x7b {
                lemma_members_shape(s, k, d + 1, in1, in2, c, st, st2);
            } else {
                lemma_elements_shape(s, k, d + 1, in1, in2, c, st, st2, true);
            }
        }
    }
}

proof fn lemma_members_shape(s: Seq<u8>, m: int, d: nat, wl: nat, wl2: nat, c: bool, st: Settings, st2: Settings)
    requires
        0 <= m <= s.len(),
    ensures
        lay_members(s, m, d, wl, c, st).0 == lay_members(s, m, d, wl2, c, st2).0,
        lay_members(s, m, d, wl, c, st).1 == lay_members(s, m, d, wl2, c, st2).1,
    decreases s.len() - m, 2int,
{
    if 0 <= m < s.len() && s[m] == 0x22 {
        lemma_copy_token_progress(s, m);
        let (kr, e1, key) = copy_token_spec(s, m);
        if kr is Ok {
            lemma_ws_end(s, e1, c);
            let a = ws_end(s, e1, c);
            if a < s.len() && s[a] == 0x3a {
                lemma_ws_end(s, a + 1, c);
                let p = ws_end(s, a + 1, c);
                if m < p <= s.len() {
                    lemma_value_shape(s, p, d, wl, wl2, c, st, st2);
                    lemma_lay_value_progress(s, p, d, wl, c, st);
                    let (vr, q, vt) = lay_value(s, p, d, wl, c, st);
                    if vr is Ok {
                        lemma_ws_end(s, q, c);
                        let b = ws_end(s, q, c);
                        if b < s.len() && s[b] == 0x2c {
                            lemma_ws_end(s, b + 1, c);
                            let t = ws_end(s, b + 1, c);
                            if m < t <= s.len() {
                                lemma_members_shape(s, t, d, wl, wl2, c, st, st2);
                            }
                        }
                    }
                }
            }
        }
    }
}

proof fn lemma_elements_shape(
    s: Seq<u8>,
    m: int,
    d: nat,
    wl: nat,
    wl2: nat,
    c: bool,
    st: Settings,
    st2: Settings,
    first: bool,
)
    requires
        0 <= m <= s.len(),
    ensures
        lay_elements(s, m, d, wl, c, st, first).0 == lay_elements(s, m, d, wl2, c, st2, first).0,
        lay_elements(s, m, d, wl, c, st, first).1 == lay_elements(s, m, d, wl2, c, st2, first).1,
    decreases s.len() - m, 2int,
{
    lemma_value_shape(s, m, d, wl, wl2, c, st, st2);
    lemma_lay_value_progress(s, m, d, wl, c, st);
    let (vr, q, vt) = lay_value(s, m, d, wl, c, st);
    if vr is Ok {
        lemma_ws_end(s, q, c);
        let b = ws_end(s, q, c);
        if b < s.len() && s[b] == 0x2c {
            lemma_ws_end(s, b + 1, c);
            let t = ws_end(s, b + 1, c);
            if m < t <= s.len() {
                lemma_elements_shape(s, t, d, wl, wl2, c, st, st2, false);
            }
        }
    }
}

/// A search over bytes copied elsewhere finds the same byte, moved by
/// the same offset.
proof fn lemma_first_byte_window(s: Seq<u8>, j: int, q: int, t: Seq<u8>, off: int, ch: u8)
    requires
        0 <= j <= q < s.len(),
        0 <= j + off,
        q + off < t.len(),
        forall|k: int| j <= k <= q ==> #[trigger] t[k + off] == s[k],
        first_byte_from(s, j, ch) == Some(q),
    ensures
        first_byte_from(t, j + off, ch) == Some(q + off),
    decreases q - j,
{
    lemma_first_byte_from(s, j, ch);
    assert(t[j + off] == s[j]);
    if s[j] != ch {
        lemma_first_byte_window(s, j + 1, q, t, off, ch);
    }
}

/// A run of backslashes copied elsewhere, behind a byte that is not one,
/// starts at the same place, moved by the same offset.
proof fn lemma_backslashes_window(s: Seq<u8>, open: int, b: int, t: Seq<u8>, off: int)
    requires
        0 <= open < b <= s.len(),
        s[open] != 0x5c,
        0 <= open + off,
        b + off <= t.len(),
        forall|k: int| open <= k < b ==> #[trigger] t[k + off] == s[k],
    ensures
        backslashes_start(t, b + off) == backslashes_start(s, b) + off,
    decreases b,
{
    assert(t[b - 1 + off] == s[b - 1]);
    if s[b - 1] == 0x5c {
        lemma_backslashes_window(s, open, b - 1, t, off);
    }
}

/// Where a string ends, for bytes copied elsewhere behind their opening
/// quote.
proof fn lemma_string_end_window(s: Seq<u8>, open: int, j: int, e: int, t: Seq<u8>, off: int)
    requires
        0 <= open < j <= e <= s.len(),
        s[open] == 0x22,
        0 <= open + off,
        e + off <= t.len(),
        forall|k: int| open <= k < e ==> #[trigger] t[k + off] == s[k],
        string_end_from(s, j) == Some(e),
    ensures
        string_end_from(t, j + off) == Some(e + off),
    decreases e - j,
{
    lemma_first_byte_from(s, j, 0x22u8);
    let q = first_byte_from(s, j, 0x22u8)->Some_0;
    lemma_string_end_from(s, j);
    if (q - backslashes_start(s, q)) % 2 != 0 {
        lemma_string_end_from(s, q + 1);
    }
    assert(q < e);
    assert forall|k: int| j <= k <= q implies #[trigger] t[k + off] == s[k] by {
        assert(open <= k < e);
    }
    lemma_first_byte_window(s, j, q, t, off, 0x22u8);
    lemma_backslashes_window(s, open, q, t, off);
    if (q - backslashes_start(s, q)) % 2 != 0 {
        lemma_string_end_window(s, open, q + 1, e, t, off);
    }
}

/// A token laid out elsewhere is copied by the minifier from there too.
proof fn lemma_token_laid(s: Seq<u8>, i: int, t: Seq<u8>, p: int)
    requires
        0 <= i <= s.len(),
        copy_token_spec(s, i).0 is Ok,
        0 <= p,
        p + copy_token_spec(s, i).2.len() <= t.len(),
        forall|k: int| 0 <= k < copy_token_spec(s, i).2.len() ==> #[trigger] t[p + k] == copy_token_spec(s, i).2[k],
    ensures
        minify_spec(t, p, false) == prepend(copy_token_spec(s, i).2, minify_spec(t, p + copy_token_spec(s, i).2.len(), false)),
{
    lemma_copy_token_progress(s, i);
    let tok = copy_token_spec(s, i).2;
    let e = copy_token_spec(s, i).1;
    if s[i] == 0x22 {
        lemma_skip_body_quote(s, i + 1);
        assert(backslashes_start(s, i + 1) == i + 1);
        lemma_body_end_agrees(s, i + 1);
        assert(tok == s.subrange(i, e));
        assert forall|k: int| i <= k < e implies #[trigger] t[k + (p - i)] == s[k] by {
            assert(t[p + (k - i)] == tok[k - i]);
        }
        lemma_string_end_window(s, i, i + 1, e, t, p - i);
        assert(t[p + 0] == tok[0]);
        reveal(minify_spec);
        assert forall|k: int| 0 <= k < tok.len() implies #[trigger] t.subrange(p, p + tok.len())[k] == tok[k] by {
            assert(t[p + k] == tok[k]);
        }
        assert(t.subrange(p, p + tok.len()) =~= tok);
    } else {
        assert forall|k: int| p <= k < p + tok.len() implies !is_stop(#[trigger] t[k], false) by {
            assert(t[p + (k - p)] == tok[k - p]);
            if s[i] == 0x74 || s[i] == 0x66 || s[i] == 0x6e {
            } else {
                lemma_number_run_bytes(s, i);
                assert(tok[k - p] == s[i + (k - p)]);
                assert(number_byte(s[i + (k - p)]));
            }
        }
        lemma_copy_run(t, p, p + tok.len(), false);
        assert forall|k: int| 0 <= k < tok.len() implies #[trigger] t.subrange(p, p + tok.len())[k] == tok[k] by {
            assert(t[p + k] == tok[k]);
        }
        assert(t.subrange(p, p + tok.len()) =~= tok);
    }
}

/// Every byte is layout whitespace.
pub open spec fn blank(w: Seq<u8>) -> bool {
    forall|k: int| 0 <= k < w.len() ==> #[trigger] spec_is_ws(w[k])
}

/// A run of whitespace ends where the next byte is not whitespace.
proof fn lemma_ws_block(t: Seq<u8>, j: int, n: int)
    requires
        0 <= j,
        0 <= n,
        j + n < t.len(),
        forall|k: int| j <= k < j + n ==> #[trigger] spec_is_ws(t[k]),
        !spec_is_ws(t[j + n]),
        t[j + n] != 0x2f,
    ensures
        ws_end(t, j, false) == j + n,
    decreases n,
{
    if n > 0 {
        lemma_ws_block(t, j + 1, n - 1);
    }
}

/// Layout whitespace laid in front of a byte outside every token is
/// dropped by the minifier.
proof fn lemma_minify_drops_gap(t: Seq<u8>, j: int, gap: Seq<u8>)
    requires
        0 <= j,
        j + gap.len() < t.len(),
        blank(gap),
        forall|k: int| 0 <= k < gap.len() ==> #[trigger] t[j + k] == gap[k],
        !spec_is_ws(t[j + gap.len()]),
        t[j + gap.len()] != 0x2f,
        !spec_scalar_byte(t[j + gap.len()]) || (j > 0 && !spec_scalar_byte(t[j - 1])),
    ensures
        minify_spec(t, j, false) == minify_spec(t, j + gap.len(), false),
{
    assert forall|k: int| j <= k < j + gap.len() implies #[trigger] spec_is_ws(t[k]) by {
        assert(t[j + (k - j)] == gap[k - j]);
    }
    lemma_ws_block(t, j, gap.len() as int);
    lemma_minify_skips_ws(t, j, false);
}

proof fn lemma_line_blank(wl: nat, st: Settings)
    ensures
        blank(crate::json::writer::line_text(wl, st)),
{
}

/// What a value is laid out as begins with the byte it began with, which
/// is neither whitespace nor a slash.
proof fn lemma_value_first(s: Seq<u8>, i: int, d: nat, wl: nat, c: bool, st: Settings)
    requires
        0 <= i <= s.len(),
        lay_value(s, i, d, wl, c, st).0 is Ok,
    ensures
        i < s.len(),
        lay_value(s, i, d, wl, c, st).2.len() >= 1,
        lay_value(s, i, d, wl, c, st).2[0] == s[i],
        !spec_is_ws(s[i]),
        s[i] != 0x2f,
{
    lemma_lay_value_progress(s, i, d, wl, c, st);
    let out = lay_value(s, i, d, wl, c, st).2;
    if i < s.len() && (s[i] == 0x7b || s[i] == 0x5b) {
        let open = s[i];
        let close: u8 = if open == 0x7b { 0x7du8 } else { 0x5du8 };
        lemma_ws_end(s, i + 1, c);
        let k = ws_end(s, i + 1, c);
        if 0 <= k < s.len() && s[k] == close {
            assert(out == crate::json::writer::closed_text(seq![open], close, wl, st));
        } else {
            let inner = crate::json::writer::inner_level(open, wl, st);
            let body = if open == 0x7b {
                lay_members(s, k, d + 1, inner, c, st)
            } else {
                lay_elements(s, k, d + 1, inner, c, st, true)
            };
            let buf = seq![open] + body.2;
            assert(buf[0] == open);
            assert(out == crate::json::writer::closed_text(buf, close, wl, st));
            if buf.len() > 1 {
                assert(buf.drop_last()[0] == open);
            }
        }
    } else {
        lemma_copy_token_progress(s, i);
        if s[i] == 0x74 || s[i] == 0x66 || s[i] == 0x6e {
        } else if s[i] == 0x22 {
            assert(out == s.subrange(i, copy_token_spec(s, i).1));
        } else {
            assert(out == s.subrange(i, copy_token_spec(s, i).1));
        }
    }
}

/// `w` stands in `t` from `p` on.
pub open spec fn placed(t: Seq<u8>, p: int, w: Seq<u8>) -> bool {
    0 <= p && p + w.len() <= t.len() && t.subrange(p, p + w.len()) == w
}

proof fn lemma_placed_points(t: Seq<u8>, p: int, w: Seq<u8>)
    requires
        placed(t, p, w),
    ensures
        forall|k: int| 0 <= k < w.len() ==> #[trigger] t[p + k] == w[k],
{
    assert forall|k: int| 0 <= k < w.len() implies #[trigger] t[p + k] == w[k] by {
        assert(t.subrange(p, p + w.len())[k] == t[p + k]);
    }
}

proof fn lemma_placed_split(t: Seq<u8>, p: int, a: Seq<u8>, b: Seq<u8>)
    requires
        placed(t, p, a + b),
    ensures
        placed(t, p, a),
        placed(t, p + a.len(), b),
{
    lemma_placed_points(t, p, a + b);
    assert forall|k: int| 0 <= k < a.len() implies #[trigger] t.subrange(p, p + a.len())[k] == a[k] by {
        assert(t[p + k] == (a + b)[k]);
    }
    assert(t.subrange(p, p + a.len()) =~= a);
    assert forall|k: int| 0 <= k < b.len() implies #[trigger] t.subrange(p + a.len(), p + a.len() + b.len())[k]
        == b[k] by {
        assert(t[p + (a.len() + k)] == (a + b)[a.len() + k]);
    }
    assert(t.subrange(p + a.len(), p + a.len() + b.len()) =~= b);
}

/// A byte that stops nothing, laid out elsewhere, is copied as it stands.
proof fn lemma_byte_laid(t: Seq<u8>, p: int, b: u8)
    requires
        placed(t, p, seq![b]),
        !is_stop(b, false),
    ensures
        t[p] == b,
        minify_spec(t, p, false) == prepend(seq![b], minify_spec(t, p + 1, false)),
{
    lemma_placed_points(t, p, seq![b]);
    assert(t[p + 0] == b);
    lemma_copy_run(t, p, p + 1, false);
}

/// Layout whitespace laid out in front of a byte that is neither whitespace
/// nor a slash, and that cannot run into a scalar before the gap, is
/// dropped.
proof fn lemma_gap_laid(t: Seq<u8>, p: int, gap: Seq<u8>, next: Seq<u8>)
    requires
        placed(t, p, gap + next),
        next.len() >= 1,
        blank(gap),
        !spec_is_ws(next[0]),
        next[0] != 0x2f,
        !spec_scalar_byte(next[0]) || (p > 0 && !spec_scalar_byte(t[p - 1])),
    ensures
        minify_spec(t, p, false) == minify_spec(t, p + gap.len(), false),
{
    if gap.len() > 0 {
        lemma_placed_points(t, p, gap + next);
        assert(t[p + gap.len()] == (gap + next)[gap.len() as int]);
        assert forall|k: int| 0 <= k < gap.len() implies #[trigger] t[p + k] == gap[k] by {
            assert(t[p + k] == (gap + next)[k]);
        }
        lemma_minify_drops_gap(t, p, gap);
    }
}

/// The colon between a key and its value is copied, and the space after it
/// under an indenting policy dropped.
proof fn lemma_colon_laid(t: Seq<u8>, p: int, st: Settings, next: Seq<u8>)
    requires
        placed(t, p, crate::json::compose::colon_text(st) + next),
        next.len() >= 1,
        !spec_is_ws(next[0]),
        next[0] != 0x2f,
    ensures
        minify_spec(t, p, false) == prepend(seq![0x3au8], minify_spec(
            t,
            p + crate::json::compose::colon_text(st).len(),
            false,
        )),
{
    let ct = crate::json::compose::colon_text(st);
    let after = ct.subrange(1, ct.len() as int);
    assert(ct + next =~= seq![0x3au8] + (after + next));
    lemma_placed_split(t, p, seq![0x3au8], after + next);
    lemma_byte_laid(t, p, 0x3a);
    if st.pretty {
        assert(after =~= seq![0x20u8]);
        lemma_gap_laid(t, p + 1, after, next);
    } else {
        assert(after =~= Seq::<u8>::empty());
    }
}

/// A value laid out elsewhere, under any policy, is minified to what the
/// layout that adds no whitespace gives it.
#[verifier::spinoff_prover]
proof fn lemma_value_laid(s: Seq<u8>, i: int, d: nat, wl: nat, c: bool, st: Settings, t: Seq<u8>, p: int)
    requires
        0 <= i <= s.len(),
        lay_value(s, i, d, wl, c, st).0 is Ok,
        placed(t, p, lay_value(s, i, d, wl, c, st).2),
    ensures
        minify_spec(t, p, false) == prepend(lay_value(s, i, d, 0, c, compact(st)).2, minify_spec(
            t,
            p + lay_value(s, i, d, wl, c, st).2.len(),
            false,
        )),
    decreases s.len() - i, 1int,
{
    lemma_lay_value_progress(s, i, d, wl, c, st);
    if i < s.len() && (s[i] == 0x7b || s[i] == 0x5b) {
        lemma_container_laid(s, i, d, wl, c, st, t, p);
    } else {
        lemma_placed_points(t, p, copy_token_spec(s, i).2);
        lemma_token_laid(s, i, t, p);
    }
}

/// An object or array laid out elsewhere, likewise.
#[verifier::spinoff_prover]
#[verifier::rlimit(100)]
proof fn lemma_container_laid(s: Seq<u8>, i: int, d: nat, wl: nat, c: bool, st: Settings, t: Seq<u8>, p: int)
    requires
        0 <= i < s.len(),
        s[i] == 0x7b || s[i] == 0x5b,
        lay_value(s, i, d, wl, c, st).0 is Ok,
        placed(t, p, lay_value(s, i, d, wl, c, st).2),
    ensures
        minify_spec(t, p, false) == prepend(lay_value(s, i, d, 0, c, compact(st)).2, minify_spec(
            t,
            p + lay_value(s, i, d, wl, c, st).2.len(),
            false,
        )),
    decreases s.len() - i, 0int,
{
    let cst = compact(st);
    lemma_value_shape(s, i, d, wl, 0, c, st, cst);
    let out = lay_value(s, i, d, wl, c, st).2;
    let outc = lay_value(s, i, d, 0, c, cst).2;
    let open = s[i];
    let close: u8 = if open == 0x7b { 0x7du8 } else { 0x5du8 };
    lemma_ws_end(s, i + 1, c);
    let k = ws_end(s, i + 1, c);
    if 0 <= k < s.len() && s[k] == close {
        assert(out =~= seq![open] + seq![close]);
        assert(outc =~= seq![open] + seq![close]);
        lemma_placed_split(t, p, seq![open], seq![close]);
        lemma_byte_laid(t, p, open);
        lemma_byte_laid(t, p + 1, close);
        let tail = minify_spec(t, p + 2, false).0;
        assert(seq![open] + (seq![close] + tail) =~= outc + tail);
    } else {
        let inner = crate::json::writer::inner_level(open, wl, st);
        assert(crate::json::writer::inner_level(open, 0, cst) == 0);
        let b = if open == 0x7b {
            lay_members(s, k, d + 1, inner, c, st).2
        } else {
            lay_elements(s, k, d + 1, inner, c, st, true).2
        };
        let bc = if open == 0x7b {
            lay_members(s, k, d + 1, 0, c, cst).2
        } else {
            lay_elements(s, k, d + 1, 0, c, cst, true).2
        };
        if open == 0x7b {
            lemma_members_shape(s, k, d + 1, inner, 0, c, st, cst);
            lemma_members_ends(s, k, d + 1, inner, c, st);
            lemma_members_ends(s, k, d + 1, 0, c, cst);
        } else {
            lemma_elements_shape(s, k, d + 1, inner, 0, c, st, cst, true);
            lemma_elements_ends(s, k, d + 1, inner, c, st, true);
            lemma_elements_ends(s, k, d + 1, 0, c, cst, true);
        }
        let gap = if crate::json::writer::spec_breaks_lines(close, st) {
            crate::json::writer::line_text(wl, st)
        } else {
            Seq::<u8>::empty()
        };
        // The bracket, the body less its last comma, the break before the
        // closing bracket, and the bracket.
        assert(out =~= seq![open] + (b.drop_last() + (gap + seq![close])));
        assert(outc =~= seq![open] + bc.drop_last() + seq![close]);
        lemma_placed_split(t, p, seq![open], b.drop_last() + (gap + seq![close]));
        lemma_placed_split(t, p + 1, b.drop_last(), gap + seq![close]);
        let z = p + 1 + b.drop_last().len();
        lemma_placed_split(t, z, gap, seq![close]);
        lemma_byte_laid(t, p, open);
        if open == 0x7b {
            lemma_members_laid(s, k, d + 1, inner, c, st, t, p + 1);
        } else {
            lemma_elements_laid(s, k, d + 1, inner, c, st, true, t, p + 1);
        }
        lemma_line_blank(wl, st);
        lemma_gap_laid(t, z, gap, seq![close]);
        lemma_byte_laid(t, z + gap.len(), close);
        let tail = minify_spec(t, p + out.len(), false).0;
        assert(seq![open] + (bc.drop_last() + (seq![close] + tail)) =~= outc + tail);
    }
}

/// The members of an object end with a comma.
proof fn lemma_members_ends(s: Seq<u8>, m: int, d: nat, wl: nat, c: bool, st: Settings)
    requires
        0 <= m <= s.len(),
        lay_members(s, m, d, wl, c, st).0 is Ok,
    ensures
        lay_members(s, m, d, wl, c, st).2.len() >= 1,
        lay_members(s, m, d, wl, c, st).2.last() == 0x2c,
    decreases s.len() - m,
{
    lemma_copy_token_progress(s, m);
    let (kr, e1, key) = copy_token_spec(s, m);
    lemma_ws_end(s, e1, c);
    let a = ws_end(s, e1, c);
    lemma_ws_end(s, a + 1, c);
    let ps = ws_end(s, a + 1, c);
    lemma_lay_value_progress(s, ps, d, wl, c, st);
    let (vr, q, vt) = lay_value(s, ps, d, wl, c, st);
    lemma_ws_end(s, q, c);
    let bq = ws_end(s, q, c);
    if s[bq] == 0x2c {
        lemma_ws_end(s, bq + 1, c);
        let tt = ws_end(s, bq + 1, c);
        lemma_members_ends(s, tt, d, wl, c, st);
    }
}

/// The elements of an array end with a comma.
proof fn lemma_elements_ends(s: Seq<u8>, m: int, d: nat, wl: nat, c: bool, st: Settings, first: bool)
    requires
        0 <= m <= s.len(),
        lay_elements(s, m, d, wl, c, st, first).0 is Ok,
    ensures
        lay_elements(s, m, d, wl, c, st, first).2.len() >= 1,
        lay_elements(s, m, d, wl, c, st, first).2.last() == 0x2c,
    decreases s.len() - m,
{
    lemma_lay_value_progress(s, m, d, wl, c, st);
    let (vr, q, vt) = lay_value(s, m, d, wl, c, st);
    lemma_ws_end(s, q, c);
    let bq = ws_end(s, q, c);
    if s[bq] == 0x2c {
        lemma_ws_end(s, bq + 1, c);
        let tt = ws_end(s, bq + 1, c);
        lemma_elements_ends(s, tt, d, wl, c, st, false);
    }
}

proof fn lemma_item_blank(first: bool, wl: nat, st: Settings)
    ensures
        blank(crate::json::compose::item_text(if first { seq![0x5bu8] } else { seq![0x2cu8] }, wl, st)),
        crate::json::compose::item_text(if first { seq![0x5bu8] } else { seq![0x2cu8] }, 0, compact(st)).len()
            == 0,
{
    lemma_line_blank(wl, st);
}

proof fn lemma_member_blank(wl: nat, st: Settings)
    ensures
        blank(crate::json::writer::line_text(wl, st)),
        crate::json::writer::line_text(0, compact(st)).len() == 0,
        crate::json::compose::colon_text(compact(st)) == seq![0x3au8],
{
    assert(crate::json::compose::colon_text(compact(st)) =~= seq![0x3au8]);
}

/// The text of an item and the items after it, less the last comma.
proof fn lemma_item_parts(a: Seq<u8>, v: Seq<u8>, r: Seq<u8>, more: bool)
    requires
        more ==> r.len() >= 1,
    ensures
        (if more { a + v + seq![0x2cu8] + r } else { a + v + seq![0x2cu8] }).drop_last() == a + (v + (if more {
            seq![0x2cu8] + r.drop_last()
        } else {
            Seq::<u8>::empty()
        })),
{
    if more {
        assert((a + v + seq![0x2cu8] + r).drop_last() =~= a + (v + (seq![0x2cu8] + r.drop_last())));
    } else {
        assert((a + v + seq![0x2cu8]).drop_last() =~= a + (v + Seq::<u8>::empty()));
    }
}

/// The compact text of an item and the items after it, less the last
/// comma, in front of what follows.
proof fn lemma_item_glue(e: Seq<u8>, v: Seq<u8>, r: Seq<u8>, after: Seq<u8>, more: bool)
    requires
        e.len() == 0,
        more ==> r.len() >= 1,
    ensures
        (if more { e + v + seq![0x2cu8] + r } else { e + v + seq![0x2cu8] }).drop_last() + after == v + (if more {
            seq![0x2cu8] + (r.drop_last() + after)
        } else {
            after
        }),
{
    if more {
        assert((e + v + seq![0x2cu8] + r).drop_last() + after =~= v + (seq![0x2cu8] + (r.drop_last() + after)));
    } else {
        assert((e + v + seq![0x2cu8]).drop_last() + after =~= v + after);
    }
}

/// The text of a member and the members after it, less the last comma.
proof fn lemma_member_parts(l: Seq<u8>, k: Seq<u8>, ct: Seq<u8>, v: Seq<u8>, r: Seq<u8>, more: bool)
    requires
        more ==> r.len() >= 1,
    ensures
        (if more { l + k + ct + v + seq![0x2cu8] + r } else { l + k + ct + v + seq![0x2cu8] }).drop_last() == l + (k
            + (ct + (v + (if more { seq![0x2cu8] + r.drop_last() } else { Seq::<u8>::empty() })))),
{
    if more {
        assert((l + k + ct + v + seq![0x2cu8] + r).drop_last() =~= l + (k + (ct + (v + (seq![0x2cu8]
            + r.drop_last())))));
    } else {
        assert((l + k + ct + v + seq![0x2cu8]).drop_last() =~= l + (k + (ct + (v + Seq::<u8>::empty()))));
    }
}

/// The compact text of a member and the members after it, less the last
/// comma, in front of what follows.
proof fn lemma_member_glue(e: Seq<u8>, k: Seq<u8>, v: Seq<u8>, r: Seq<u8>, after: Seq<u8>, more: bool)
    requires
        e.len() == 0,
        more ==> r.len() >= 1,
    ensures
        (if more { e + k + seq![0x3au8] + v + seq![0x2cu8] + r } else { e + k + seq![0x3au8] + v + seq![0x2cu8] }).drop_last()
            + after == k + (seq![0x3au8] + (v + (if more {
            seq![0x2cu8] + (r.drop_last() + after)
        } else {
            after
        }))),
{
    if more {
        assert((e + k + seq![0x3au8] + v + seq![0x2cu8] + r).drop_last() + after =~= k + (seq![0x3au8] + (v + (
        seq![0x2cu8] + (r.drop_last() + after)))));
    } else {
        assert((e + k + seq![0x3au8] + v + seq![0x2cu8]).drop_last() + after =~= k + (seq![0x3au8] + (v
            + after)));
    }
}

/// How a successful layout of members is built: the break, the key, the
/// colon, the value and a comma, then the members after a comma, if any.
proof fn lemma_members_unfold(s: Seq<u8>, m: int, d: nat, wl: nat, c: bool, st: Settings)
    requires
        0 <= m <= s.len(),
        lay_members(s, m, d, wl, c, st).0 is Ok,
    ensures
        ({
            let key = copy_token_spec(s, m).2;
            let ps = ws_end(s, ws_end(s, copy_token_spec(s, m).1, c) + 1, c);
            let v = lay_value(s, ps, d, wl, c, st);
            let bq = ws_end(s, v.1, c);
            let done = crate::json::writer::line_text(wl, st) + key + crate::json::compose::colon_text(st) + v.2
                + seq![0x2cu8];
            let b = lay_members(s, m, d, wl, c, st).2;
            &&& m < s.len()
            &&& s[m] == 0x22
            &&& copy_token_spec(s, m).0 is Ok
            &&& m < ps <= s.len()
            &&& v.0 is Ok
            &&& ps <= v.1 <= bq < s.len()
            &&& if s[bq] == 0x2c {
                let tt = ws_end(s, bq + 1, c);
                &&& m < tt <= s.len()
                &&& lay_members(s, tt, d, wl, c, st).0 is Ok
                &&& b == done + lay_members(s, tt, d, wl, c, st).2
            } else {
                b == done
            }
        }),
{
    lemma_copy_token_progress(s, m);
    let e1 = copy_token_spec(s, m).1;
    lemma_ws_end(s, e1, c);
    let a = ws_end(s, e1, c);
    lemma_ws_end(s, a + 1, c);
    let ps = ws_end(s, a + 1, c);
    lemma_lay_value_progress(s, ps, d, wl, c, st);
    let q = lay_value(s, ps, d, wl, c, st).1;
    lemma_ws_end(s, q, c);
    let bq = ws_end(s, q, c);
    if bq < s.len() && s[bq] == 0x2c {
        lemma_ws_end(s, bq + 1, c);
    }
}

/// How a successful layout of elements is built: the break, the value and
/// a comma, then the elements after a comma, if any.
proof fn lemma_elements_unfold(s: Seq<u8>, m: int, d: nat, wl: nat, c: bool, st: Settings, first: bool)
    requires
        0 <= m <= s.len(),
        lay_elements(s, m, d, wl, c, st, first).0 is Ok,
    ensures
        ({
            let v = lay_value(s, m, d, wl, c, st);
            let bq = ws_end(s, v.1, c);
            let brk = crate::json::compose::item_text(if first { seq![0x5bu8] } else { seq![0x2cu8] }, wl, st);
            let done = brk + v.2 + seq![0x2cu8];
            let b = lay_elements(s, m, d, wl, c, st, first).2;
            &&& v.0 is Ok
            &&& m <= v.1 <= bq < s.len()
            &&& if s[bq] == 0x2c {
                let tt = ws_end(s, bq + 1, c);
                &&& m < tt <= s.len()
                &&& lay_elements(s, tt, d, wl, c, st, false).0 is Ok
                &&& b == done + lay_elements(s, tt, d, wl, c, st, false).2
            } else {
                b == done
            }
        }),
{
    lemma_lay_value_progress(s, m, d, wl, c, st);
    let q = lay_value(s, m, d, wl, c, st).1;
    lemma_ws_end(s, q, c);
    let bq = ws_end(s, q, c);
    if bq < s.len() && s[bq] == 0x2c {
        lemma_ws_end(s, bq + 1, c);
    }
}

/// The members of an object laid out elsewhere, less their last comma,
/// are minified to what the layout that adds no whitespace gives them, less
/// its last comma.
#[verifier::spinoff_prover]
#[verifier::rlimit(100)]
proof fn lemma_members_laid(s: Seq<u8>, m: int, d: nat, wl: nat, c: bool, st: Settings, t: Seq<u8>, p: int)
    requires
        0 <= m <= s.len(),
        lay_members(s, m, d, wl, c, st).0 is Ok,
        placed(t, p, lay_members(s, m, d, wl, c, st).2.drop_last()),
    ensures
        minify_spec(t, p, false) == prepend(lay_members(s, m, d, 0, c, compact(st)).2.drop_last(), minify_spec(
            t,
            p + lay_members(s, m, d, wl, c, st).2.drop_last().len(),
            false,
        )),
    decreases s.len() - m, 2int,
{
    let cst = compact(st);
    lemma_members_shape(s, m, d, wl, 0, c, st, cst);
    lemma_members_unfold(s, m, d, wl, c, st);
    lemma_members_unfold(s, m, d, 0, c, cst);
    lemma_copy_token_progress(s, m);
    lemma_member_blank(wl, st);
    let b = lay_members(s, m, d, wl, c, st).2;
    let bc = lay_members(s, m, d, 0, c, cst).2;
    let key = copy_token_spec(s, m).2;
    let ps = ws_end(s, ws_end(s, copy_token_spec(s, m).1, c) + 1, c);
    lemma_value_shape(s, ps, d, wl, 0, c, st, cst);
    lemma_value_first(s, ps, d, wl, c, st);
    let vt = lay_value(s, ps, d, wl, c, st).2;
    let vtc = lay_value(s, ps, d, 0, c, cst).2;
    let bq = ws_end(s, lay_value(s, ps, d, wl, c, st).1, c);
    let line = crate::json::writer::line_text(wl, st);
    let linec = crate::json::writer::line_text(0, cst);
    let ct = crate::json::compose::colon_text(st);
    let more = s[bq] == 0x2c;
    let tt = ws_end(s, bq + 1, c);
    let rest = if more { lay_members(s, tt, d, wl, c, st).2 } else { Seq::<u8>::empty() };
    let restc = if more { lay_members(s, tt, d, 0, c, cst).2 } else { Seq::<u8>::empty() };
    if more {
        lemma_members_ends(s, tt, d, wl, c, st);
        lemma_members_ends(s, tt, d, 0, c, cst);
    }
    assert(b == (if more { line + key + ct + vt + seq![0x2cu8] + rest } else { line + key + ct + vt + seq![0x2cu8] }));
    assert(bc == (if more { linec + key + seq![0x3au8] + vtc + seq![0x2cu8] + restc } else { linec + key
        + seq![0x3au8] + vtc + seq![0x2cu8] }));
    lemma_member_parts(line, key, ct, vt, rest, more);
    let tail = if more { seq![0x2cu8] + rest.drop_last() } else { Seq::<u8>::empty() };
    let p1 = p + line.len();
    let p2 = p1 + key.len();
    let p3 = p2 + ct.len();
    let p4 = p3 + vt.len();
    lemma_placed_split(t, p, line, key + (ct + (vt + tail)));
    lemma_placed_split(t, p1, key, ct + (vt + tail));
    lemma_placed_split(t, p2, ct, vt + tail);
    lemma_placed_split(t, p3, vt, tail);
    assert(key[0] == 0x22);
    assert((key + (ct + (vt + tail)))[0] == key[0]);
    lemma_gap_laid(t, p, line, key + (ct + (vt + tail)));
    lemma_placed_points(t, p1, key);
    lemma_token_laid(s, m, t, p1);
    assert((vt + tail)[0] == vt[0]);
    lemma_colon_laid(t, p2, st, vt + tail);
    lemma_value_laid(s, ps, d, wl, c, st, t, p3);
    let after = minify_spec(t, p + b.drop_last().len(), false).0;
    if more {
        lemma_placed_split(t, p4, seq![0x2cu8], rest.drop_last());
        lemma_byte_laid(t, p4, 0x2c);
        lemma_members_laid(s, tt, d, wl, c, st, t, p4 + 1);
    }
    lemma_member_glue(linec, key, vtc, restc, after, more);
}


/// The elements of an array laid out elsewhere, less their last comma,
/// likewise, behind a byte that is not part of a token.
#[verifier::spinoff_prover]
#[verifier::rlimit(100)]
proof fn lemma_elements_laid(
    s: Seq<u8>,
    m: int,
    d: nat,
    wl: nat,
    c: bool,
    st: Settings,
    first: bool,
    t: Seq<u8>,
    p: int,
)
    requires
        0 <= m <= s.len(),
        lay_elements(s, m, d, wl, c, st, first).0 is Ok,
        1 <= p,
        !spec_scalar_byte(t[p - 1]),
        placed(t, p, lay_elements(s, m, d, wl, c, st, first).2.drop_last()),
    ensures
        minify_spec(t, p, false) == prepend(lay_elements(s, m, d, 0, c, compact(st), first).2.drop_last(), minify_spec(
            t,
            p + lay_elements(s, m, d, wl, c, st, first).2.drop_last().len(),
            false,
        )),
    decreases s.len() - m, 2int,
{
    let cst = compact(st);
    lemma_elements_shape(s, m, d, wl, 0, c, st, cst, first);
    lemma_elements_unfold(s, m, d, wl, c, st, first);
    lemma_elements_unfold(s, m, d, 0, c, cst, first);
    lemma_value_shape(s, m, d, wl, 0, c, st, cst);
    lemma_value_first(s, m, d, wl, c, st);
    lemma_item_blank(first, wl, st);
    let b = lay_elements(s, m, d, wl, c, st, first).2;
    let bc = lay_elements(s, m, d, 0, c, cst, first).2;
    let vt = lay_value(s, m, d, wl, c, st).2;
    let vtc = lay_value(s, m, d, 0, c, cst).2;
    let bq = ws_end(s, lay_value(s, m, d, wl, c, st).1, c);
    let brk = crate::json::compose::item_text(if first { seq![0x5bu8] } else { seq![0x2cu8] }, wl, st);
    let brkc = crate::json::compose::item_text(if first { seq![0x5bu8] } else { seq![0x2cu8] }, 0, cst);
    let more = s[bq] == 0x2c;
    let tt = ws_end(s, bq + 1, c);
    let rest = if more { lay_elements(s, tt, d, wl, c, st, false).2 } else { Seq::<u8>::empty() };
    let restc = if more { lay_elements(s, tt, d, 0, c, cst, false).2 } else { Seq::<u8>::empty() };
    if more {
        lemma_elements_ends(s, tt, d, wl, c, st, false);
        lemma_elements_ends(s, tt, d, 0, c, cst, false);
    }
    assert(b == (if more { brk + vt + seq![0x2cu8] + rest } else { brk + vt + seq![0x2cu8] }));
    assert(bc == (if more { brkc + vtc + seq![0x2cu8] + restc } else { brkc + vtc + seq![0x2cu8] }));
    lemma_item_parts(brk, vt, rest, more);
    let tail = if more { seq![0x2cu8] + rest.drop_last() } else { Seq::<u8>::empty() };
    let p1 = p + brk.len();
    let p4 = p1 + vt.len();
    lemma_placed_split(t, p, brk, vt + tail);
    lemma_placed_split(t, p1, vt, tail);
    assert((vt + tail)[0] == vt[0]);
    lemma_gap_laid(t, p, brk, vt + tail);
    lemma_value_laid(s, m, d, wl, c, st, t, p1);
    let after = minify_spec(t, p + b.drop_last().len(), false).0;
    if more {
        lemma_placed_split(t, p4, seq![0x2cu8], rest.drop_last());
        lemma_byte_laid(t, p4, 0x2c);
        lemma_elements_laid(s, tt, d, wl, c, st, false, t, p4 + 1);
    }
    lemma_item_glue(brkc, vtc, restc, after, more);
}


/// Laying a document out changes nothing but its layout: under any policy,
/// minifying what the layout writes gives what minifying the document
/// itself gives, on every document the layout accepts.
pub proof fn lemma_layout_changes_only_whitespace(s: Seq<u8>, st: Settings)
    requires
        prettify_spec(s, st).0 is Ok,
    ensures
        minify_spec(prettify_spec(s, st).2, 0, false) == minify_spec(s, 0, st.allow_comments),
{
    let c = st.allow_comments;
    let cst = compact(st);
    lemma_ws_end(s, 0, c);
    let j = ws_end(s, 0, c);
    lemma_value_shape(s, j, 0, 0, 0, c, st, cst);
    let out = prettify_spec(s, st).2;
    assert(out == lay_value(s, j, 0, 0, c, st).2);
    assert(out.subrange(0, out.len() as int) =~= out);
    lemma_value_laid(s, j, 0, 0, c, st, out, 0);
    reveal(minify_spec);
    assert(minify_spec(out, out.len() as int, false) == (Seq::<u8>::empty(), None::<(ErrorCode, int)>));
    assert(prettify_spec(s, cst).0 is Ok);
    assert(prettify_spec(s, cst).2 == lay_value(s, j, 0, 0, c, cst).2);
    lemma_compact_layout_is_minified(s, cst);
    assert(lay_value(s, j, 0, 0, c, cst).2 + Seq::<u8>::empty() =~= lay_value(s, j, 0, 0, c, cst).2);
}

// ---------------------------------------------------------------------------
// Stepping over a value covers what the layout reads as that value
// ---------------------------------------------------------------------------

/// A value the layout accepts at `i` is stepped over to where the layout
/// ends it.
#[verifier::spinoff_prover]
proof fn lemma_skip_value_agrees(s: Seq<u8>, i: int, d: nat, wl: nat, c: bool, st: Settings)
    requires
        0 <= i <= s.len(),
        lay_value(s, i, d, wl, c, st).0 is Ok,
    ensures
        crate::json::structure::skip_value_spec(s, i, d, c) == (Ok::<(), ErrorCode>(()), lay_value(s, i, d, wl, c, st).1),
    decreases s.len() - i, 1int,
{
    lemma_value_first(s, i, d, wl, c, st);
    assert(ws_end(s, i, c) == i);
    if s[i] == 0x7b || s[i] == 0x5b {
        lemma_ws_end(s, i + 1, c);
        let k = ws_end(s, i + 1, c);
        let open = s[i];
        let close: u8 = if open == 0x7b { 0x7du8 } else { 0x5du8 };
        if !(0 <= k < s.len() && s[k] == close) {
            let inner = crate::json::writer::inner_level(open, wl, st);
            if open == 0x7b {
                lemma_skip_members_agrees(s, k, d + 1, inner, c, st);
            } else {
                lemma_skip_elements_agrees(s, k, d + 1, inner, c, st);
            }
        }
    }
}

/// Members the layout accepts from `m` are stepped over to where the
/// layout ends them.
#[verifier::spinoff_prover]
proof fn lemma_skip_members_agrees(s: Seq<u8>, m: int, d: nat, wl: nat, c: bool, st: Settings)
    requires
        0 <= m <= s.len(),
        lay_members(s, m, d, wl, c, st).0 is Ok,
    ensures
        crate::json::structure::skip_members(s, m, d, c) == (Ok::<(), ErrorCode>(()), lay_members(s, m, d, wl, c, st).1),
    decreases s.len() - m, 2int,
{
    lemma_members_unfold(s, m, d, wl, c, st);
    lemma_copy_token_progress(s, m);
    let e1 = copy_token_spec(s, m).1;
    lemma_ws_end(s, e1, c);
    let a = ws_end(s, e1, c);
    lemma_ws_end(s, a + 1, c);
    let ps = ws_end(s, a + 1, c);
    lemma_lay_value_progress(s, ps, d, wl, c, st);
    lemma_skip_value_agrees(s, ps, d, wl, c, st);
    let q = lay_value(s, ps, d, wl, c, st).1;
    lemma_ws_end(s, q, c);
    let bq = ws_end(s, q, c);
    if s[bq] == 0x2c {
        lemma_ws_end(s, bq + 1, c);
        let tt = ws_end(s, bq + 1, c);
        lemma_skip_members_agrees(s, tt, d, wl, c, st);
    }
}

/// Elements the layout accepts from `m` are stepped over to where the
/// layout ends them.
#[verifier::spinoff_prover]
proof fn lemma_skip_elements_agrees(s: Seq<u8>, m: int, d: nat, wl: nat, c: bool, st: Settings)
    requires
        0 <= m <= s.len(),
        lay_elements(s, m, d, wl, c, st, true).0 is Ok,
    ensures
        crate::json::structure::skip_elements(s, m, d, c) == (Ok::<(), ErrorCode>(()), lay_elements(
            s,
            m,
            d,
            wl,
            c,
            st,
            true,
        ).1),
    decreases s.len() - m, 3int,
{
    lemma_elements_tail_agrees(s, m, d, wl, c, st, true);
}

proof fn lemma_elements_tail_agrees(s: Seq<u8>, m: int, d: nat, wl: nat, c: bool, st: Settings, first: bool)
    requires
        0 <= m <= s.len(),
        lay_elements(s, m, d, wl, c, st, first).0 is Ok,
    ensures
        crate::json::structure::skip_elements(s, m, d, c) == (Ok::<(), ErrorCode>(()), lay_elements(
            s,
            m,
            d,
            wl,
            c,
            st,
            first,
        ).1),
    decreases s.len() - m, 2int,
{
    lemma_elements_unfold(s, m, d, wl, c, st, first);
    lemma_lay_value_progress(s, m, d, wl, c, st);
    lemma_skip_value_agrees(s, m, d, wl, c, st);
    let q = lay_value(s, m, d, wl, c, st).1;
    lemma_ws_end(s, q, c);
    let bq = ws_end(s, q, c);
    if s[bq] == 0x2c {
        lemma_ws_end(s, bq + 1, c);
        let tt = ws_end(s, bq + 1, c);
        lemma_elements_tail_agrees(s, tt, d, wl, c, st, false);
    }
}

/// Stepping over a value, as the reader does with a member's value no
/// field claims, steps over exactly one whole value: wherever the layout
/// reads a value at `i`, objects of any number of members and arrays of
/// any number of elements included, the step succeeds and stops where that
/// value ends.
pub proof fn lemma_skip_steps_over_one_value(s: Seq<u8>, i: int, d: nat, c: bool, st: Settings)
    requires
        0 <= i <= s.len(),
        lay_value(s, i, d, 0, c, st).0 is Ok,
    ensures
        crate::json::structure::skip_value_spec(s, i, d, c) == (Ok::<(), ErrorCode>(()), lay_value(s, i, d, 0, c, st).1),
{
    lemma_skip_value_agrees(s, i, d, 0, c, st);
}

} // verus!

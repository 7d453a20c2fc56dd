//! What the structural scan finds, held against the text the writer
//! produces and against the grammar the parser steps over: a value ends
//! where the grammar says it does, a string at its closing quote however
//! many escaped quotes and backslashes it holds, a container at its
//! closing bracket however many members it holds.
use vstd::prelude::*;
use crate::error::ErrorCode;
use crate::json::parser::{
    block_comment_close, comment_end, first_stop, lemma_first_stop, lemma_ws_end, number_byte, number_run_end,
    skip_body, spec_colon, spec_comma_or_close, spec_is_ws, spec_skip_scalar, ws_end, MAX_DEPTH,
};
use crate::json::stream::split::{block_after, comment_run, lemma_scan_comment, scan_run, Comment, Scanner};
use crate::json::agreement::lemma_skip_steps_over_one_value;
use crate::json::prettify::lay_value;
use crate::json::structure::{skip_elements, skip_members, skip_value_spec};
use crate::options::Settings;
use crate::swar::{first_byte_from, lemma_first_byte_from, spec_needs_escape};
use crate::json::writer::{escape_byte, escape_bytes, hex_digit, lemma_escape_bytes_concat, quoted};

verus! {

/// Inside a string, a byte that neither ends it nor escapes the next one
/// is passed over.
proof fn lemma_scan_plain(sc: Scanner, s: Seq<u8>, comments: bool)
    requires
        sc.in_string,
        !sc.escaped,
        sc.comment == Comment::No,
        sc.pos < s.len() <= usize::MAX,
        s[sc.pos as int] != 0x22,
        s[sc.pos as int] != 0x5c,
    ensures
        scan_run(sc, s, comments) == scan_run(Scanner { pos: (sc.pos + 1) as usize, ..sc }, s, comments),
{
}

/// Inside a string, a backslash and the byte after it are passed over,
/// whatever that byte is.
proof fn lemma_scan_escape(sc: Scanner, s: Seq<u8>, comments: bool)
    requires
        sc.in_string,
        !sc.escaped,
        sc.comment == Comment::No,
        sc.pos + 1 < s.len() <= usize::MAX,
        s[sc.pos as int] == 0x5c,
    ensures
        scan_run(sc, s, comments) == scan_run(Scanner { pos: (sc.pos + 2) as usize, ..sc }, s, comments),
{
    let mid = Scanner { pos: (sc.pos + 1) as usize, escaped: true, ..sc };
    assert(scan_run(sc, s, comments) == scan_run(mid, s, comments));
    assert(scan_run(mid, s, comments) == scan_run(Scanner { pos: (sc.pos + 2) as usize, ..sc }, s, comments));
}

/// Inside a string, the spelling of one byte is passed over.
proof fn lemma_scan_escaped_byte(sc: Scanner, s: Seq<u8>, comments: bool, b: u8)
    requires
        sc.in_string,
        !sc.escaped,
        sc.comment == Comment::No,
        sc.pos + escape_byte(b).len() <= s.len() <= usize::MAX,
        s.subrange(sc.pos as int, sc.pos + escape_byte(b).len()) == escape_byte(b),
    ensures
        scan_run(sc, s, comments) == scan_run(
            Scanner { pos: (sc.pos + escape_byte(b).len()) as usize, ..sc },
            s,
            comments,
        ),
{
    let e = escape_byte(b);
    let p = sc.pos as int;
    assert forall|k: int| 0 <= k < e.len() implies s[p + k] == e[k] by {
        assert(s.subrange(p, p + e.len())[k] == s[p + k]);
    }
    if e.len() == 1 {
        assert(s[p + 0] == e[0]);
        lemma_scan_plain(sc, s, comments);
    } else if e.len() == 2 {
        assert(s[p + 0] == e[0]);
        lemma_scan_escape(sc, s, comments);
    } else {
        assert(e.len() == 6);
        assert(s[p + 0] == e[0]);
        lemma_scan_escape(sc, s, comments);
        let hi = hex_digit(b / 16);
        let lo = hex_digit(b % 16);
        assert(s[p + 2] == 0x30 && s[p + 3] == 0x30 && s[p + 4] == hi && s[p + 5] == lo);
        assert(hi != 0x22 && hi != 0x5c && lo != 0x22 && lo != 0x5c);
        let s2 = Scanner { pos: (p + 2) as usize, ..sc };
        lemma_scan_plain(s2, s, comments);
        let s3 = Scanner { pos: (p + 3) as usize, ..sc };
        lemma_scan_plain(s3, s, comments);
        let s4 = Scanner { pos: (p + 4) as usize, ..sc };
        lemma_scan_plain(s4, s, comments);
        let s5 = Scanner { pos: (p + 5) as usize, ..sc };
        lemma_scan_plain(s5, s, comments);
    }
}

/// Inside a string, the writer's spelling of any bytes is passed over
/// whole: no escaped quote or backslash inside it ends the string.
proof fn lemma_scan_string_text(sc: Scanner, s: Seq<u8>, comments: bool, x: Seq<u8>)
    requires
        sc.in_string,
        !sc.escaped,
        sc.comment == Comment::No,
        sc.pos + escape_bytes(x).len() <= s.len() <= usize::MAX,
        s.subrange(sc.pos as int, sc.pos + escape_bytes(x).len()) == escape_bytes(x),
    ensures
        scan_run(sc, s, comments) == scan_run(
            Scanner { pos: (sc.pos + escape_bytes(x).len()) as usize, ..sc },
            s,
            comments,
        ),
    decreases x.len(),
{
    let p = sc.pos as int;
    if x.len() == 0 {
        assert(escape_bytes(x).len() == 0);
        assert(Scanner { pos: (sc.pos + 0) as usize, ..sc } == sc);
    } else {
        let head = x[0];
        let tail = x.skip(1);
        assert(x =~= seq![head] + tail);
        lemma_escape_bytes_concat(seq![head], tail);
        assert(seq![head].drop_last() =~= Seq::<u8>::empty());
        assert(escape_bytes(Seq::<u8>::empty()) =~= Seq::<u8>::empty());
        assert(seq![head].last() == head);
        assert(escape_bytes(seq![head]) =~= escape_byte(head));
        let eh = escape_byte(head);
        let et = escape_bytes(tail);
        assert(escape_bytes(x) == eh + et);
        assert(s.subrange(p, p + eh.len()) =~= eh) by {
            assert forall|k: int| 0 <= k < eh.len() implies s.subrange(p, p + eh.len())[k] == eh[k] by {
                assert(s.subrange(p, p + escape_bytes(x).len())[k] == (eh + et)[k]);
            }
        }
        lemma_scan_escaped_byte(sc, s, comments, head);
        let mid = Scanner { pos: (p + eh.len()) as usize, ..sc };
        assert(s.subrange(mid.pos as int, mid.pos + et.len()) =~= et) by {
            assert forall|k: int| 0 <= k < et.len() implies s.subrange(mid.pos as int, mid.pos + et.len())[k]
                == et[k] by {
                assert(s.subrange(p, p + escape_bytes(x).len())[eh.len() + k] == (eh + et)[eh.len() + k]);
            }
        }
        lemma_scan_string_text(mid, s, comments, tail);
        assert(Scanner { pos: (mid.pos + et.len()) as usize, ..mid } == Scanner {
            pos: (sc.pos + escape_bytes(x).len()) as usize,
            ..sc
        });
    }
}

/// A fresh scan over the writer's spelling of any string, whatever follows
/// it, ends exactly at the string's closing quote: a quote behind an odd
/// run of backslashes does not end the string.
pub proof fn lemma_scan_finds_string_end(x: Seq<u8>, rest: Seq<u8>, comments: bool)
    requires
        quoted(x).len() + rest.len() <= usize::MAX,
    ensures
        scan_run(Scanner::new_spec(), quoted(x) + rest, comments).0 == Ok::<Option<usize>, ErrorCode>(
            Some(quoted(x).len() as usize),
        ),
{
    let e = escape_bytes(x);
    let t = quoted(x);
    let s = t + rest;
    assert(t =~= seq![0x22u8] + e + seq![0x22u8]);
    assert(s[0] == 0x22);
    let open = Scanner { pos: 1, in_string: true, ..Scanner::new_spec() };
    assert(scan_run(Scanner::new_spec(), s, comments) == scan_run(open, s, comments));
    assert(s.subrange(1, 1 + e.len() as int) =~= e) by {
        assert forall|k: int| 0 <= k < e.len() implies s.subrange(1, 1 + e.len() as int)[k] == e[k] by {
            assert(s[1 + k] == t[1 + k]);
        }
    }
    lemma_scan_string_text(open, s, comments, x);
    let closing = Scanner { pos: (1 + e.len() as int) as usize, ..open };
    assert(s[1 + e.len() as int] == 0x22) by {
        assert(s[1 + e.len() as int] == t[1 + e.len() as int]);
    }
    assert(scan_run(closing, s, comments).0 == Ok::<Option<usize>, ErrorCode>(Some((2 + e.len() as int) as usize)));
}

/// A fresh scan over an object of one string member, as the writer spells
/// it, whatever follows, ends exactly at its closing brace: escaped quotes
/// in the key or the value end neither string.
#[verifier::spinoff_prover]
#[verifier::rlimit(60)]
pub proof fn lemma_scan_finds_object_end(k: Seq<u8>, v: Seq<u8>, rest: Seq<u8>, comments: bool)
    requires
        quoted(k).len() + quoted(v).len() + 3 + rest.len() <= usize::MAX,
    ensures
        ({
            let t = seq![0x7bu8] + quoted(k) + seq![0x3au8] + quoted(v) + seq![0x7du8];
            scan_run(Scanner::new_spec(), t + rest, comments).0 == Ok::<Option<usize>, ErrorCode>(Some(t.len() as usize))
        }),
{
    let ek = escape_bytes(k);
    let ev = escape_bytes(v);
    let t = seq![0x7bu8] + quoted(k) + seq![0x3au8] + quoted(v) + seq![0x7du8];
    let s = t + rest;
    let a = 2 + ek.len() as int;
    // `{`, `"`, key, `"`, `:`, `"`, value, `"`, `}`.
    assert(t =~= seq![0x7bu8, 0x22u8] + ek + seq![0x22u8, 0x3au8, 0x22u8] + ev + seq![0x22u8, 0x7du8]);
    assert(s[0] == 0x7b && s[1] == 0x22);
    let s1 = Scanner { pos: 1, depth: 1, ..Scanner::new_spec() };
    let s2 = Scanner { pos: 2, in_string: true, ..s1 };
    assert(scan_run(Scanner::new_spec(), s, comments) == scan_run(s1, s, comments));
    assert(scan_run(s1, s, comments) == scan_run(s2, s, comments));
    assert(s.subrange(2, 2 + ek.len() as int) =~= ek) by {
        assert forall|j: int| 0 <= j < ek.len() implies s.subrange(2, 2 + ek.len() as int)[j] == ek[j] by {
            assert(s[2 + j] == t[2 + j]);
        }
    }
    lemma_scan_string_text(s2, s, comments, k);
    assert(s[a] == 0x22 && s[a + 1] == 0x3a && s[a + 2] == 0x22) by {
        assert(s[a] == t[a] && s[a + 1] == t[a + 1] && s[a + 2] == t[a + 2]);
    }
    let s3 = Scanner { pos: a as usize, ..s2 };
    let s4 = Scanner { pos: (a + 1) as usize, in_string: false, ..s2 };
    let s5 = Scanner { pos: (a + 2) as usize, ..s4 };
    let s6 = Scanner { pos: (a + 3) as usize, in_string: true, ..s4 };
    assert(scan_run(s3, s, comments) == scan_run(s4, s, comments));
    assert(scan_run(s4, s, comments) == scan_run(s5, s, comments));
    assert(scan_run(s5, s, comments) == scan_run(s6, s, comments));
    let b = a + 3;
    assert(s.subrange(b, b + ev.len() as int) =~= ev) by {
        assert forall|j: int| 0 <= j < ev.len() implies s.subrange(b, b + ev.len() as int)[j] == ev[j] by {
            assert(s[b + j] == t[b + j]);
        }
    }
    lemma_scan_string_text(s6, s, comments, v);
    assert(s[b + ev.len() as int] == 0x22 && s[b + ev.len() as int + 1] == 0x7d) by {
        assert(s[b + ev.len() as int] == t[b + ev.len() as int] && s[b + ev.len() as int + 1] == t[b + ev.len() as int + 1]);
    }
    let s7 = Scanner { pos: (b + ev.len() as int) as usize, ..s6 };
    let s8 = Scanner { pos: (b + ev.len() as int + 1) as usize, in_string: false, ..s6 };
    assert(scan_run(s7, s, comments) == scan_run(s8, s, comments));
    assert(t.len() == b + ev.len() as int + 2);
    assert(scan_run(s8, s, comments).0 == Ok::<Option<usize>, ErrorCode>(Some(t.len() as usize)));
}

/// A scan outside any string, scalar or comment, at `pos` and `depth`.
pub open spec fn clean(pos: int, depth: int) -> Scanner {
    Scanner {
        pos: pos as usize,
        depth: depth as u32,
        in_string: false,
        escaped: false,
        scalar: false,
        comment: Comment::No,
    }
}

/// A scan inside a string, at `pos` and `depth`, with no escape pending.
pub open spec fn in_string_at(pos: int, depth: int) -> Scanner {
    Scanner { in_string: true, ..clean(pos, depth) }
}

/// What a scan gives from just past a value that sits at `depth`: inside a
/// container it goes on, and at the top it reports the value's end.
pub open spec fn past(pos: int, depth: int, s: Seq<u8>, comments: bool) -> (Result<Option<usize>, ErrorCode>, Scanner) {
    if depth >= 1 {
        scan_run(clean(pos, depth), s, comments)
    } else {
        (Ok(Some(pos as usize)), clean(pos, 0))
    }
}

/// A byte the scan passes over inside a container: no whitespace, quote,
/// bracket or slash.
pub open spec fn plain_byte(c: u8) -> bool {
    !spec_is_ws(c) && c != 0x22 && c != 0x7b && c != 0x5b && c != 0x7d && c != 0x5d && c != 0x2f
}

/// Inside a container, a run of plain bytes is passed over.
proof fn lemma_scan_plain_run(s: Seq<u8>, j: int, e: int, depth: int, comments: bool)
    requires
        0 <= j <= e <= s.len() <= usize::MAX,
        1 <= depth <= MAX_DEPTH,
        forall|m: int| j <= m < e ==> plain_byte(#[trigger] s[m]),
    ensures
        scan_run(clean(j, depth), s, comments) == scan_run(clean(e, depth), s, comments),
    decreases e - j,
{
    if j < e {
        assert(plain_byte(s[j]));
        assert(scan_run(clean(j, depth), s, comments) == scan_run(clean(j + 1, depth), s, comments));
        lemma_scan_plain_run(s, j + 1, e, depth, comments);
    }
}

/// Inside a string, a run of bytes that need no escape is passed over.
proof fn lemma_scan_string_run(s: Seq<u8>, j: int, e: int, depth: int, comments: bool)
    requires
        0 <= j <= e <= s.len() <= usize::MAX,
        0 <= depth <= MAX_DEPTH,
        forall|m: int| j <= m < e ==> !spec_needs_escape(#[trigger] s[m]),
    ensures
        scan_run(in_string_at(j, depth), s, comments) == scan_run(in_string_at(e, depth), s, comments),
    decreases e - j,
{
    if j < e {
        assert(!spec_needs_escape(s[j]));
        lemma_scan_plain(in_string_at(j, depth), s, comments);
        assert(Scanner { pos: (j + 1) as usize, ..in_string_at(j, depth) } == in_string_at(j + 1, depth));
        lemma_scan_string_run(s, j + 1, e, depth, comments);
    }
}

/// The bytes of a number run are all number bytes.
proof fn lemma_number_run_bytes(s: Seq<u8>, i: int)
    requires
        0 <= i <= s.len(),
    ensures
        i <= number_run_end(s, i) <= s.len(),
        forall|m: int| i <= m < number_run_end(s, i) ==> number_byte(#[trigger] s[m]),
    decreases s.len() - i,
{
    if i < s.len() && number_byte(s[i]) {
        lemma_number_run_bytes(s, i + 1);
    }
}

/// A line comment's bytes run to the first newline, which is left unread.
proof fn lemma_line_comment_run(s: Seq<u8>, m: int, k: int)
    requires
        0 <= m,
        first_byte_from(s, m, 0x0au8) == Some(k),
    ensures
        comment_run(Comment::Line, s, m) == (Comment::No, k),
    decreases s.len() - m,
{
    if s[m] != 0x0a {
        lemma_line_comment_run(s, m + 1, k);
    }
}

/// A block comment's bytes run through the first `*/`.
proof fn lemma_block_comment_run(s: Seq<u8>, m: int, k: int)
    requires
        0 <= m,
        block_comment_close(s, m) == Some(k),
    ensures
        comment_run(Comment::Block, s, m) == (Comment::No, k + 2),
    decreases s.len() - m,
{
    if s[m] == 0x2a && s[m + 1] == 0x2f {
        assert(comment_run(Comment::BlockStar, s, m + 1) == comment_run(Comment::No, s, m + 2));
    } else {
        lemma_block_comment_run(s, m + 1, k);
        if s[m] == 0x2a {
            assert(block_after(Comment::BlockStar, s[m + 1]) == block_after(Comment::Block, s[m + 1]));
            assert(comment_run(Comment::BlockStar, s, m + 1) == comment_run(Comment::Block, s, m + 1));
        }
    }
}

/// Outside strings and scalars, the whitespace and comments the parser
/// skips are passed over, up to the byte it stops on.
proof fn lemma_scan_ws(s: Seq<u8>, i: int, depth: int, comments: bool)
    requires
        0 <= i <= s.len() <= usize::MAX,
        0 <= depth <= MAX_DEPTH,
        ws_end(s, i, comments) < s.len(),
    ensures
        scan_run(clean(i, depth), s, comments) == scan_run(clean(ws_end(s, i, comments), depth), s, comments),
    decreases s.len() - i,
{
    if i < s.len() {
        if spec_is_ws(s[i]) {
            assert(scan_run(clean(i, depth), s, comments) == scan_run(clean(i + 1, depth), s, comments));
            lemma_scan_ws(s, i + 1, depth, comments);
        } else if comments && s[i] == 0x2f {
            match comment_end(s, i) {
                Some(j) => if i < j && j <= s.len() {
                    assert(ws_end(s, i, comments) == ws_end(s, j, comments));
                    if j == s.len() {
                        assert(ws_end(s, j, comments) == j);
                    }
                    assert(j < s.len());
                    let cm = if s[i + 1] == 0x2f { Comment::Line } else { Comment::Block };
                    let inside = Scanner { pos: (i + 2) as usize, comment: cm, ..clean(i, depth) };
                    assert(scan_run(clean(i, depth), s, comments) == scan_run(inside, s, comments));
                    if s[i + 1] == 0x2f {
                        lemma_first_byte_from(s, i + 2, 0x0au8);
                        lemma_line_comment_run(s, i + 2, j);
                    } else {
                        lemma_block_comment_run(s, i + 2, j - 2);
                    }
                    lemma_scan_comment(inside, s, comments);
                    assert(Scanner { pos: j as usize, comment: Comment::No, ..inside } == clean(j, depth));
                    lemma_scan_ws(s, j, depth, comments);
                },
                None => {},
            }
        }
    }
}

/// The body of a string the parser steps over, from just past its opening
/// quote, is passed over through its closing quote.
proof fn lemma_scan_string_body(s: Seq<u8>, i: int, depth: int, comments: bool)
    requires
        0 <= i <= s.len() <= usize::MAX,
        0 <= depth <= MAX_DEPTH,
        skip_body(s, i) is Ok,
    ensures
        scan_run(in_string_at(i, depth), s, comments) == past(skip_body(s, i)->Ok_0, depth, s, comments),
    decreases s.len() - i,
{
    lemma_first_stop(s, i);
    let p = first_stop(s, i)->Some_0;
    lemma_scan_string_run(s, i, p, depth, comments);
    if s[p] == 0x22 {
        assert(skip_body(s, i) == Ok::<int, ErrorCode>(p + 1));
        assert(Scanner { pos: (p + 1) as usize, in_string: false, ..in_string_at(p, depth) } == clean(p + 1, depth));
    } else {
        assert(s[p] == 0x5c);
        assert(p + 2 <= s.len() && i < p + 2);
        lemma_scan_escape(in_string_at(p, depth), s, comments);
        assert(Scanner { pos: (p + 2) as usize, ..in_string_at(p, depth) } == in_string_at(p + 2, depth));
        lemma_scan_string_body(s, p + 2, depth, comments);
    }
}

/// A value the parser steps over starts inside the bytes.
proof fn lemma_value_start(s: Seq<u8>, i: int, d: nat, comments: bool)
    requires
        0 <= i <= s.len(),
        skip_value_spec(s, i, d, comments).0 is Ok,
    ensures
        ws_end(s, i, comments) < s.len(),
{
    lemma_ws_end(s, i, comments);
}

/// Members the parser steps over start inside the bytes.
proof fn lemma_members_start(s: Seq<u8>, k: int, d: nat, comments: bool)
    requires
        skip_members(s, k, d, comments).0 is Ok,
    ensures
        0 <= k < s.len(),
{
}

/// Elements the parser steps over start inside the bytes.
proof fn lemma_elements_start(s: Seq<u8>, k: int, d: nat, comments: bool)
    requires
        0 <= k <= s.len(),
        skip_elements(s, k, d, comments).0 is Ok,
    ensures
        ws_end(s, k, comments) < s.len(),
{
    lemma_value_start(s, k, d, comments);
}

/// A value the parser steps over from `i`, at a depth the scan shares, is
/// passed over by the scan: inside a container the scan goes on past it,
/// and at the top, where it must be a container or a string, the scan
/// reports its end.
proof fn lemma_scan_value(s: Seq<u8>, i: int, d: nat, comments: bool)
    requires
        0 <= i <= s.len() <= usize::MAX,
        d <= MAX_DEPTH,
        skip_value_spec(s, i, d, comments).0 is Ok,
        d == 0 ==> ({
            let j = ws_end(s, i, comments);
            j < s.len() && (s[j] == 0x7b || s[j] == 0x5b || s[j] == 0x22)
        }),
    ensures
        scan_run(clean(i, d as int), s, comments) == past(skip_value_spec(s, i, d, comments).1, d as int, s, comments),
    decreases s.len() - i, 1int,
{
    lemma_ws_end(s, i, comments);
    let j = ws_end(s, i, comments);
    let e = skip_value_spec(s, i, d, comments).1;
    assert(j < s.len());
    lemma_scan_ws(s, i, d as int, comments);
    if s[j] == 0x7b || s[j] == 0x5b {
        assert(d < MAX_DEPTH);
        lemma_ws_end(s, j + 1, comments);
        let k = ws_end(s, j + 1, comments);
        let close: u8 = if s[j] == 0x7b { 0x7du8 } else { 0x5du8 };
        assert(scan_run(clean(j, d as int), s, comments) == scan_run(clean(j + 1, d + 1int), s, comments));
        if 0 <= k < s.len() && s[k] == close {
            lemma_scan_ws(s, j + 1, d + 1int, comments);
            if d == 0 {
                assert(scan_run(clean(k, 1), s, comments) == (
                    Ok::<Option<usize>, ErrorCode>(Some((k + 1) as usize)),
                    clean(k + 1, 0),
                ));
            } else {
                assert(scan_run(clean(k, d + 1int), s, comments) == scan_run(clean(k + 1, d as int), s, comments));
            }
        } else {
            if s[j] == 0x7b {
                lemma_members_start(s, k, d + 1, comments);
            } else {
                lemma_elements_start(s, k, d + 1, comments);
                crate::json::parser::lemma_ws_end_idem(s, j + 1, comments);
            }
            lemma_scan_ws(s, j + 1, d + 1int, comments);
            if s[j] == 0x7b {
                lemma_scan_members(s, k, d + 1, comments);
            } else {
                lemma_scan_elements(s, k, d + 1, comments);
            }
        }
    } else if s[j] == 0x22 {
        assert(scan_run(clean(j, d as int), s, comments) == scan_run(in_string_at(j + 1, d as int), s, comments));
        lemma_scan_string_body(s, j + 1, d as int, comments);
    } else {
        assert(d >= 1);
        if s[j] == 0x74 || s[j] == 0x66 || s[j] == 0x6e {
            let n: int = if s[j] == 0x66 { 5 } else { 4 };
            assert forall|m: int| j <= m < j + n implies plain_byte(#[trigger] s[m]) by {
                if s[j] == 0x74 {
                    assert(s.subrange(j, j + 4)[m - j] == s[m]);
                } else if s[j] == 0x66 {
                    assert(s.subrange(j, j + 5)[m - j] == s[m]);
                } else {
                    assert(s.subrange(j, j + 4)[m - j] == s[m]);
                }
            }
            lemma_scan_plain_run(s, j, j + n, d as int, comments);
        } else {
            lemma_number_run_bytes(s, j);
            lemma_scan_plain_run(s, j, number_run_end(s, j), d as int, comments);
        }
    }
}

/// The members of an object the parser steps over, from where a key is
/// due, are passed over through the closing brace.
proof fn lemma_scan_members(s: Seq<u8>, k: int, d: nat, comments: bool)
    requires
        0 <= k <= s.len() <= usize::MAX,
        1 <= d <= MAX_DEPTH,
        skip_members(s, k, d, comments).0 is Ok,
    ensures
        scan_run(clean(k, d as int), s, comments) == past(skip_members(s, k, d, comments).1, d - 1, s, comments),
    decreases s.len() - k, 2int,
{
    let e1 = skip_body(s, k + 1)->Ok_0;
    assert(scan_run(clean(k, d as int), s, comments) == scan_run(in_string_at(k + 1, d as int), s, comments));
    lemma_scan_string_body(s, k + 1, d as int, comments);
    crate::json::parser::lemma_skip_body(s, k + 1);
    lemma_ws_end(s, e1, comments);
    let a = ws_end(s, e1, comments);
    lemma_scan_ws(s, e1, d as int, comments);
    assert(scan_run(clean(a, d as int), s, comments) == scan_run(clean(a + 1, d as int), s, comments));
    lemma_ws_end(s, a + 1, comments);
    let p = ws_end(s, a + 1, comments);
    assert(spec_colon(s, e1, comments) == (Ok::<(), ErrorCode>(()), p));
    assert(skip_value_spec(s, p, d, comments).0 is Ok);
    lemma_value_start(s, p, d, comments);
    crate::json::parser::lemma_ws_end_idem(s, a + 1, comments);
    lemma_scan_ws(s, a + 1, d as int, comments);
    lemma_scan_value(s, p, d, comments);
    let q = skip_value_spec(s, p, d, comments).1;
    crate::json::structure::lemma_value_progress(s, p, d, comments);
    lemma_ws_end(s, q, comments);
    let b = ws_end(s, q, comments);
    assert(b < s.len());
    lemma_scan_ws(s, q, d as int, comments);
    if s[b] == 0x2c {
        assert(scan_run(clean(b, d as int), s, comments) == scan_run(clean(b + 1, d as int), s, comments));
        lemma_ws_end(s, b + 1, comments);
        let t = ws_end(s, b + 1, comments);
        assert(skip_members(s, t, d, comments).0 is Ok);
        lemma_members_start(s, t, d, comments);
        lemma_scan_ws(s, b + 1, d as int, comments);
        lemma_scan_members(s, t, d, comments);
    } else {
        assert(s[b] == 0x7d);
        if d == 1 {
            assert(scan_run(clean(b, 1), s, comments) == (
                Ok::<Option<usize>, ErrorCode>(Some((b + 1) as usize)),
                clean(b + 1, 0),
            ));
        } else {
            assert(scan_run(clean(b, d as int), s, comments) == scan_run(clean(b + 1, d - 1), s, comments));
        }
    }
}

/// The elements of an array the parser steps over, from where an element
/// is due, are passed over through the closing bracket.
proof fn lemma_scan_elements(s: Seq<u8>, k: int, d: nat, comments: bool)
    requires
        0 <= k <= s.len() <= usize::MAX,
        1 <= d <= MAX_DEPTH,
        skip_elements(s, k, d, comments).0 is Ok,
    ensures
        scan_run(clean(k, d as int), s, comments) == past(skip_elements(s, k, d, comments).1, d - 1, s, comments),
    decreases s.len() - k, 2int,
{
    lemma_scan_value(s, k, d, comments);
    let q = skip_value_spec(s, k, d, comments).1;
    crate::json::structure::lemma_value_progress(s, k, d, comments);
    lemma_ws_end(s, q, comments);
    let b = ws_end(s, q, comments);
    assert(b < s.len());
    lemma_scan_ws(s, q, d as int, comments);
    if s[b] == 0x2c {
        assert(scan_run(clean(b, d as int), s, comments) == scan_run(clean(b + 1, d as int), s, comments));
        lemma_ws_end(s, b + 1, comments);
        let t = ws_end(s, b + 1, comments);
        assert(skip_elements(s, t, d, comments).0 is Ok);
        lemma_elements_start(s, t, d, comments);
        crate::json::parser::lemma_ws_end_idem(s, b + 1, comments);
        lemma_scan_ws(s, b + 1, d as int, comments);
        lemma_scan_elements(s, t, d, comments);
    } else {
        assert(s[b] == 0x5d);
        if d == 1 {
            assert(scan_run(clean(b, 1), s, comments) == (
                Ok::<Option<usize>, ErrorCode>(Some((b + 1) as usize)),
                clean(b + 1, 0),
            ));
        } else {
            assert(scan_run(clean(b, d as int), s, comments) == scan_run(clean(b + 1, d - 1), s, comments));
        }
    }
}

/// A fresh scan over any bytes that open with a container or a string
/// the parser steps over whole, whatever follows, finds exactly that
/// value: it ends where the grammar ends it, with strings holding escaped
/// quotes and objects and arrays holding any number of members.
pub proof fn lemma_scan_finds_value_end(s: Seq<u8>, comments: bool)
    requires
        s.len() <= usize::MAX,
        skip_value_spec(s, 0, 0, comments).0 is Ok,
        ws_end(s, 0, comments) < s.len(),
        s[ws_end(s, 0, comments)] == 0x7b || s[ws_end(s, 0, comments)] == 0x5b || s[ws_end(s, 0, comments)] == 0x22,
    ensures
        scan_run(Scanner::new_spec(), s, comments).0 == Ok::<Option<usize>, ErrorCode>(
            Some(skip_value_spec(s, 0, 0, comments).1 as usize),
        ),
{
    assert(Scanner::new_spec() == clean(0, 0));
    lemma_scan_value(s, 0, 0, comments);
}

/// What the layout reads as one value at the start of the bytes, a
/// container or a string, a fresh scan finds as exactly that value,
/// whatever follows it.
pub proof fn lemma_scan_finds_laid_value(s: Seq<u8>, comments: bool, st: Settings)
    requires
        s.len() <= usize::MAX,
        0 < s.len(),
        s[0] == 0x7b || s[0] == 0x5b || s[0] == 0x22,
        lay_value(s, 0, 0, 0, comments, st).0 is Ok,
    ensures
        scan_run(Scanner::new_spec(), s, comments).0 == Ok::<Option<usize>, ErrorCode>(
            Some(lay_value(s, 0, 0, 0, comments, st).1 as usize),
        ),
{
    lemma_skip_steps_over_one_value(s, 0, 0, comments, st);
    assert(ws_end(s, 0, comments) == 0);
    lemma_scan_finds_value_end(s, comments);
}

} // verus!

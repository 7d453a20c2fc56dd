//! Finding one JSON value's bytes in a partially arrived stream.
//!
//! A scan that can stop anywhere, including in the middle of a value, and
//! pick up where it left off when more bytes turn up. It never parses: it
//! only answers where the next item ends, and hands that span to the
//! ordinary parser, so a streamed document and a slurped one go down the
//! same code path.
use vstd::prelude::*;
use crate::error::ErrorCode;
use crate::json::parser::{comment_end, lemma_comment_end, is_ws, scalar_byte, skip_comment, spec_is_ws, spec_scalar_byte, MAX_DEPTH};
use crate::swar::{find_byte, first_byte_from, lemma_first_byte_from};

verus! {

/// How a byte stream is divided into JSON values.
#[derive(Clone, Copy, Debug, PartialEq, Eq, Structural)]
pub enum Mode {
    /// Whole JSON values, one after another, separated by optional
    /// whitespace.
    Values,
    /// Newline-delimited JSON: one value per line, blank lines ignored.
    Lines,
    /// The elements of one top-level array.
    Array,
}

/// How far into a comment a scan has got.
#[derive(Clone, Copy, Debug, PartialEq, Eq, Structural)]
pub enum Comment {
    /// Not in one.
    No,
    /// Inside `//`, which the next newline ends.
    Line,
    /// Inside `/* */`.
    Block,
    /// Inside `/* */`, and the byte just read was a `*` that may close it.
    BlockStar,
}

/// Stepping through a comment from `i`: the state and the position where it
/// ended, or the state it is still in at the end of the bytes. A line
/// comment leaves its newline unread.
pub open spec fn comment_run(cm: Comment, s: Seq<u8>, i: int) -> (Comment, int)
    decreases s.len() - i,
{
    if cm == Comment::No || i < 0 || i >= s.len() {
        (cm, i)
    } else if cm == Comment::Line {
        if s[i] == 0x0a {
            (Comment::No, i)
        } else {
            comment_run(Comment::Line, s, i + 1)
        }
    } else {
        comment_run(block_after(cm, s[i]), s, i + 1)
    }
}

/// The block-comment state after one more byte.
pub open spec fn block_after(cm: Comment, b: u8) -> Comment {
    if cm == Comment::BlockStar && b == 0x2f {
        Comment::No
    } else if b == 0x2a {
        Comment::BlockStar
    } else {
        Comment::Block
    }
}

pub proof fn lemma_comment_run(cm: Comment, s: Seq<u8>, i: int)
    requires
        0 <= i <= s.len(),
    ensures
        i <= comment_run(cm, s, i).1 <= s.len(),
        comment_run(cm, s, i).0 != Comment::No ==> comment_run(cm, s, i).1 == s.len(),
        cm == Comment::No ==> comment_run(cm, s, i) == (cm, i),
        (cm != Comment::No && cm != Comment::Line && comment_run(cm, s, i).0 == Comment::No) ==> comment_run(cm, s, i).1 > i,
    decreases s.len() - i,
{
    if cm != Comment::No && i < s.len() {
        if cm == Comment::Line {
            if s[i] != 0x0a {
                lemma_comment_run(Comment::Line, s, i + 1);
            }
        } else {
            lemma_comment_run(block_after(cm, s[i]), s, i + 1);
        }
    }
}

impl Comment {
    /// Which comment the `/` at `at` opens: `None` when what follows is not
    /// a comment, and also when the bytes stop on the `/`.
    pub fn begin(buf: &[u8], at: usize) -> (r: Option<Comment>)
        ensures
            r == (if at + 1 < buf@.len() && buf@[at + 1] == 0x2f {
                Some(Comment::Line)
            } else if at + 1 < buf@.len() && buf@[at + 1] == 0x2a {
                Some(Comment::Block)
            } else {
                None::<Comment>
            }),
    {
        if at >= buf.len() || buf.len() - at <= 1 {
            return None;
        }
        let c = buf[at + 1];
        if c == 0x2fu8 {
            Some(Comment::Line)
        } else if c == 0x2au8 {
            Some(Comment::Block)
        } else {
            None
        }
    }

    /// Step from `i` to just past the end of the comment this is inside;
    /// `None` when the bytes run out with it still open, the state then
    /// holding what the next bytes need.
    pub fn step(&mut self, buf: &[u8], i: usize) -> (r: Option<usize>)
        requires
            i <= buf@.len(),
        ensures
            *final(self) == comment_run(*old(self), buf@, i as int).0,
            r == (if comment_run(*old(self), buf@, i as int).0 == Comment::No {
                Some(comment_run(*old(self), buf@, i as int).1 as usize)
            } else {
                None::<usize>
            }),
    {
        proof {
            lemma_comment_run(*self, buf@, i as int);
        }
        match *self {
            Comment::No => Some(i),
            Comment::Line => {
                proof {
                    lemma_line_run(buf@, i as int);
                }
                match find_byte(buf, i, 0x0au8) {
                    Some(end) => {
                        *self = Comment::No;
                        Some(end)
                    },
                    None => None,
                }
            },
            _ => {
                let mut k = i;
                while k < buf.len()
                    invariant
                        i <= k <= buf@.len(),
                        *self != Comment::No,
                        *self != Comment::Line,
                        comment_run(*old(self), buf@, i as int) == comment_run(*self, buf@, k as int),
                    decreases buf@.len() - k,
                {
                    let c = buf[k];
                    let ghost st = *self;
                    k += 1;
                    if *self == Comment::BlockStar && c == 0x2fu8 {
                        *self = Comment::No;
                        proof {
                            assert(comment_run(st, buf@, k - 1) == comment_run(Comment::No, buf@, k as int));
                        }
                        return Some(k);
                    }
                    *self = if c == 0x2au8 { Comment::BlockStar } else { Comment::Block };
                }
                None
            },
        }
    }
}

proof fn lemma_line_run(s: Seq<u8>, i: int)
    requires
        0 <= i <= s.len(),
    ensures
        comment_run(Comment::Line, s, i) == (match first_byte_from(s, i, 0x0a) {
            Some(k) => (Comment::No, k),
            None => (Comment::Line, s.len() as int),
        }),
    decreases s.len() - i,
{
    if i < s.len() && s[i] != 0x0a {
        lemma_line_run(s, i + 1);
    }
}

/// A resumable structural scan over one JSON value.
///
/// Only nesting and strings can hide the byte that ends a value, so depth
/// and "inside a string" are the whole state, and both survive being
/// interrupted at any byte; a comment joins them under a policy that reads
/// comments.
#[derive(Clone, Copy, Debug, PartialEq, Eq, Structural)]
pub struct Scanner {
    /// Where the next [`Scanner::advance`] resumes.
    pub pos: usize,
    pub depth: u32,
    pub in_string: bool,
    /// The previous byte was a backslash inside a string.
    pub escaped: bool,
    /// A bare top-level scalar is open, and ends at the first byte that
    /// cannot continue it.
    pub scalar: bool,
    /// The comment this scan is inside, if any.
    pub comment: Comment,
}

/// What one byte does to a scan.
pub enum ScanStep {
    /// The scan goes on from this state.
    Next(Scanner),
    /// A value ended; the state's position is its end.
    Found(Scanner),
    /// The bytes are not JSON; the state's position is where.
    Failed(Scanner, ErrorCode),
    /// The bytes stop on a `/` that may open a comment: more are needed.
    Stall(Scanner),
}

/// The scan's step at its position, which is inside the bytes.
pub open spec fn scan_step(sc: Scanner, s: Seq<u8>, comments: bool) -> ScanStep {
    let i = sc.pos as int;
    let c = s[i];
    if sc.comment != Comment::No {
        if sc.comment == Comment::Line {
            if c == 0x0a {
                ScanStep::Next(Scanner { comment: Comment::No, ..sc })
            } else {
                ScanStep::Next(Scanner { pos: (i + 1) as usize, ..sc })
            }
        } else {
            ScanStep::Next(Scanner { pos: (i + 1) as usize, comment: block_after(sc.comment, c), ..sc })
        }
    } else if sc.in_string {
        if sc.escaped {
            ScanStep::Next(Scanner { pos: (i + 1) as usize, escaped: false, ..sc })
        } else if c == 0x5c {
            ScanStep::Next(Scanner { pos: (i + 1) as usize, escaped: true, ..sc })
        } else if c == 0x22 {
            if sc.depth == 0 {
                ScanStep::Found(Scanner { pos: (i + 1) as usize, in_string: false, ..sc })
            } else {
                ScanStep::Next(Scanner { pos: (i + 1) as usize, in_string: false, ..sc })
            }
        } else {
            ScanStep::Next(Scanner { pos: (i + 1) as usize, ..sc })
        }
    } else if sc.scalar {
        if spec_scalar_byte(c) {
            ScanStep::Next(Scanner { pos: (i + 1) as usize, ..sc })
        } else {
            ScanStep::Found(Scanner { scalar: false, ..sc })
        }
    } else if comments && c == 0x2f && i + 1 >= s.len() {
        ScanStep::Stall(sc)
    } else if comments && c == 0x2f && (s[i + 1] == 0x2f || s[i + 1] == 0x2a) {
        ScanStep::Next(
            Scanner {
                pos: (i + 2) as usize,
                comment: if s[i + 1] == 0x2f { Comment::Line } else { Comment::Block },
                ..sc
            },
        )
    } else if spec_is_ws(c) {
        ScanStep::Next(Scanner { pos: (i + 1) as usize, ..sc })
    } else if c == 0x22 {
        ScanStep::Next(Scanner { pos: (i + 1) as usize, in_string: true, ..sc })
    } else if c == 0x7b || c == 0x5b {
        if sc.depth + 1 > MAX_DEPTH {
            ScanStep::Failed(Scanner { depth: (sc.depth + 1) as u32, ..sc }, ErrorCode::ExceededMaxDepth)
        } else {
            ScanStep::Next(Scanner { pos: (i + 1) as usize, depth: (sc.depth + 1) as u32, ..sc })
        }
    } else if c == 0x7d || c == 0x5d {
        if sc.depth == 0 {
            ScanStep::Failed(sc, ErrorCode::UnexpectedCharacter)
        } else if sc.depth == 1 {
            ScanStep::Found(Scanner { pos: (i + 1) as usize, depth: 0, ..sc })
        } else {
            ScanStep::Next(Scanner { pos: (i + 1) as usize, depth: (sc.depth - 1) as u32, ..sc })
        }
    } else if sc.depth == 0 {
        if !spec_scalar_byte(c) {
            ScanStep::Failed(sc, ErrorCode::UnexpectedCharacter)
        } else {
            ScanStep::Next(Scanner { pos: (i + 1) as usize, scalar: true, ..sc })
        }
    } else {
        ScanStep::Next(Scanner { pos: (i + 1) as usize, ..sc })
    }
}

/// What decreases as a scan goes on.
pub open spec fn scan_measure(sc: Scanner, s: Seq<u8>) -> int {
    2 * (s.len() - sc.pos) + if sc.comment == Comment::Line { 1int } else { 0int }
}

/// A scan run from its position to the end of the bytes: the value's end
/// once one is found, `None` when more bytes are needed, or the failure;
/// and the state it stops in.
pub open spec fn scan_run(sc: Scanner, s: Seq<u8>, comments: bool) -> (Result<Option<usize>, ErrorCode>, Scanner)
    decreases scan_measure(sc, s),
{
    if sc.pos >= s.len() {
        (Ok(None), sc)
    } else {
        match scan_step(sc, s, comments) {
            ScanStep::Next(next) => if scan_measure(next, s) < scan_measure(sc, s) && next.pos <= s.len() {
                scan_run(next, s, comments)
            } else {
                (Ok(None), next)
            },
            ScanStep::Found(end) => (Ok(Some(end.pos)), end),
            ScanStep::Failed(at, e) => (Err(e), at),
            ScanStep::Stall(at) => (Ok(None), at),
        }
    }
}

/// The state every scan keeps: a depth within the limit, a position within
/// the bytes, and the flags that only make sense together.
pub open spec fn scanner_ok(sc: Scanner) -> bool {
    &&& sc.depth <= MAX_DEPTH
    &&& (sc.escaped ==> sc.in_string)
    &&& (sc.scalar ==> sc.depth == 0 && !sc.in_string)
    &&& (sc.in_string ==> sc.comment == Comment::No)
}

/// Every step that goes on makes progress and stays inside the bytes.
pub proof fn lemma_step_progress(sc: Scanner, s: Seq<u8>, comments: bool)
    requires
        sc.pos < s.len(),
        s.len() <= usize::MAX,
        scanner_ok(sc),
    ensures
        match scan_step(sc, s, comments) {
            ScanStep::Next(next) => scan_measure(next, s) < scan_measure(sc, s) && next.pos <= s.len() && scanner_ok(next),
            ScanStep::Found(end) => end.pos <= s.len() && scanner_ok(end),
            ScanStep::Failed(at, _) => at.pos <= s.len(),
            ScanStep::Stall(at) => at == sc,
        },
{
}

/// Running a scan through the comment it is inside lands where the comment
/// ends, or stops at the end of the bytes with the comment still open.
pub proof fn lemma_scan_comment(sc: Scanner, s: Seq<u8>, comments: bool)
    requires
        sc.comment != Comment::No,
        sc.pos <= s.len(),
        s.len() <= usize::MAX,
        scanner_ok(sc),
    ensures
        ({
            let (cm, j) = comment_run(sc.comment, s, sc.pos as int);
            if cm == Comment::No {
                scan_run(sc, s, comments) == scan_run(Scanner { pos: j as usize, comment: Comment::No, ..sc }, s, comments)
            } else {
                scan_run(sc, s, comments) == (Ok::<Option<usize>, ErrorCode>(None), Scanner { pos: s.len() as usize, comment: cm, ..sc })
            }
        }),
    decreases s.len() - sc.pos,
{
    let i = sc.pos as int;
    if i < s.len() {
        lemma_step_progress(sc, s, comments);
        if sc.comment == Comment::Line {
            if s[i] != 0x0a {
                let next = Scanner { pos: (i + 1) as usize, ..sc };
                assert(scan_step(sc, s, comments) == ScanStep::Next(next));
                assert(scan_run(sc, s, comments) == scan_run(next, s, comments));
                assert(comment_run(Comment::Line, s, i) == comment_run(Comment::Line, s, i + 1));
                lemma_scan_comment(next, s, comments);
            } else {
                let next = Scanner { comment: Comment::No, ..sc };
                assert(scan_step(sc, s, comments) == ScanStep::Next(next));
                assert(scan_run(sc, s, comments) == scan_run(next, s, comments));
                assert(comment_run(Comment::Line, s, i) == (Comment::No, i));
                assert(next == Scanner { pos: i as usize, comment: Comment::No, ..sc });
            }
        } else {
            let next = Scanner { pos: (i + 1) as usize, comment: block_after(sc.comment, s[i]), ..sc };
            assert(scan_step(sc, s, comments) == ScanStep::Next(next));
            assert(scan_run(sc, s, comments) == scan_run(next, s, comments));
            assert(comment_run(sc.comment, s, i) == comment_run(block_after(sc.comment, s[i]), s, i + 1));
            if block_after(sc.comment, s[i]) != Comment::No {
                lemma_scan_comment(next, s, comments);
            }
        }
    } else {
        assert(Scanner { pos: s.len() as usize, comment: sc.comment, ..sc } == sc);
    }
}

impl Scanner {
    /// A scan at the start of the bytes, outside everything.
    pub open spec fn new_spec() -> Scanner {
        Scanner { pos: 0, depth: 0, in_string: false, escaped: false, scalar: false, comment: Comment::No }
    }

    pub fn new() -> (sc: Scanner)
        ensures
            sc == Scanner::new_spec(),
    {
        Scanner { pos: 0, depth: 0, in_string: false, escaped: false, scalar: false, comment: Comment::No }
    }

    /// Begin a fresh value at `at`.
    pub fn restart(&mut self, at: usize)
        ensures
            *final(self) == (Scanner { pos: at, depth: 0, in_string: false, escaped: false, scalar: false, comment: Comment::No }),
    {
        *self = Scanner { pos: at, depth: 0, in_string: false, escaped: false, scalar: false, comment: Comment::No };
    }

    /// Scan from where the last call stopped to the end of `buf`: the end of
    /// the value once one is complete, `None` while it is still open, or
    /// the reason the bytes are not JSON.
    pub fn advance(&mut self, buf: &[u8], comments: bool) -> (r: Result<Option<usize>, ErrorCode>)
        requires
            old(self).pos <= buf@.len(),
            scanner_ok(*old(self)),
        ensures
            (r, *final(self)) == scan_run(*old(self), buf@, comments),
            r is Ok ==> scanner_ok(*final(self)),
            r matches Ok(Some(e)) ==> e == final(self).pos,
            final(self).pos <= buf@.len(),
            old(self).pos <= final(self).pos,
    {
        let n = buf.len();
        while self.pos < n
            invariant
                old(self).pos <= self.pos <= n,
                n == buf@.len(),
                scanner_ok(*self),
                scan_run(*old(self), buf@, comments) == scan_run(*self, buf@, comments),
            decreases scan_measure(*self, buf@),
        {
            let i = self.pos;
            let ghost before = *self;
            proof {
                lemma_step_progress(*self, buf@, comments);
            }
            if self.comment != Comment::No {
                proof {
                    lemma_scan_comment(*self, buf@, comments);
                    lemma_comment_run(self.comment, buf@, i as int);
                }
                let mut cm = self.comment;
                match cm.step(buf, i) {
                    Some(next) => {
                        self.comment = cm;
                        self.pos = next;
                    },
                    None => {
                        self.comment = cm;
                        self.pos = n;
                    },
                }
            } else if self.in_string {
                if self.escaped {
                    self.escaped = false;
                    self.pos = i + 1;
                } else {
                    let c = buf[i];
                    if c == 0x5cu8 {
                        self.escaped = true;
                        self.pos = i + 1;
                    } else if c == 0x22u8 {
                        self.in_string = false;
                        self.pos = i + 1;
                        if self.depth == 0 {
                            return Ok(Some(i + 1));
                        }
                    } else {
                        self.pos = i + 1;
                    }
                }
            } else {
                let c = buf[i];
                if self.scalar {
                    if scalar_byte(c) {
                        self.pos = i + 1;
                    } else {
                        self.scalar = false;
                        return Ok(Some(i));
                    }
                } else {
                    // A comment can hold anything, braces and quotes
                    // included, so it is stepped over rather than scanned
                    // through. A `/` the bytes stop on is left unconsumed,
                    // so the bytes that decide it resume here.
                    let opener = if comments && c == 0x2fu8 { Comment::begin(buf, i) } else { None };
                    if comments && c == 0x2fu8 && i + 1 >= n {
                        return Ok(None);
                    }
                    match opener {
                        Some(kind) => {
                            self.comment = kind;
                            self.pos = i + 2;
                        },
                        None => {
                            if is_ws(c) {
                                self.pos = i + 1;
                            } else if c == 0x22u8 {
                                self.in_string = true;
                                self.pos = i + 1;
                            } else if c == 0x7bu8 || c == 0x5bu8 {
                                self.depth = self.depth + 1;
                                if self.depth > MAX_DEPTH {
                                    return Err(ErrorCode::ExceededMaxDepth);
                                }
                                self.pos = i + 1;
                            } else if c == 0x7du8 || c == 0x5du8 {
                                if self.depth == 0 {
                                    return Err(ErrorCode::UnexpectedCharacter);
                                }
                                self.depth = self.depth - 1;
                                self.pos = i + 1;
                                if self.depth == 0 {
                                    return Ok(Some(i + 1));
                                }
                            } else if self.depth == 0 {
                                if !scalar_byte(c) {
                                    return Err(ErrorCode::UnexpectedCharacter);
                                }
                                self.scalar = true;
                                self.pos = i + 1;
                            } else {
                                self.pos = i + 1;
                            }
                        },
                    }
                }
            }
        }
        Ok(None)
    }

    /// No more bytes are coming: a bare scalar, the one value that ends at
    /// the end of the input rather than at a byte of its own, completes
    /// here where `standalone` allows it; anything else still open was cut
    /// short.
    pub fn at_eof(&mut self, standalone: bool) -> (r: Result<usize, ErrorCode>)
        ensures
            r == (if old(self).scalar && standalone { Ok(old(self).pos) } else { Err(ErrorCode::UnexpectedEnd) }),
            *final(self) == (if old(self).scalar && standalone { Scanner { scalar: false, ..*old(self) } } else { *old(self) }),
    {
        if self.scalar && standalone {
            self.scalar = false;
            return Ok(self.pos);
        }
        Err(ErrorCode::UnexpectedEnd)
    }
}

/// A scan that runs out of bytes resumes, once more have arrived, exactly
/// as if it had been given them all at once: what it found in the longer
/// bytes from the start is what it finds from where it stopped.
pub proof fn lemma_scan_resumes(sc: Scanner, s: Seq<u8>, t: Seq<u8>, comments: bool)
    requires
        s.len() <= t.len(),
        t.len() <= usize::MAX,
        s == t.subrange(0, s.len() as int),
        sc.pos <= s.len(),
        scanner_ok(sc),
        scan_run(sc, s, comments).0 == Ok::<Option<usize>, ErrorCode>(None),
    ensures
        scan_run(sc, t, comments) == scan_run(scan_run(sc, s, comments).1, t, comments),
    decreases scan_measure(sc, s),
{
    let i = sc.pos as int;
    if i < s.len() {
        lemma_step_progress(sc, s, comments);
        lemma_step_progress(sc, t, comments);
        assert(s[i] == t[i]);
        if i + 1 < s.len() {
            assert(s[i + 1] == t[i + 1]);
        }
        match scan_step(sc, s, comments) {
            ScanStep::Next(next) => {
                assert(scan_step(sc, t, comments) == ScanStep::Next(next));
                lemma_scan_resumes(next, s, t, comments);
            },
            _ => {},
        }
    }
}

/// What the framer could determine from the bytes it has.
#[derive(Clone, Copy, Debug, PartialEq, Eq, Structural)]
pub enum Split {
    /// A complete item occupies `start..end` of the bytes.
    Item { start: usize, end: usize },
    /// Not enough bytes yet; more input may produce an item.
    Need,
    /// The stream is finished; there are no more items.
    End,
}

/// Where the array driver is between elements.
#[derive(Clone, Copy, Debug, PartialEq, Eq, Structural)]
pub enum State {
    /// Looking for the opening `[`.
    BeforeOpen,
    /// Looking for the first element, or the `]` of an empty array.
    FirstItem,
    /// Looking for the start of a value; in an array only after a comma.
    BeforeItem,
    /// Scanning an element.
    InItem,
    /// Looking for the `,` or `]` that follows an element.
    AfterItem,
    /// The stream is over; only trailing whitespace may remain.
    Done,
}

/// Divides a growing byte buffer into JSON values.
#[derive(Clone, Copy, Debug)]
pub struct Splitter {
    pub mode: Mode,
    pub scan: Scanner,
    pub state: State,
    /// First byte not yet accounted for; everything below it is dead.
    pub cursor: usize,
    /// How far [`Mode::Lines`] has searched for a newline.
    pub probe: usize,
    /// Whether comments count as whitespace.
    pub comments: bool,
    /// The comment the space between values is inside, if any.
    pub comment: Comment,
}

/// Skipping the space between values from `i`, with `c0` the cursor before
/// the skip: what follows it (`None` when the bytes ran out), the comment
/// state, and where the cursor lands. A block comment still open at the
/// end of the input is the input stopping inside one, and leaves the
/// cursor where it was.
pub open spec fn ws_run(cm: Comment, s: Seq<u8>, i: int, c0: int, comments: bool, eof: bool) -> (
    Result<Option<u8>, ErrorCode>,
    Comment,
    int,
)
    decreases s.len() - i, if cm == Comment::No { 0int } else { 1int },
{
    if i < 0 || i > s.len() {
        (Ok(None), cm, i)
    } else if cm != Comment::No {
        let (cm2, j) = comment_run(cm, s, i);
        if cm2 == Comment::No {
            if i <= j <= s.len() && (j > i || cm == Comment::Line) {
                ws_run(Comment::No, s, j, c0, comments, eof)
            } else {
                (Ok(None), cm2, j)
            }
        } else if eof && cm2 != Comment::Line {
            (Err(ErrorCode::UnexpectedEnd), cm2, c0)
        } else {
            (Ok(None), cm2, s.len() as int)
        }
    } else if i < s.len() && spec_is_ws(s[i]) {
        ws_run(Comment::No, s, i + 1, c0, comments, eof)
    } else if i < s.len() && s[i] == 0x2f && comments {
        if i + 1 < s.len() && (s[i + 1] == 0x2f || s[i + 1] == 0x2a) {
            ws_run(if s[i + 1] == 0x2f { Comment::Line } else { Comment::Block }, s, i + 2, c0, comments, eof)
        } else if !eof && i + 1 >= s.len() {
            (Ok(None), Comment::No, i)
        } else {
            (Ok(Some(s[i])), Comment::No, i)
        }
    } else {
        (Ok(if i < s.len() { Some(s[i]) } else { None }), Comment::No, i)
    }
}

proof fn lemma_ws_run(cm: Comment, s: Seq<u8>, i: int, c0: int, comments: bool, eof: bool)
    requires
        0 <= i <= s.len(),
        0 <= c0 <= i,
    ensures
        ws_run(cm, s, i, c0, comments, eof).0 is Ok ==> i <= ws_run(cm, s, i, c0, comments, eof).2 <= s.len(),
        ws_run(cm, s, i, c0, comments, eof).0 is Err ==> ws_run(cm, s, i, c0, comments, eof).2 == c0,
        ws_run(cm, s, i, c0, comments, eof).0 matches Ok(Some(b)) ==> ws_run(cm, s, i, c0, comments, eof).2 < s.len()
            && s[ws_run(cm, s, i, c0, comments, eof).2] == b && ws_run(cm, s, i, c0, comments, eof).1 == Comment::No,
    decreases s.len() - i, if cm == Comment::No { 0int } else { 1int },
{
    if cm != Comment::No {
        lemma_comment_run(cm, s, i);
        let (cm2, j) = comment_run(cm, s, i);
        if cm2 == Comment::No && i <= j <= s.len() && (j > i || cm == Comment::Line) {
            lemma_ws_run(Comment::No, s, j, c0, comments, eof);
        }
    } else if i < s.len() && spec_is_ws(s[i]) {
        lemma_ws_run(Comment::No, s, i + 1, c0, comments, eof);
    } else if i < s.len() && s[i] == 0x2f && comments && i + 1 < s.len() && (s[i + 1] == 0x2f || s[i + 1] == 0x2a) {
        lemma_ws_run(if s[i + 1] == 0x2f { Comment::Line } else { Comment::Block }, s, i + 2, c0, comments, eof);
    }
}

/// The first index in `a..b` that is not whitespace, or `b`.
pub open spec fn trim_start(s: Seq<u8>, a: int, b: int) -> int
    decreases b - a,
{
    if a < b && spec_is_ws(s[a]) {
        trim_start(s, a + 1, b)
    } else {
        a
    }
}

/// One past the last index in `a..b` that is not whitespace, or `a`.
pub open spec fn trim_end(s: Seq<u8>, a: int, b: int) -> int
    decreases b - a,
{
    if b > a && spec_is_ws(s[b - 1]) {
        trim_end(s, a, b - 1)
    } else {
        b
    }
}

/// Whether the line `i..end` holds anything but whitespace and, under a
/// policy that reads them, comments that close within it.
pub open spec fn line_value(s: Seq<u8>, i: int, end: int, comments: bool) -> bool
    decreases end - i,
{
    if i >= end {
        false
    } else if spec_is_ws(s[i]) {
        line_value(s, i + 1, end, comments)
    } else if s[i] == 0x2f && comments {
        match comment_end(s.subrange(0, end), i) {
            Some(next) => if i < next <= end {
                line_value(s, next, end, comments)
            } else {
                true
            },
            None => true,
        }
    } else {
        true
    }
}

/// Narrow `buf[start..end]` to its non-whitespace core.
pub fn trim_ws(buf: &[u8], start: usize, end: usize) -> (r: (usize, usize))
    requires
        start <= end <= buf@.len(),
    ensures
        r.0 == trim_start(buf@, start as int, end as int),
        r.1 == trim_end(buf@, r.0 as int, end as int),
        start <= r.0 <= r.1 <= end,
{
    let ghost a0 = start;
    let mut start = start;
    let mut end = end;
    while start < end && is_ws(buf[start])
        invariant
            a0 <= start <= end,
            end <= buf@.len(),
            trim_start(buf@, start as int, end as int) == trim_start(buf@, a0 as int, end as int),
        decreases end - start,
    {
        start += 1;
    }
    let ghost s0 = start;
    let ghost e0 = end;
    while end > start && is_ws(buf[end - 1])
        invariant
            s0 == start,
            start <= end <= e0,
            e0 <= buf@.len(),
            trim_end(buf@, start as int, end as int) == trim_end(buf@, start as int, e0 as int),
        decreases end - start,
    {
        end -= 1;
    }
    (start, end)
}

/// Does this line hold a value, or only whitespace and comments?
///
/// `start` and `end` come from [`trim_ws`], so with comments off this is
/// just whether the line is empty. A comment left open is not one this line
/// completes, and counts as content for the parser to refuse.
pub fn line_has_value(buf: &[u8], start: usize, end: usize, comments: bool) -> (r: bool)
    requires
        start <= end <= buf@.len(),
    ensures
        r == (if comments { line_value(buf@, start as int, end as int, true) } else { start != end }),
{
    if !comments {
        return start != end;
    }
    let line = &buf[0..end];
    let mut i = start;
    while i < end
        invariant
            line@ == buf@.subrange(0, end as int),
            start <= i <= end,
            end <= buf@.len(),
            line_value(buf@, start as int, end as int, true) == line_value(buf@, i as int, end as int, true),
        decreases end - i,
    {
        let c = line[i];
        if is_ws(c) {
            i += 1;
        } else if c == 0x2fu8 {
            proof {
                lemma_comment_end(line@, i as int);
            }
            match skip_comment(line, i) {
                Some(next) => {
                    i = next;
                },
                None => {
                    return true;
                },
            }
        } else {
            return true;
        }
    }
    false
}

/// The next item of a newline-delimited stream from `cursor`, with where
/// the cursor and the newline search land.
pub open spec fn line_run(cursor: int, probe: int, s: Seq<u8>, comments: bool, eof: bool) -> (
    Result<Split, ErrorCode>,
    int,
    int,
)
    decreases s.len() - cursor,
{
    let from = if probe > cursor { probe } else { cursor };
    let line_end = match first_byte_from(s, from, 0x0a) {
        Some(p) => p,
        None => s.len() as int,
    };
    let next = match first_byte_from(s, from, 0x0a) {
        Some(p) => p + 1,
        None => s.len() as int,
    };
    if first_byte_from(s, from, 0x0a) is None && !eof {
        (Ok(Split::Need), cursor, s.len() as int)
    } else {
        let start = trim_start(s, cursor, line_end);
        let end = trim_end(s, start, line_end);
        let has = if comments { line_value(s, start, end, true) } else { start != end };
        if has {
            (Ok(Split::Item { start: start as usize, end: end as usize }), next, next)
        } else if eof && next >= s.len() {
            (Ok(Split::End), next, next)
        } else if cursor < next <= s.len() {
            line_run(next, next, s, comments, eof)
        } else {
            (Ok(Split::Need), next, next)
        }
    }
}

proof fn lemma_trim(s: Seq<u8>, a: int, b: int)
    requires
        0 <= a <= b <= s.len(),
    ensures
        a <= trim_start(s, a, b) <= b,
        trim_start(s, a, b) <= trim_end(s, trim_start(s, a, b), b) <= b,
    decreases b - a,
{
    if a < b && spec_is_ws(s[a]) {
        lemma_trim(s, a + 1, b);
    } else {
        lemma_trim_end(s, a, b);
    }
}

proof fn lemma_trim_end(s: Seq<u8>, a: int, b: int)
    requires
        0 <= a <= b <= s.len(),
    ensures
        a <= trim_end(s, a, b) <= b,
    decreases b - a,
{
    if b > a && spec_is_ws(s[b - 1]) {
        lemma_trim_end(s, a, b - 1);
    }
}

/// A splitter for `mode` at the start of a stream.
pub open spec fn fresh_splitter(mode: Mode) -> Splitter {
    Splitter {
        mode,
        scan: Scanner::new_spec(),
        state: if mode == Mode::Array { State::BeforeOpen } else { State::BeforeItem },
        cursor: 0,
        probe: 0,
        comments: false,
        comment: Comment::No,
    }
}

impl Splitter {
    /// A splitter for `mode`, at the start of a stream.
    pub fn new(mode: Mode) -> (sp: Splitter)
        ensures
            sp == fresh_splitter(mode),
    {
        Splitter {
            mode,
            scan: Scanner::new(),
            state: if mode == Mode::Array { State::BeforeOpen } else { State::BeforeItem },
            cursor: 0,
            probe: 0,
            comments: false,
            comment: Comment::No,
        }
    }

    /// Read comments, or do not. Setting it drops the comment a scan was
    /// inside, there being no coherent way to carry one across a change in
    /// whether comments are read at all.
    pub fn set_comments(&mut self, on: bool)
        ensures
            *final(self) == (Splitter {
                comments: on,
                comment: Comment::No,
                scan: Scanner { comment: Comment::No, ..old(self).scan },
                ..*old(self)
            }),
    {
        self.comments = on;
        self.comment = Comment::No;
        self.scan.comment = Comment::No;
    }

    /// Advance the cursor past whitespace, and past comments where the
    /// policy reads them, returning the byte it lands on; `None` when the
    /// bytes ran out, which is only conclusive at the end of the input.
    fn skip_ws(&mut self, buf: &[u8], eof: bool) -> (r: Result<Option<u8>, ErrorCode>)
        requires
            old(self).cursor <= buf@.len(),
        ensures
            ({
                let (res, cm, cur) = ws_run(
                    old(self).comment,
                    buf@,
                    old(self).cursor as int,
                    old(self).cursor as int,
                    old(self).comments,
                    eof,
                );
                &&& r == res
                &&& *final(self) == (Splitter { comment: cm, cursor: cur as usize, ..*old(self) })
            }),
            final(self).cursor <= buf@.len(),
    {
        let ghost c0 = self.cursor as int;
        let n = buf.len();
        let mut i = self.cursor;
        proof {
            lemma_ws_run(self.comment, buf@, c0, c0, self.comments, eof);
        }
        loop
            invariant
                n == buf@.len(),
                c0 <= i <= n,
                c0 == old(self).cursor,
                self.cursor == c0,
                self.mode == old(self).mode,
                self.scan == old(self).scan,
                self.state == old(self).state,
                self.probe == old(self).probe,
                self.comments == old(self).comments,
                ws_run(old(self).comment, buf@, c0, c0, self.comments, eof) == ws_run(self.comment, buf@, i as int, c0, self.comments, eof),
            decreases n - i, if self.comment == Comment::No { 0int } else { 1int },
        {
            if self.comment != Comment::No {
                proof {
                    lemma_comment_run(self.comment, buf@, i as int);
                }
                let mut cm = self.comment;
                match cm.step(buf, i) {
                    Some(next) => {
                        self.comment = cm;
                        i = next;
                    },
                    None => {
                        self.comment = cm;
                        // A line comment is ended by the end of input as
                        // readily as by a newline; a block one is not.
                        if eof && self.comment != Comment::Line {
                            return Err(ErrorCode::UnexpectedEnd);
                        }
                        self.cursor = n;
                        return Ok(None);
                    },
                }
            } else if i < n && is_ws(buf[i]) {
                i += 1;
            } else if i < n && buf[i] == 0x2fu8 && self.comments {
                match Comment::begin(buf, i) {
                    Some(kind) => {
                        self.comment = kind;
                        i += 2;
                    },
                    None => {
                        self.cursor = i;
                        if !eof && i + 1 >= n {
                            return Ok(None);
                        }
                        return Ok(Some(buf[i]));
                    },
                }
            } else {
                self.cursor = i;
                return Ok(if i < n { Some(buf[i]) } else { None });
            }
        }
    }

    /// [`Mode::Lines`]: the boundary is a newline, so no structure is
    /// tracked.
    fn next_line(&mut self, buf: &[u8], eof: bool) -> (r: Result<Split, ErrorCode>)
        requires
            old(self).cursor <= buf@.len(),
            old(self).probe <= buf@.len(),
        ensures
            ({
                let (res, cur, pr) = line_run(old(self).cursor as int, old(self).probe as int, buf@, old(self).comments, eof);
                &&& r == res
                &&& *final(self) == (Splitter { cursor: cur as usize, probe: pr as usize, ..*old(self) })
            }),
            final(self).cursor <= buf@.len(),
            final(self).probe <= buf@.len(),
            r matches Ok(Split::Item { start, end }) ==> start <= end <= buf@.len(),
    {
        let n = buf.len();
        loop
            invariant
                n == buf@.len(),
                self.cursor <= n,
                self.probe <= n,
                self.mode == old(self).mode,
                self.scan == old(self).scan,
                self.state == old(self).state,
                self.comments == old(self).comments,
                self.comment == old(self).comment,
                line_run(old(self).cursor as int, old(self).probe as int, buf@, self.comments, eof) == line_run(
                    self.cursor as int,
                    self.probe as int,
                    buf@,
                    self.comments,
                    eof,
                ),
            decreases n - self.cursor,
        {
            let from = if self.probe > self.cursor { self.probe } else { self.cursor };
            proof {
                lemma_first_byte_from(buf@, from as int, 0x0au8);
            }
            let found = find_byte(buf, from, 0x0au8);
            let (line_end, next) = match found {
                Some(p) => (p, p + 1),
                None => {
                    if eof {
                        (n, n)
                    } else {
                        self.probe = n;
                        return Ok(Split::Need);
                    }
                },
            };
            proof {
                lemma_trim(buf@, self.cursor as int, line_end as int);
            }
            let (start, end) = trim_ws(buf, self.cursor, line_end);
            let ghost prev = self.cursor;
            self.cursor = next;
            self.probe = next;
            if line_has_value(buf, start, end, self.comments) {
                return Ok(Split::Item { start, end });
            }
            // A line with no value on it, blank or wholly a comment,
            // carries nothing; at the end of the input that is the clean
            // way for the stream to stop.
            if eof && next >= n {
                return Ok(Split::End);
            }
            proof {
                assert(prev < next);
            }
        }
    }
}

/// A scan begun afresh at `at`.
pub open spec fn restarted(at: usize) -> Scanner {
    Scanner { pos: at, ..Scanner::new_spec() }
}

/// What the end of the input makes of a scan still open.
pub open spec fn scan_at_eof(sc: Scanner, standalone: bool) -> (Result<usize, ErrorCode>, Scanner) {
    if sc.scalar && standalone {
        (Ok(sc.pos), Scanner { scalar: false, ..sc })
    } else {
        (Err(ErrorCode::UnexpectedEnd), sc)
    }
}

/// How far a state is from handing back an answer.
pub open spec fn state_rank(st: State) -> int {
    match st {
        State::Done => 0,
        State::InItem => 1,
        State::BeforeItem => 2,
        State::FirstItem => 3,
        State::AfterItem => 3,
        State::BeforeOpen => 4,
    }
}

/// The whitespace skip as a change to the splitter.
pub open spec fn after_ws(sp: Splitter, s: Seq<u8>, eof: bool) -> (Result<Option<u8>, ErrorCode>, Splitter) {
    let (r, cm, cur) = ws_run(sp.comment, s, sp.cursor as int, sp.cursor as int, sp.comments, eof);
    (r, Splitter { comment: cm, cursor: cur as usize, ..sp })
}

/// An item found ending at `end`: it starts at the cursor, and the cursor
/// moves past it.
pub open spec fn item_found(sp: Splitter, end: usize) -> (Result<Split, ErrorCode>, Splitter) {
    (
        Ok(Split::Item { start: sp.cursor, end }),
        Splitter { cursor: end, state: if sp.mode == Mode::Array { State::AfterItem } else { State::BeforeItem }, ..sp },
    )
}

/// [`Mode::Values`] and [`Mode::Array`]: the next item, found by the
/// structural scan, and the splitter after it.
pub open spec fn scanned_next(sp: Splitter, s: Seq<u8>, eof: bool) -> (Result<Split, ErrorCode>, Splitter)
    decreases state_rank(sp.state),
{
    match sp.state {
        State::BeforeOpen => {
            let (r, sp1) = after_ws(sp, s, eof);
            match r {
                Err(e) => (Err(e), sp1),
                Ok(None) => (Ok(if eof { Split::End } else { Split::Need }), sp1),
                Ok(Some(c)) => if c != 0x5b {
                    (Err(ErrorCode::ExpectedBracket), sp1)
                } else {
                    scanned_next(Splitter { cursor: (sp1.cursor + 1) as usize, state: State::FirstItem, ..sp1 }, s, eof)
                },
            }
        },
        State::FirstItem => {
            let (r, sp1) = after_ws(sp, s, eof);
            match r {
                Err(e) => (Err(e), sp1),
                Ok(None) => if eof {
                    (Err(ErrorCode::UnexpectedEnd), sp1)
                } else {
                    (Ok(Split::Need), sp1)
                },
                Ok(Some(c)) => if c == 0x5d {
                    scanned_next(Splitter { cursor: (sp1.cursor + 1) as usize, state: State::Done, ..sp1 }, s, eof)
                } else {
                    scanned_next(Splitter { scan: restarted(sp1.cursor), state: State::InItem, ..sp1 }, s, eof)
                },
            }
        },
        State::BeforeItem => {
            let (r, sp1) = after_ws(sp, s, eof);
            match r {
                Err(e) => (Err(e), sp1),
                Ok(None) => if !eof {
                    (Ok(Split::Need), sp1)
                } else if sp.mode == Mode::Values {
                    (Ok(Split::End), sp1)
                } else {
                    (Err(ErrorCode::UnexpectedEnd), sp1)
                },
                Ok(Some(_)) => scanned_next(Splitter { scan: restarted(sp1.cursor), state: State::InItem, ..sp1 }, s, eof),
            }
        },
        State::InItem => {
            let (r, sc2) = scan_run(sp.scan, s, sp.comments);
            let sp1 = Splitter { scan: sc2, ..sp };
            match r {
                Err(e) => (Err(e), sp1),
                Ok(Some(end)) => item_found(sp1, end),
                Ok(None) => if eof {
                    let (r2, sc3) = scan_at_eof(sc2, sp.mode == Mode::Values);
                    let sp2 = Splitter { scan: sc3, ..sp };
                    match r2 {
                        Err(e) => (Err(e), sp2),
                        Ok(end) => item_found(sp2, end),
                    }
                } else {
                    (Ok(Split::Need), sp1)
                },
            }
        },
        State::AfterItem => {
            let (r, sp1) = after_ws(sp, s, eof);
            match r {
                Err(e) => (Err(e), sp1),
                Ok(None) => if eof {
                    (Err(ErrorCode::UnexpectedEnd), sp1)
                } else {
                    (Ok(Split::Need), sp1)
                },
                Ok(Some(c)) => if c == 0x2c {
                    scanned_next(Splitter { cursor: (sp1.cursor + 1) as usize, state: State::BeforeItem, ..sp1 }, s, eof)
                } else if c == 0x5d {
                    scanned_next(Splitter { cursor: (sp1.cursor + 1) as usize, state: State::Done, ..sp1 }, s, eof)
                } else {
                    (Err(ErrorCode::ExpectedComma), sp1)
                },
            }
        },
        State::Done => {
            let (r, sp1) = after_ws(sp, s, eof);
            match r {
                Err(e) => (Err(e), sp1),
                Ok(Some(_)) => (Err(ErrorCode::TrailingContent), sp1),
                Ok(None) => (Ok(if eof { Split::End } else { Split::Need }), sp1),
            }
        },
    }
}

/// The next item under the splitter's mode, and the splitter after it.
pub open spec fn splitter_next(sp: Splitter, s: Seq<u8>, eof: bool) -> (Result<Split, ErrorCode>, Splitter) {
    if sp.mode == Mode::Lines {
        let (r, cur, pr) = line_run(sp.cursor as int, sp.probe as int, s, sp.comments, eof);
        (r, Splitter { cursor: cur as usize, probe: pr as usize, ..sp })
    } else {
        scanned_next(sp, s, eof)
    }
}

/// One state's turn: either the answer the whole search gives, or a move
/// to a state nearer one with the same answer ahead.
pub open spec fn stepped(
    sp: Splitter,
    next: Splitter,
    s: Seq<u8>,
    eof: bool,
    r: Option<Result<Split, ErrorCode>>,
) -> bool {
    match r {
        Some(res) => (res, next) == scanned_next(sp, s, eof) && (res is Ok ==> splitter_ok(next, s))
            && splitter_after(next, s, res),
        None => scanned_next(sp, s, eof) == scanned_next(next, s, eof) && state_rank(next.state) < state_rank(sp.state)
            && splitter_ok(next, s) && next.mode == sp.mode,
    }
}

/// A splitter that can be asked about `s`: its positions inside the
/// bytes, and its scan well formed.
pub open spec fn splitter_ok(sp: Splitter, s: Seq<u8>) -> bool {
    &&& sp.cursor <= s.len()
    &&& sp.probe <= s.len()
    &&& sp.scan.pos <= s.len()
    &&& scanner_ok(sp.scan)
    &&& sp.state == State::InItem ==> sp.cursor <= sp.scan.pos
    &&& sp.mode == Mode::Lines ==> sp.state != State::InItem
}

/// Where a splitter stands after any answer, a failure included: its
/// positions still inside the bytes, and an item inside them.
pub open spec fn splitter_after(sp: Splitter, s: Seq<u8>, r: Result<Split, ErrorCode>) -> bool {
    &&& sp.cursor <= s.len()
    &&& sp.scan.pos <= s.len()
    &&& r matches Ok(Split::Item { start, end }) ==> start <= end <= s.len()
}

impl Splitter {
    /// [`State::BeforeOpen`]: the opening `[`.
    fn before_open(&mut self, buf: &[u8], eof: bool) -> (r: Option<Result<Split, ErrorCode>>)
        requires
            splitter_ok(*old(self), buf@),
            old(self).state == State::BeforeOpen,
            old(self).mode != Mode::Lines,
        ensures
            stepped(*old(self), *final(self), buf@, eof, r),
    {
        let n = buf.len();
        proof {
            lemma_ws_run(self.comment, buf@, self.cursor as int, self.cursor as int, self.comments, eof);
        }
        let c = match self.skip_ws(buf, eof) {
            Ok(Some(c)) => c,
            // Nothing but whitespace and no more coming is an empty stream,
            // not a malformed array.
            Ok(None) => return Some(if eof { Ok(Split::End) } else { Ok(Split::Need) }),
            Err(e) => return Some(Err(e)),
        };
        if c != 0x5bu8 {
            return Some(Err(ErrorCode::ExpectedBracket));
        }
        proof {
            assert(self.cursor < n);
        }
        self.cursor = self.cursor + 1;
        self.state = State::FirstItem;
        None
    }

    /// [`State::FirstItem`]: the first element, or the `]` of an empty
    /// array.
    fn first_item(&mut self, buf: &[u8], eof: bool) -> (r: Option<Result<Split, ErrorCode>>)
        requires
            splitter_ok(*old(self), buf@),
            old(self).state == State::FirstItem,
            old(self).mode != Mode::Lines,
        ensures
            stepped(*old(self), *final(self), buf@, eof, r),
    {
        let n = buf.len();
        proof {
            lemma_ws_run(self.comment, buf@, self.cursor as int, self.cursor as int, self.comments, eof);
        }
        let c = match self.skip_ws(buf, eof) {
            Ok(Some(c)) => c,
            Ok(None) => return Some(if eof { Err(ErrorCode::UnexpectedEnd) } else { Ok(Split::Need) }),
            Err(e) => return Some(Err(e)),
        };
        proof {
            assert(self.cursor < n);
        }
        if c == 0x5du8 {
            self.cursor = self.cursor + 1;
            self.state = State::Done;
        } else {
            self.scan.restart(self.cursor);
            self.state = State::InItem;
        }
        None
    }

    /// [`State::BeforeItem`]: the start of a value.
    fn before_item(&mut self, buf: &[u8], eof: bool) -> (r: Option<Result<Split, ErrorCode>>)
        requires
            splitter_ok(*old(self), buf@),
            old(self).state == State::BeforeItem,
            old(self).mode != Mode::Lines,
        ensures
            stepped(*old(self), *final(self), buf@, eof, r),
    {
        proof {
            lemma_ws_run(self.comment, buf@, self.cursor as int, self.cursor as int, self.comments, eof);
        }
        match self.skip_ws(buf, eof) {
            Ok(Some(_)) => {},
            Ok(None) => {
                return Some(if !eof {
                    Ok(Split::Need)
                } else if self.mode == Mode::Values {
                    // A stream of values ends between values.
                    Ok(Split::End)
                } else {
                    // An array that ran out midway did not close.
                    Err(ErrorCode::UnexpectedEnd)
                });
            },
            Err(e) => return Some(Err(e)),
        }
        self.scan.restart(self.cursor);
        self.state = State::InItem;
        None
    }

    /// [`State::InItem`]: the structural scan over an element.
    fn in_item(&mut self, buf: &[u8], eof: bool) -> (r: Option<Result<Split, ErrorCode>>)
        requires
            splitter_ok(*old(self), buf@),
            old(self).state == State::InItem,
            old(self).mode != Mode::Lines,
        ensures
            stepped(*old(self), *final(self), buf@, eof, r),
    {
        let found = match self.scan.advance(buf, self.comments) {
            Ok(f) => f,
            Err(e) => return Some(Err(e)),
        };
        let end = match found {
            Some(end) => end,
            None => {
                if eof {
                    match self.scan.at_eof(self.mode == Mode::Values) {
                        Ok(end) => end,
                        Err(e) => return Some(Err(e)),
                    }
                } else {
                    return Some(Ok(Split::Need));
                }
            },
        };
        let start = self.cursor;
        self.cursor = end;
        self.state = if self.mode == Mode::Array { State::AfterItem } else { State::BeforeItem };
        Some(Ok(Split::Item { start, end }))
    }

    /// [`State::AfterItem`]: the `,` or `]` after an element.
    fn after_item(&mut self, buf: &[u8], eof: bool) -> (r: Option<Result<Split, ErrorCode>>)
        requires
            splitter_ok(*old(self), buf@),
            old(self).state == State::AfterItem,
            old(self).mode != Mode::Lines,
        ensures
            stepped(*old(self), *final(self), buf@, eof, r),
    {
        let n = buf.len();
        proof {
            lemma_ws_run(self.comment, buf@, self.cursor as int, self.cursor as int, self.comments, eof);
        }
        let c = match self.skip_ws(buf, eof) {
            Ok(Some(c)) => c,
            Ok(None) => return Some(if eof { Err(ErrorCode::UnexpectedEnd) } else { Ok(Split::Need) }),
            Err(e) => return Some(Err(e)),
        };
        proof {
            assert(self.cursor < n);
        }
        if c == 0x2cu8 {
            self.cursor = self.cursor + 1;
            self.state = State::BeforeItem;
        } else if c == 0x5du8 {
            self.cursor = self.cursor + 1;
            self.state = State::Done;
        } else {
            return Some(Err(ErrorCode::ExpectedComma));
        }
        None
    }

    /// [`State::Done`]: the array closed, and nothing but whitespace may
    /// follow; that has to be confirmed before the stream can be declared
    /// clean.
    fn done(&mut self, buf: &[u8], eof: bool) -> (r: Option<Result<Split, ErrorCode>>)
        requires
            splitter_ok(*old(self), buf@),
            old(self).state == State::Done,
            old(self).mode != Mode::Lines,
        ensures
            stepped(*old(self), *final(self), buf@, eof, r),
    {
        proof {
            lemma_ws_run(self.comment, buf@, self.cursor as int, self.cursor as int, self.comments, eof);
        }
        Some(match self.skip_ws(buf, eof) {
            Ok(Some(_)) => Err(ErrorCode::TrailingContent),
            Ok(None) => if eof { Ok(Split::End) } else { Ok(Split::Need) },
            Err(e) => Err(e),
        })
    }

    /// [`Mode::Values`] and [`Mode::Array`]: the boundary comes from the
    /// structural scan.
    fn next_scanned(&mut self, buf: &[u8], eof: bool) -> (r: Result<Split, ErrorCode>)
        requires
            splitter_ok(*old(self), buf@),
            old(self).mode != Mode::Lines,
        ensures
            (r, *final(self)) == scanned_next(*old(self), buf@, eof),
            r is Ok ==> splitter_ok(*final(self), buf@),
            splitter_after(*final(self), buf@, r),
    {
        loop
            invariant
                splitter_ok(*self, buf@),
                self.mode == old(self).mode,
                old(self).mode != Mode::Lines,
                scanned_next(*old(self), buf@, eof) == scanned_next(*self, buf@, eof),
            decreases state_rank(self.state),
        {
            let step = match self.state {
                State::BeforeOpen => self.before_open(buf, eof),
                State::FirstItem => self.first_item(buf, eof),
                State::BeforeItem => self.before_item(buf, eof),
                State::InItem => self.in_item(buf, eof),
                State::AfterItem => self.after_item(buf, eof),
                State::Done => self.done(buf, eof),
            };
            match step {
                Some(r) => return r,
                None => {},
            }
        }
    }

    /// The next item, if the bytes for one have arrived; `eof` says whether
    /// `buf` is all the input there will ever be.
    pub fn next(&mut self, buf: &[u8], eof: bool) -> (r: Result<Split, ErrorCode>)
        requires
            splitter_ok(*old(self), buf@),
        ensures
            (r, *final(self)) == splitter_next(*old(self), buf@, eof),
            r is Ok ==> splitter_ok(*final(self), buf@),
            splitter_after(*final(self), buf@, r),
    {
        match self.mode {
            Mode::Lines => self.next_line(buf, eof),
            _ => self.next_scanned(buf, eof),
        }
    }

    /// Bytes the window may discard from the front of its buffer.
    pub fn consumed(&self) -> (n: usize)
        ensures
            n == self.cursor,
    {
        self.cursor
    }

    /// Account for the consumed prefix having been removed from the front.
    pub fn rebase(&mut self)
        ensures
            *final(self) == (Splitter {
                cursor: 0,
                probe: (if old(self).probe >= old(self).cursor { old(self).probe - old(self).cursor } else { 0 }) as usize,
                scan: Scanner {
                    pos: (if old(self).scan.pos >= old(self).cursor { old(self).scan.pos - old(self).cursor } else { 0 }) as usize,
                    ..old(self).scan
                },
                ..*old(self)
            }),
    {
        let shift = self.cursor;
        self.cursor = 0;
        self.probe = if self.probe >= shift { self.probe - shift } else { 0 };
        self.scan.pos = if self.scan.pos >= shift { self.scan.pos - shift } else { 0 };
    }

    /// Where a failure was detected: the delimiter checks stop the cursor on
    /// the offending byte, the structural scan its own position, and
    /// whichever is further along is the one that just moved.
    pub fn position(&self) -> (n: usize)
        ensures
            n == (if self.cursor >= self.scan.pos { self.cursor } else { self.scan.pos }),
    {
        if self.cursor >= self.scan.pos {
            self.cursor
        } else {
            self.scan.pos
        }
    }
}

/// Nothing but whitespace from `i` on: the skip runs to the end.
proof fn lemma_ws_run_blank(s: Seq<u8>, i: int, c0: int, comments: bool, eof: bool)
    requires
        0 <= i <= s.len(),
        forall|k: int| 0 <= k < s.len() ==> spec_is_ws(#[trigger] s[k]),
    ensures
        ws_run(Comment::No, s, i, c0, comments, eof) == (Ok::<Option<u8>, ErrorCode>(None), Comment::No, s.len() as int),
    decreases s.len() - i,
{
    if i < s.len() {
        assert(spec_is_ws(s[i]));
        lemma_ws_run_blank(s, i + 1, c0, comments, eof);
    }
}

proof fn lemma_trim_blank(s: Seq<u8>, a: int, b: int)
    requires
        0 <= a <= b <= s.len(),
        forall|k: int| 0 <= k < s.len() ==> spec_is_ws(#[trigger] s[k]),
    ensures
        trim_start(s, a, b) == b,
    decreases b - a,
{
    if a < b {
        assert(spec_is_ws(s[a]));
        lemma_trim_blank(s, a + 1, b);
    }
}

proof fn lemma_lines_blank(s: Seq<u8>, c: int)
    requires
        0 <= c <= s.len(),
        forall|k: int| 0 <= k < s.len() ==> spec_is_ws(#[trigger] s[k]),
    ensures
        line_run(c, c, s, false, true).0 == Ok::<Split, ErrorCode>(Split::End),
    decreases s.len() - c,
{
    lemma_first_byte_from(s, c, 0x0a);
    let line_end = match first_byte_from(s, c, 0x0a) {
        Some(p) => p,
        None => s.len() as int,
    };
    lemma_trim_blank(s, c, line_end);
    match first_byte_from(s, c, 0x0a) {
        Some(p) => {
            if p + 1 < s.len() {
                lemma_lines_blank(s, p + 1);
            }
        },
        None => {},
    }
}

/// An input holding nothing but whitespace is an empty stream, in every
/// mode: the first question asked of it, once it is known to be all,
/// answers that there are no values, and no error.
pub proof fn lemma_blank_stream_is_empty(mode: Mode, s: Seq<u8>)
    requires
        forall|k: int| 0 <= k < s.len() ==> spec_is_ws(#[trigger] s[k]),
    ensures
        splitter_next(fresh_splitter(mode), s, true).0 == Ok::<Split, ErrorCode>(Split::End),
{
    lemma_ws_run_blank(s, 0, 0, false, true);
    if mode == Mode::Lines {
        lemma_lines_blank(s, 0);
    }
}

// ---------------------------------------------------------------------------
// Asking again once more bytes have arrived
// ---------------------------------------------------------------------------

/// `t` holds `s` and then possibly more.
pub open spec fn extends(t: Seq<u8>, s: Seq<u8>) -> bool {
    s.len() <= t.len() && forall|k: int| 0 <= k < s.len() ==> #[trigger] t[k] == s[k]
}

/// A comment followed into more bytes picks up where it stopped.
proof fn lemma_comment_run_extends(cm: Comment, s: Seq<u8>, t: Seq<u8>, i: int)
    requires
        extends(t, s),
        0 <= i <= s.len(),
    ensures
        comment_run(cm, t, i) == comment_run(comment_run(cm, s, i).0, t, comment_run(cm, s, i).1),
    decreases s.len() - i,
{
    if cm != Comment::No && i < s.len() {
        assert(t[i] == s[i]);
        if cm == Comment::Line {
            if s[i] != 0x0a {
                lemma_comment_run_extends(Comment::Line, s, t, i + 1);
            }
        } else {
            lemma_comment_run_extends(block_after(cm, s[i]), s, t, i + 1);
        }
    }
}

/// The cursor a whitespace skip was started from matters only to where a
/// failure is reported.
proof fn lemma_ws_run_origin(cm: Comment, t: Seq<u8>, j: int, c0: int, c1: int, comments: bool, eof: bool)
    requires
        0 <= j <= t.len(),
    ensures
        ws_run(cm, t, j, c0, comments, eof).0 == ws_run(cm, t, j, c1, comments, eof).0,
        ws_run(cm, t, j, c0, comments, eof).1 == ws_run(cm, t, j, c1, comments, eof).1,
        ws_run(cm, t, j, c0, comments, eof).0 is Ok ==> ws_run(cm, t, j, c0, comments, eof).2 == ws_run(
            cm,
            t,
            j,
            c1,
            comments,
            eof,
        ).2,
    decreases t.len() - j, if cm == Comment::No { 0int } else { 1int },
{
    if cm != Comment::No {
        lemma_comment_run(cm, t, j);
        let (cm2, k) = comment_run(cm, t, j);
        if cm2 == Comment::No && j <= k <= t.len() && (k > j || cm == Comment::Line) {
            lemma_ws_run_origin(Comment::No, t, k, c0, c1, comments, eof);
        }
    } else if j < t.len() && spec_is_ws(t[j]) {
        lemma_ws_run_origin(Comment::No, t, j + 1, c0, c1, comments, eof);
    } else if j < t.len() && t[j] == 0x2f && comments && j + 1 < t.len() && (t[j + 1] == 0x2f || t[j + 1] == 0x2a) {
        lemma_ws_run_origin(if t[j + 1] == 0x2f { Comment::Line } else { Comment::Block }, t, j + 2, c0, c1, comments, eof);
    }
}

/// A whitespace skip that finds what follows it finds the same in more
/// bytes; one that runs out of bytes goes on, in more bytes, from where it
/// stopped.
proof fn lemma_ws_run_extends(cm: Comment, s: Seq<u8>, t: Seq<u8>, i: int, c0: int, comments: bool, e: bool)
    requires
        extends(t, s),
        0 <= c0 <= i <= s.len(),
    ensures
        ws_run(cm, s, i, c0, comments, false).0 matches Ok(Some(_)) ==> ws_run(cm, t, i, c0, comments, e) == ws_run(
            cm,
            s,
            i,
            c0,
            comments,
            false,
        ),
        ws_run(cm, s, i, c0, comments, false).0 == Ok::<Option<u8>, ErrorCode>(None) ==> ws_run(cm, t, i, c0, comments, e)
            == ws_run(ws_run(cm, s, i, c0, comments, false).1, t, ws_run(cm, s, i, c0, comments, false).2, c0, comments, e),
    decreases s.len() - i, if cm == Comment::No { 0int } else { 1int },
{
    if i == s.len() {
        if cm != Comment::No {
            lemma_comment_run(cm, s, i);
        }
    } else if cm != Comment::No {
        lemma_comment_run(cm, s, i);
        lemma_comment_run_extends(cm, s, t, i);
        let (cm2, j) = comment_run(cm, s, i);
        if cm2 == Comment::No {
            lemma_ws_run_extends(Comment::No, s, t, j, c0, comments, e);
        } else {
            assert(j == s.len());
            lemma_comment_run(cm2, t, s.len() as int);
            let (cm3, j3) = comment_run(cm2, t, s.len() as int);
            if cm3 == Comment::No && cm2 != Comment::Line {
                assert(j3 > s.len());
            }
        }
    } else {
        assert(t[i] == s[i]);
        if spec_is_ws(s[i]) {
            lemma_ws_run_extends(Comment::No, s, t, i + 1, c0, comments, e);
        } else if s[i] == 0x2f && comments {
            if i + 1 < s.len() {
                assert(t[i + 1] == s[i + 1]);
                if s[i + 1] == 0x2f || s[i + 1] == 0x2a {
                    lemma_ws_run_extends(if s[i + 1] == 0x2f { Comment::Line } else { Comment::Block }, s, t, i + 2, c0, comments, e);
                }
            }
        }
    }
}

/// Line framing leaves its positions inside the bytes.
proof fn lemma_line_run_bounds(cursor: int, probe: int, s: Seq<u8>, comments: bool, eof: bool)
    requires
        0 <= cursor <= s.len(),
        0 <= probe <= s.len(),
    ensures
        cursor <= line_run(cursor, probe, s, comments, eof).1 <= s.len(),
        0 <= line_run(cursor, probe, s, comments, eof).2 <= s.len(),
    decreases s.len() - cursor,
{
    let from = if probe > cursor { probe } else { cursor };
    lemma_first_byte_from(s, from, 0x0a);
    match first_byte_from(s, from, 0x0a) {
        Some(p) => {
            if cursor < p + 1 <= s.len() {
                lemma_line_run_bounds(p + 1, p + 1, s, comments, eof);
            }
        },
        None => {},
    }
}

/// A search that starts before a stretch free of `ch` finds what a search
/// after it finds.
proof fn lemma_first_byte_skip(s: Seq<u8>, a: int, b: int, ch: u8)
    requires
        0 <= a <= b,
        forall|k: int| a <= k < b && k < s.len() ==> s[k] != ch,
    ensures
        first_byte_from(s, a, ch) == first_byte_from(s, b, ch),
    decreases b - a,
{
    if a < b && a < s.len() {
        lemma_first_byte_skip(s, a + 1, b, ch);
    }
}

/// A byte found among the first bytes is found at the same place in more.
proof fn lemma_first_byte_extends(s: Seq<u8>, t: Seq<u8>, from: int, ch: u8)
    requires
        extends(t, s),
        0 <= from,
        first_byte_from(s, from, ch) is Some,
    ensures
        first_byte_from(t, from, ch) == first_byte_from(s, from, ch),
    decreases s.len() - from,
{
    assert(from < s.len());
    assert(t[from] == s[from]);
    if s[from] != ch {
        lemma_first_byte_extends(s, t, from + 1, ch);
    }
}

proof fn lemma_trim_extends(s: Seq<u8>, t: Seq<u8>, a: int, b: int)
    requires
        extends(t, s),
        0 <= a <= b <= s.len(),
    ensures
        trim_start(t, a, b) == trim_start(s, a, b),
        trim_end(t, a, b) == trim_end(s, a, b),
    decreases b - a,
{
    if a < b {
        assert(t[a] == s[a]);
        assert(t[b - 1] == s[b - 1]);
        lemma_trim_extends(s, t, a + 1, b);
        lemma_trim_extends(s, t, a, b - 1);
    }
}

proof fn lemma_line_value_extends(s: Seq<u8>, t: Seq<u8>, i: int, end: int, comments: bool)
    requires
        extends(t, s),
        0 <= i,
        end <= s.len(),
    ensures
        line_value(t, i, end, comments) == line_value(s, i, end, comments),
    decreases end - i,
{
    if i < end {
        assert(t[i] == s[i]);
        assert(t.subrange(0, end) =~= s.subrange(0, end));
        if spec_is_ws(s[i]) {
            lemma_line_value_extends(s, t, i + 1, end, comments);
        } else if s[i] == 0x2f && comments {
            match comment_end(s.subrange(0, end), i) {
                Some(next) => if i < next <= end {
                    lemma_line_value_extends(s, t, next, end, comments);
                },
                None => {},
            }
        }
    }
}

/// Line framing that runs out of bytes goes on, in more bytes, from where
/// it stopped.
proof fn lemma_line_run_extends(cursor: int, probe: int, s: Seq<u8>, t: Seq<u8>, comments: bool, e: bool)
    requires
        extends(t, s),
        0 <= cursor <= s.len(),
        0 <= probe <= s.len(),
        line_run(cursor, probe, s, comments, false).0 == Ok::<Split, ErrorCode>(Split::Need),
    ensures
        line_run(cursor, probe, t, comments, e) == line_run(line_run(cursor, probe, s, comments, false).1, line_run(
            cursor,
            probe,
            s,
            comments,
            false,
        ).2, t, comments, e),
    decreases s.len() - cursor,
{
    let from = if probe > cursor { probe } else { cursor };
    lemma_first_byte_from(s, from, 0x0a);
    match first_byte_from(s, from, 0x0a) {
        None => {
            assert forall|k: int| from <= k < s.len() && k < t.len() implies t[k] != 0x0au8 by {
                assert(t[k] == s[k]);
            }
            lemma_first_byte_skip(t, from, s.len() as int, 0x0a);
        },
        Some(p) => {
            lemma_first_byte_extends(s, t, from, 0x0a);
            lemma_trim(s, cursor, p);
            lemma_trim_extends(s, t, cursor, p);
            let start = trim_start(s, cursor, p);
            lemma_trim_extends(s, t, start, p);
            let end = trim_end(s, start, p);
            lemma_line_value_extends(s, t, start, end, true);
            if e && p + 1 >= t.len() {
                assert(p + 1 == s.len() && s.len() == t.len());
                assert(first_byte_from(s, p + 1, 0x0a) is None);
                assert(line_run(p + 1, p + 1, s, comments, false) == (Ok::<Split, ErrorCode>(Split::Need), p + 1, s.len() as int));
                assert(first_byte_from(t, p + 1, 0x0a) is None);
                assert(trim_start(t, p + 1, p + 1) == p + 1);
                assert(trim_end(t, p + 1, p + 1) == p + 1);
                assert(!line_value(t, p + 1, p + 1, true));
            } else {
                lemma_line_run_extends(p + 1, p + 1, s, t, comments, e);
            }
        },
    }
}

/// The whitespace skip as a change to the splitter, asked again once more
/// bytes have arrived.
proof fn lemma_after_ws_extends(sp: Splitter, s: Seq<u8>, t: Seq<u8>, e: bool)
    requires
        extends(t, s),
        t.len() <= usize::MAX,
        sp.cursor <= s.len(),
    ensures
        after_ws(sp, s, false).0 matches Ok(Some(_)) ==> after_ws(sp, t, e) == after_ws(sp, s, false),
        after_ws(sp, s, false).0 == Ok::<Option<u8>, ErrorCode>(None) ==> ({
            let once = after_ws(sp, t, e);
            let later = after_ws(after_ws(sp, s, false).1, t, e);
            &&& once.0 == later.0
            &&& once.0 is Ok ==> once == later
        }),
        after_ws(sp, s, false).1.cursor <= s.len(),
        after_ws(sp, s, false).0 matches Ok(Some(_)) ==> after_ws(sp, s, false).1.cursor < s.len(),
{
    let c0 = sp.cursor as int;
    lemma_ws_run(sp.comment, s, c0, c0, sp.comments, false);
    lemma_ws_run_extends(sp.comment, s, t, c0, c0, sp.comments, e);
    let (r, cm1, j) = ws_run(sp.comment, s, c0, c0, sp.comments, false);
    if r == Ok::<Option<u8>, ErrorCode>(None) {
        lemma_ws_run_origin(cm1, t, j, c0, j, sp.comments, e);
        let sp1 = after_ws(sp, s, false).1;
        assert(sp1 == Splitter { comment: cm1, cursor: j as usize, ..sp });
        let x = ws_run(sp.comment, t, c0, c0, sp.comments, e);
        let y = ws_run(cm1, t, j, j, sp.comments, e);
        assert(x == ws_run(cm1, t, j, c0, sp.comments, e));
        if x.0 is Ok {
            assert(x == y);
            assert(Splitter { comment: x.1, cursor: x.2 as usize, ..sp } == Splitter { comment: y.1, cursor: y.2 as usize, ..sp1 });
        }
    }
}

/// The structural framing, asked again once more bytes have arrived,
/// answers what asking once of all of them would have.
#[verifier::spinoff_prover]
#[verifier::rlimit(100)]
proof fn lemma_scanned_next_extends(sp: Splitter, s: Seq<u8>, t: Seq<u8>, e: bool)
    requires
        extends(t, s),
        t.len() <= usize::MAX,
        splitter_ok(sp, s),
        sp.mode != Mode::Lines,
        scanned_next(sp, s, false).0 == Ok::<Split, ErrorCode>(Split::Need),
    ensures
        ({
            let once = scanned_next(sp, t, e);
            let later = scanned_next(scanned_next(sp, s, false).1, t, e);
            &&& once.0 == later.0
            &&& once.0 is Ok ==> once == later
        }),
    decreases state_rank(sp.state),
{
    lemma_after_ws_extends(sp, s, t, e);
    let (r, sp1) = after_ws(sp, s, false);
    match sp.state {
        State::InItem => {
            assert(s =~= t.subrange(0, s.len() as int));
            lemma_scan_resumes(sp.scan, s, t, sp.comments);
        },
        State::BeforeOpen => {
            if r matches Ok(Some(c)) {
                let next = Splitter { cursor: (sp1.cursor + 1) as usize, state: State::FirstItem, ..sp1 };
                lemma_scanned_next_extends(next, s, t, e);
            }
        },
        State::FirstItem => {
            if let Ok(Some(c)) = r {
                if c == 0x5d {
                    let next = Splitter { cursor: (sp1.cursor + 1) as usize, state: State::Done, ..sp1 };
                    lemma_scanned_next_extends(next, s, t, e);
                } else {
                    let next = Splitter { scan: restarted(sp1.cursor), state: State::InItem, ..sp1 };
                    lemma_scanned_next_extends(next, s, t, e);
                }
            }
        },
        State::BeforeItem => {
            if r matches Ok(Some(c)) {
                let next = Splitter { scan: restarted(sp1.cursor), state: State::InItem, ..sp1 };
                lemma_scanned_next_extends(next, s, t, e);
            }
        },
        State::AfterItem => {
            if let Ok(Some(c)) = r {
                if c == 0x2c {
                    let next = Splitter { cursor: (sp1.cursor + 1) as usize, state: State::BeforeItem, ..sp1 };
                    lemma_scanned_next_extends(next, s, t, e);
                } else if c == 0x5d {
                    let next = Splitter { cursor: (sp1.cursor + 1) as usize, state: State::Done, ..sp1 };
                    lemma_scanned_next_extends(next, s, t, e);
                }
            }
        },
        State::Done => {},
    }
}

/// The structural framing keeps its mode.
proof fn lemma_scanned_next_mode(sp: Splitter, s: Seq<u8>, eof: bool)
    ensures
        scanned_next(sp, s, eof).1.mode == sp.mode,
    decreases state_rank(sp.state),
{
    let (r, sp1) = after_ws(sp, s, eof);
    match sp.state {
        State::BeforeOpen => {
            lemma_scanned_next_mode(Splitter { cursor: (sp1.cursor + 1) as usize, state: State::FirstItem, ..sp1 }, s, eof);
        },
        State::FirstItem => {
            lemma_scanned_next_mode(Splitter { cursor: (sp1.cursor + 1) as usize, state: State::Done, ..sp1 }, s, eof);
            lemma_scanned_next_mode(Splitter { scan: restarted(sp1.cursor), state: State::InItem, ..sp1 }, s, eof);
        },
        State::BeforeItem => {
            lemma_scanned_next_mode(Splitter { scan: restarted(sp1.cursor), state: State::InItem, ..sp1 }, s, eof);
        },
        State::AfterItem => {
            lemma_scanned_next_mode(Splitter { cursor: (sp1.cursor + 1) as usize, state: State::BeforeItem, ..sp1 }, s, eof);
            lemma_scanned_next_mode(Splitter { cursor: (sp1.cursor + 1) as usize, state: State::Done, ..sp1 }, s, eof);
        },
        _ => {},
    }
}

/// Framing does not depend on how the bytes arrive. When a question asked
/// of the bytes so far can only answer that more are needed, asking it again
/// once more bytes have arrived gives the answer that asking once, of all of
/// them, would have given, in every mode and whether or not the input has
/// ended by then; the framer is left in the same state, except that a
/// failure may be reported at a different position.
pub proof fn lemma_framing_resumes(sp: Splitter, s: Seq<u8>, t: Seq<u8>, e: bool)
    requires
        extends(t, s),
        t.len() <= usize::MAX,
        splitter_ok(sp, s),
        splitter_next(sp, s, false).0 == Ok::<Split, ErrorCode>(Split::Need),
    ensures
        ({
            let once = splitter_next(sp, t, e);
            let later = splitter_next(splitter_next(sp, s, false).1, t, e);
            &&& once.0 == later.0
            &&& once.0 is Ok ==> once == later
        }),
{
    if sp.mode == Mode::Lines {
        lemma_line_run_bounds(sp.cursor as int, sp.probe as int, s, sp.comments, false);
        lemma_line_run_extends(sp.cursor as int, sp.probe as int, s, t, sp.comments, e);
        let b = line_run(sp.cursor as int, sp.probe as int, s, sp.comments, false);
        let sp1 = splitter_next(sp, s, false).1;
        assert(sp1.cursor == b.1 && sp1.probe == b.2);
        let a = line_run(sp.cursor as int, sp.probe as int, t, sp.comments, e);
        assert(a == line_run(sp1.cursor as int, sp1.probe as int, t, sp.comments, e));
        assert(splitter_next(sp1, t, e) == (a.0, Splitter { cursor: a.1 as usize, probe: a.2 as usize, ..sp1 }));
        assert(Splitter { cursor: a.1 as usize, probe: a.2 as usize, ..sp1 } == Splitter { cursor: a.1 as usize, probe: a.2 as usize, ..sp });
    } else {
        lemma_scanned_next_mode(sp, s, false);
        lemma_scanned_next_extends(sp, s, t, e);
    }
}

} // verus!

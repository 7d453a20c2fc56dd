//! The byte window a stream reader pulls through.
//!
//! A growing buffer, a splitter over it, and the policy that keeps the two
//! bounded: bytes are appended as they arrive, the dead prefix is dropped
//! once it is at least half the window, a single value may not outgrow the
//! limit, and an error is located against the whole stream.
use vstd::prelude::*;
use crate::error::{Error, ErrorCode};
use crate::json::stream::split::{splitter_next, splitter_ok, Mode, Split, Splitter};

verus! {

/// What a window holds: the live bytes, the splitter's state over them,
/// whether more can arrive, the size limit, how many bytes were dropped
/// off the front, and whether framing has failed.
pub struct WindowView {
    pub bytes: Seq<u8>,
    pub split: Splitter,
    pub eof: bool,
    pub limit: usize,
    pub origin: usize,
    pub failed: bool,
}

/// A growing buffer, a splitter over it, and the policy that keeps the two
/// bounded.
pub struct Window {
    buf: Vec<u8>,
    split: Splitter,
    eof: bool,
    limit: usize,
    origin: usize,
    failed: bool,
}

impl View for Window {
    type V = WindowView;

    closed spec fn view(&self) -> WindowView {
        WindowView {
            bytes: self.buf@,
            split: self.split,
            eof: self.eof,
            limit: self.limit,
            origin: self.origin,
            failed: self.failed,
        }
    }
}

/// The splitter with the consumed prefix taken off the front.
pub open spec fn rebased(sp: Splitter) -> Splitter {
    Splitter {
        cursor: 0,
        probe: (if sp.probe >= sp.cursor { sp.probe - sp.cursor } else { 0 }) as usize,
        scan: crate::json::stream::split::Scanner {
            pos: (if sp.scan.pos >= sp.cursor { sp.scan.pos - sp.cursor } else { 0 }) as usize,
            ..sp.scan
        },
        ..sp
    }
}

/// A window that keeps its promises: a splitter that fits its bytes while
/// framing has not failed, and stream offsets that fit a `usize`.
pub open spec fn window_ok(v: WindowView) -> bool {
    &&& !v.failed ==> splitter_ok(v.split, v.bytes)
    &&& v.origin + v.bytes.len() <= usize::MAX
    &&& v.origin + v.split.cursor <= usize::MAX
    &&& v.origin + v.split.scan.pos <= usize::MAX
}

/// Bytes held but not yet resolved into a value; none once framing has
/// failed and the buffer was dropped.
pub open spec fn spec_buffered(v: WindowView) -> int {
    if v.failed { 0 } else { v.bytes.len() - v.split.cursor }
}

/// The window once the dead prefix is dropped, which happens only when it
/// is at least half the window.
pub open spec fn compacted(v: WindowView) -> WindowView {
    let dead = v.split.cursor;
    if dead == 0 || dead < v.bytes.len() - dead {
        v
    } else {
        WindowView {
            bytes: v.bytes.subrange(dead as int, v.bytes.len() as int),
            split: rebased(v.split),
            origin: (v.origin + dead) as usize,
            ..v
        }
    }
}

/// A failure `code` at window offset `at`, placed in the whole stream.
pub open spec fn error_in(v: WindowView, code: ErrorCode, at: int) -> Error {
    Error { code, index: (v.origin + at) as usize, key: None }
}

/// Asking the splitter for the next item without taking in more bytes: the
/// answer and the window after it. A value may not outgrow the limit,
/// whether it is complete or still arriving.
pub open spec fn located(v: WindowView) -> (Result<Split, Error>, WindowView) {
    let c = compacted(v);
    let (r, sp) = splitter_next(c.split, c.bytes, c.eof);
    let v2 = WindowView { split: sp, ..c };
    match r {
        Err(code) => (Err(error_in(v2, code, if sp.cursor >= sp.scan.pos { sp.cursor as int } else { sp.scan.pos as int })), v2),
        Ok(split) => {
            let (extent, at) = match split {
                Split::Need => (v2.bytes.len() - sp.cursor, sp.cursor as int),
                Split::Item { start, end } => (end - start, start as int),
                Split::End => (0int, sp.cursor as int),
            };
            if extent > v.limit {
                (Err(error_in(v2, ErrorCode::DocumentTooLarge, at)), v2)
            } else {
                (Ok(split), v2)
            }
        },
    }
}

/// The next item: a failure is reported once and ends the stream, the
/// buffer dropped; afterwards the window reports the stream over.
pub open spec fn window_next(v: WindowView) -> (Result<Split, Error>, WindowView) {
    if v.failed {
        (Ok(Split::End), v)
    } else {
        let (r, v2) = located(v);
        match r {
            Ok(s) => (Ok(s), v2),
            Err(e) => (Err(e), WindowView { failed: true, bytes: Seq::empty(), ..v2 }),
        }
    }
}

impl Window {
    /// A window over `split`, with room for `capacity` bytes to begin with.
    pub fn new(split: Splitter, capacity: usize) -> (w: Window)
        requires
            splitter_ok(split, Seq::empty()),
        ensures
            w@ == (WindowView { bytes: Seq::empty(), split, eof: false, limit: usize::MAX, origin: 0, failed: false }),
            window_ok(w@),
    {
        Window { buf: Vec::with_capacity(capacity), split, eof: false, limit: usize::MAX, origin: 0, failed: false }
    }

    pub fn set_limit(&mut self, bytes: usize)
        ensures
            final(self)@ == (WindowView { limit: bytes, ..old(self)@ }),
    {
        self.limit = bytes;
    }

    /// Tell the splitter whether comments count as whitespace.
    pub fn set_comments(&mut self, on: bool)
        requires
            window_ok(old(self)@),
        ensures
            final(self)@ == (WindowView {
                split: Splitter {
                    comments: on,
                    comment: crate::json::stream::split::Comment::No,
                    scan: crate::json::stream::split::Scanner {
                        comment: crate::json::stream::split::Comment::No,
                        ..old(self)@.split.scan
                    },
                    ..old(self)@.split
                },
                ..old(self)@
            }),
            window_ok(final(self)@),
    {
        self.split.set_comments(on);
    }

    /// The splitter, for what it knows about the item it just produced.
    pub fn framer(&self) -> (sp: &Splitter)
        ensures
            *sp == self@.split,
    {
        &self.split
    }

    /// The live bytes, which a located span indexes into.
    pub fn bytes(&self) -> (b: &[u8])
        ensures
            b@ == self@.bytes,
    {
        self.buf.as_slice()
    }

    /// Bytes held but not yet resolved into a value.
    pub fn buffered(&self) -> (n: usize)
        requires
            window_ok(self@),
        ensures
            n == spec_buffered(self@),
    {
        if self.failed {
            // The buffer was dropped on failure, but the cursor stayed where
            // it stopped.
            return 0;
        }
        self.buf.len() - self.split.consumed()
    }

    /// Take the bytes that were read but never resolved into a value: none
    /// once framing has failed, there being no known position for them to
    /// be relative to.
    pub fn into_unread(self) -> (r: Vec<u8>)
        requires
            window_ok(self@),
        ensures
            r@ == (if self@.failed {
                Seq::empty()
            } else {
                self@.bytes.subrange(self@.split.cursor as int, self@.bytes.len() as int)
            }),
    {
        if self.failed {
            return Vec::new();
        }
        let mut buf = self.buf;
        buf.split_off(self.split.consumed())
    }

    /// Byte offset in the stream of the next unresolved byte.
    pub fn offset(&self) -> (n: usize)
        requires
            window_ok(self@),
        ensures
            n == self@.origin + self@.split.cursor,
    {
        self.origin + self.split.consumed()
    }

    pub fn is_eof(&self) -> (b: bool)
        ensures
            b == self@.eof,
    {
        self.eof
    }

    /// No more bytes will arrive.
    pub fn set_eof(&mut self)
        ensures
            final(self)@ == (WindowView { eof: true, ..old(self)@ }),
    {
        self.eof = true;
    }

    /// How many bytes to ask a reader for: the chunk size, clipped so the
    /// window never runs more than a byte past the limit before noticing
    /// it, and never less than one.
    pub fn fill_request(&self, chunk: usize) -> (n: usize)
        requires
            window_ok(self@),
        ensures
            ({
                let room = if self@.limit >= spec_buffered(self@) {
                    if self@.limit - spec_buffered(self@) < usize::MAX { self@.limit - spec_buffered(self@) + 1 } else { usize::MAX as int }
                } else {
                    1int
                };
                n == (if chunk < 1 { 1 } else if chunk > room { room } else { chunk as int })
            }),
            n >= 1,
    {
        let buffered = self.buffered();
        let room = if self.limit >= buffered {
            let r = self.limit - buffered;
            if r < usize::MAX { r + 1 } else { usize::MAX }
        } else {
            1
        };
        if chunk < 1 {
            1
        } else if chunk > room {
            room
        } else {
            chunk
        }
    }

    /// Add bytes to the window; ignored once framing has failed, so a
    /// caller that keeps pushing at a dead stream cannot make it grow.
    pub fn extend(&mut self, bytes: &[u8])
        requires
            window_ok(old(self)@),
            old(self)@.origin + old(self)@.bytes.len() + bytes@.len() <= usize::MAX,
        ensures
            final(self)@ == (if old(self)@.failed {
                old(self)@
            } else {
                WindowView { bytes: old(self)@.bytes + bytes@, ..old(self)@ }
            }),
            window_ok(final(self)@),
    {
        if self.failed {
            return;
        }
        let ghost start = self.buf@;
        let mut i: usize = 0;
        while i < bytes.len()
            invariant
                i <= bytes@.len(),
                self.buf@ == start + bytes@.subrange(0, i as int),
                self.split == old(self).split,
                self.eof == old(self).eof,
                self.limit == old(self).limit,
                self.origin == old(self).origin,
                self.failed == old(self).failed,
            decreases bytes@.len() - i,
        {
            self.buf.push(bytes[i]);
            i += 1;
            proof {
                assert(start + bytes@.subrange(0, i as int) =~= (start + bytes@.subrange(0, i - 1)).push(bytes@[i - 1]));
            }
        }
        proof {
            assert(bytes@.subrange(0, bytes@.len() as int) =~= bytes@);
        }
    }

    /// Drop the bytes the splitter is finished with, only when at least
    /// half the window is dead, so a long stream of small values does not
    /// pay a full-window move per value.
    fn compact(&mut self)
        requires
            window_ok(old(self)@),
            !old(self)@.failed,
        ensures
            final(self)@ == compacted(old(self)@),
            window_ok(final(self)@),
    {
        let dead = self.split.consumed();
        if dead == 0 || dead < self.buf.len() - dead {
            return;
        }
        let rest = self.buf.split_off(dead);
        self.buf = rest;
        self.split.rebase();
        self.origin = self.origin + dead;
    }

    /// Ask the splitter for the next value, without acquiring more input.
    fn locate(&mut self) -> (r: Result<Split, Error>)
        requires
            window_ok(old(self)@),
            !old(self)@.failed,
        ensures
            (r, final(self)@) == located(old(self)@),
            r is Ok ==> window_ok(final(self)@),
            window_ok(WindowView { failed: true, bytes: Seq::empty(), ..final(self)@ }),
    {
        self.compact();
        let split = match self.split.next(self.buf.as_slice(), self.eof) {
            Ok(s) => s,
            Err(code) => {
                let at = self.split.position();
                return Err(self.error_at(code, at));
            },
        };
        let (extent, at) = match split {
            Split::Need => (self.buf.len() - self.split.consumed(), self.split.consumed()),
            Split::Item { start, end } => (end - start, start),
            Split::End => (0, self.split.consumed()),
        };
        if extent > self.limit {
            return Err(self.error_at(ErrorCode::DocumentTooLarge, at));
        }
        Ok(split)
    }

    /// Ask the splitter for the next value, without acquiring more input.
    ///
    /// A failure here is a framing failure, and it is terminal: reported
    /// once, after which the window reports the stream over, since there is
    /// no position to resume from.
    pub fn try_next(&mut self) -> (r: Result<Split, Error>)
        requires
            window_ok(old(self)@),
        ensures
            (r, final(self)@) == window_next(old(self)@),
            window_ok(final(self)@),
    {
        if self.failed {
            return Ok(Split::End);
        }
        match self.locate() {
            Ok(split) => Ok(split),
            Err(e) => {
                self.failed = true;
                self.buf = Vec::new();
                Err(e)
            },
        }
    }

    /// Locate `code` at a window offset, reported against the whole stream.
    pub fn error_at(&self, code: ErrorCode, at: usize) -> (e: Error)
        requires
            self@.origin + at <= usize::MAX,
        ensures
            e == error_in(self@, code, at as int),
    {
        Error::new(code, self.origin + at)
    }
}

/// A failure to frame is reported once and ends the stream: every
/// question asked afterwards answers that the stream is over, and the
/// window stays as the failure left it.
pub proof fn lemma_failure_is_terminal(v: WindowView)
    requires
        window_next(v).0 is Err,
    ensures
        window_next(window_next(v).1) == (Ok::<Split, Error>(Split::End), window_next(v).1),
{
}

/// No value longer than the limit is ever handed out.
pub proof fn lemma_items_within_limit(v: WindowView)
    ensures
        window_next(v).0 matches Ok(Split::Item { start, end }) ==> end - start <= v.limit,
{
}

} // verus!

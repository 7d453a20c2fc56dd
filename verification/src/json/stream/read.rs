//! A sequence of JSON values taken out of a stream of bytes.
//!
//! The bytes arrive from outside, a chunk at a time; the window frames them
//! into values, and each value is read by the ordinary parser, so a
//! streamed document and a slurped one cannot disagree about what JSON
//! means. What is decided here is where the next value is, and whether
//! more bytes are needed before it can be known; fetching them is the
//! caller's part.
use vstd::prelude::*;
use vstd::utf8::valid_utf8;
use core::marker::PhantomData;
use crate::error::{Error, ErrorCode};
use crate::json::parser::Parser;
use crate::json::{document_outcome, finish_document, located, pinned_outcome, read_document};
use crate::text::str_from_utf8;
use crate::json::stream::split::{Mode, Split, Splitter};
use crate::json::stream::window::{spec_buffered, window_next, window_ok, Window, WindowView};
use crate::json::traits::Read;
use crate::options::{Options, Standard};

verus! {

/// Bytes requested per read, and the initial buffer size.
pub const DEFAULT_BUFFER: usize = 65536;

/// Where the next value is, as far as the bytes so far can say.
#[derive(Clone, Copy, Debug, PartialEq, Eq, Structural)]
pub enum Locate {
    /// A complete value occupies `start..end` of the window's bytes.
    Item { start: usize, end: usize },
    /// The stream ended; there are no more values.
    End,
    /// More bytes are needed: this many should be asked for.
    Need(usize),
}

/// A stream turned into a series of JSON values, read under the policy
/// `O`.
///
/// One value is held at a time: the window is compacted as values are
/// consumed, so a stream of a million records costs roughly one record
/// plus one read.
pub struct Documents<O: Options> {
    win: Window,
    chunk: usize,
    options: PhantomData<O>,
}

impl<O: Options> Documents<O> {
    /// The window the values are framed in.
    pub closed spec fn window(&self) -> WindowView {
        self.win@
    }

    /// How many bytes a read asks for.
    pub closed spec fn chunk(&self) -> usize {
        self.chunk
    }

    pub closed spec fn wf(&self) -> bool {
        window_ok(self.win@) && self.chunk >= 1
    }
}

/// The window of a stream nothing has been read from yet.
pub open spec fn fresh_window(mode: Mode) -> WindowView {
    WindowView {
        bytes: Seq::empty(),
        split: crate::json::stream::split::fresh_splitter(mode),
        eof: false,
        limit: usize::MAX,
        origin: 0,
        failed: false,
    }
}

/// A window whose splitter reads comments as whitespace, or does not,
/// with no comment open.
pub open spec fn with_comments(v: WindowView, on: bool) -> WindowView {
    WindowView {
        split: Splitter {
            comments: on,
            comment: crate::json::stream::split::Comment::No,
            scan: crate::json::stream::split::Scanner {
                comment: crate::json::stream::split::Comment::No,
                ..v.split.scan
            },
            ..v.split
        },
        ..v
    }
}

impl Documents<Standard> {
    /// Newline-delimited JSON: one value per line, blank lines ignored.
    pub fn lines() -> (d: Self)
        ensures
            d.wf(),
            d.window().split.mode == Mode::Lines,
            d.window() == fresh_window(Mode::Lines),
            d.chunk() == DEFAULT_BUFFER,
    {
        Self::new(Mode::Lines)
    }

    /// The elements of a single top-level array.
    pub fn array() -> (d: Self)
        ensures
            d.wf(),
            d.window().split.mode == Mode::Array,
            d.window() == fresh_window(Mode::Array),
            d.chunk() == DEFAULT_BUFFER,
    {
        Self::new(Mode::Array)
    }

    /// Whole JSON values one after another, separated by optional
    /// whitespace.
    pub fn values() -> (d: Self)
        ensures
            d.wf(),
            d.window().split.mode == Mode::Values,
            d.window() == fresh_window(Mode::Values),
            d.chunk() == DEFAULT_BUFFER,
    {
        Self::new(Mode::Values)
    }

    /// Build with an explicit [`Mode`].
    pub fn new(mode: Mode) -> (d: Self)
        ensures
            d.wf(),
            d.window().split.mode == mode,
            d.window().bytes == Seq::<u8>::empty(),
            d.window().split.cursor == 0,
            !d.window().eof,
            !d.window().failed,
            d.window().limit == usize::MAX,
            d.window().origin == 0,
            d.window() == fresh_window(mode),
            d.chunk() == DEFAULT_BUFFER,
    {
        let split = Splitter::new(mode);
        Documents { win: Window::new(split, DEFAULT_BUFFER), chunk: DEFAULT_BUFFER, options: PhantomData }
    }
}

impl<O: Options> Documents<O> {
    /// Read every value under the policy `P` instead. The splitter learns
    /// whether comments are read too, since one may hold a brace.
    pub fn with_options<P: Options>(self) -> (d: Documents<P>)
        requires
            self.wf(),
        ensures
            d.wf(),
            d.window().split.comments == P::spec_settings().allow_comments,
            d.window().bytes == self.window().bytes,
            d.window().split.mode == self.window().split.mode,
            d.window().split.cursor == self.window().split.cursor,
            d.window().limit == self.window().limit,
            d.window() == with_comments(self.window(), P::spec_settings().allow_comments),
            d.chunk() == self.chunk(),
    {
        let mut win = self.win;
        win.set_comments(P::settings().allow_comments);
        Documents { win, chunk: self.chunk, options: PhantomData }
    }

    /// Fail rather than buffer more than `bytes` for a single value.
    pub fn max_value(self, bytes: usize) -> (d: Self)
        requires
            self.wf(),
        ensures
            d.wf(),
            d.window() == (WindowView { limit: bytes, ..self.window() }),
            d.chunk() == self.chunk(),
    {
        let mut win = self.win;
        win.set_limit(bytes);
        Documents { win, chunk: self.chunk, options: PhantomData }
    }

    /// How many bytes to request per read; at least one.
    pub fn read_size(self, bytes: usize) -> (d: Self)
        requires
            self.wf(),
        ensures
            d.wf(),
            d.window() == self.window(),
            d.chunk() == (if bytes >= 1 { bytes } else { 1 }),
    {
        Documents { win: self.win, chunk: if bytes >= 1 { bytes } else { 1 }, options: PhantomData }
    }

    /// Bytes taken in but not yet resolved into a value.
    pub fn buffered(&self) -> (n: usize)
        requires
            self.wf(),
        ensures
            n == spec_buffered(self.window()),
    {
        self.win.buffered()
    }

    /// Byte offset in the stream of the next value to be read.
    pub fn offset(&self) -> (n: usize)
        requires
            self.wf(),
        ensures
            n == self.window().origin + self.window().split.cursor,
    {
        self.win.offset()
    }

    /// The bytes taken in that did not become a value; empty once framing
    /// has failed, there being nothing honest to resume from.
    pub fn into_parts(self) -> (r: Vec<u8>)
        requires
            self.wf(),
        ensures
            r@ == (if self.window().failed {
                Seq::empty()
            } else {
                self.window().bytes.subrange(self.window().split.cursor as int, self.window().bytes.len() as int)
            }),
    {
        self.win.into_unread()
    }

    /// Take in bytes that arrived from the stream.
    pub fn push(&mut self, bytes: &[u8])
        requires
            old(self).wf(),
            old(self).window().origin + old(self).window().bytes.len() + bytes@.len() <= usize::MAX,
        ensures
            final(self).wf(),
            final(self).chunk() == old(self).chunk(),
            final(self).window() == (if old(self).window().failed {
                old(self).window()
            } else {
                WindowView { bytes: old(self).window().bytes + bytes@, ..old(self).window() }
            }),
    {
        self.win.extend(bytes);
    }

    /// The stream has no more bytes to give.
    pub fn finish_input(&mut self)
        requires
            old(self).wf(),
        ensures
            final(self).wf(),
            final(self).chunk() == old(self).chunk(),
            final(self).window() == (WindowView { eof: true, ..old(self).window() }),
    {
        self.win.set_eof();
    }

    /// Where the next value is: its span once its bytes have all arrived,
    /// the end of the stream, or how many more bytes to ask for.
    ///
    /// A failure to frame is reported once and ends the stream. Bytes
    /// still wanted after the input has ended cannot come, which is the
    /// input ending early.
    pub fn locate(&mut self) -> (r: Result<Locate, Error>)
        requires
            old(self).wf(),
        ensures
            final(self).wf(),
            final(self).chunk() == old(self).chunk(),
            final(self).window() == window_next(old(self).window()).1,
            match window_next(old(self).window()).0 {
                Err(e) => r == Err::<Locate, Error>(e),
                Ok(Split::Item { start, end }) => r == Ok::<Locate, Error>(Locate::Item { start, end }),
                Ok(Split::End) => r == Ok::<Locate, Error>(Locate::End),
                Ok(Split::Need) => if old(self).window().eof {
                    r == Err::<Locate, Error>(Error {
                        code: ErrorCode::UnexpectedEnd,
                        index: (final(self).window().origin + final(self).window().split.cursor) as usize,
                        key: None,
                    })
                } else {
                    r matches Ok(Locate::Need(n)) && n >= 1
                },
            },
    {
        match self.win.try_next() {
            Err(e) => Err(e),
            Ok(Split::Item { start, end }) => Ok(Locate::Item { start, end }),
            Ok(Split::End) => Ok(Locate::End),
            Ok(Split::Need) => {
                if self.win.is_eof() {
                    Err(Error::new(ErrorCode::UnexpectedEnd, self.win.offset()))
                } else {
                    Ok(Locate::Need(self.win.fill_request(self.chunk)))
                }
            },
        }
    }

    /// Parse the value the splitter located into a fresh `T`, which may
    /// borrow from the window.
    pub fn next_value<'a, T: Read<'a> + Default>(&'a self, start: usize, end: usize) -> (r: Result<T, Error>)
        requires
            self.wf(),
            start <= end <= self.window().bytes.len(),
        ensures
            r matches Err(e) ==> self.window().origin + start <= e.index <= self.window().origin + end,
            !valid_utf8(self.window().bytes.subrange(start as int, end as int)) ==> (r matches Err(e) && e.code
                == ErrorCode::InvalidUtf8),
            valid_utf8(self.window().bytes.subrange(start as int, end as int)) ==> exists|after: Parser<'a, O>, read: Result<(), ErrorCode>|
                read_document(self.window().bytes.subrange(start as int, end as int), 0, after, read is Ok)
                    && #[trigger] located(document_outcome(after, read), self.window().origin + start) == match r {
                        Ok(_) => Ok::<(), Error>(()),
                        Err(e) => Err::<(), Error>(e),
                    },
            valid_utf8(self.window().bytes.subrange(start as int, end as int)) ==> match pinned_outcome::<'a, T>(
                self.window().bytes.subrange(start as int, end as int),
                0,
                O::spec_settings().allow_comments,
            ) {
                Some(Ok(v)) => r matches Ok(x) && x == v,
                Some(Err((code, at))) => r matches Err(e) && e.code == code && e.index == self.window().origin + start + at,
                None => true,
            },
    {
        let mut value = T::default();
        match self.next_value_into(start, end, &mut value) {
            Ok(()) => Ok(value),
            Err(e) => Err(e),
        }
    }

    /// Parse the value the splitter located into one already held, which
    /// keeps the storage it has.
    pub fn next_value_into<'a, T: Read<'a>>(&'a self, start: usize, end: usize, value: &mut T) -> (r: Result<(), Error>)
        requires
            self.wf(),
            start <= end <= self.window().bytes.len(),
        ensures
            r matches Err(e) ==> self.window().origin + start <= e.index <= self.window().origin + end,
            !valid_utf8(self.window().bytes.subrange(start as int, end as int)) ==> (r matches Err(e) && e.code
                == ErrorCode::InvalidUtf8),
            valid_utf8(self.window().bytes.subrange(start as int, end as int)) ==> exists|after: Parser<'a, O>, read: Result<(), ErrorCode>|
                read_document(self.window().bytes.subrange(start as int, end as int), 0, after, read is Ok)
                    && #[trigger] located(document_outcome(after, read), self.window().origin + start) == r,
            valid_utf8(self.window().bytes.subrange(start as int, end as int)) ==> match pinned_outcome::<'a, T>(
                self.window().bytes.subrange(start as int, end as int),
                0,
                O::spec_settings().allow_comments,
            ) {
                Some(Ok(v)) => r is Ok && *final(value) == v,
                Some(Err((code, at))) => r matches Err(e) && e.code == code && e.index == self.window().origin + start + at,
                None => true,
            },
    {
        let bytes = self.win.bytes();
        let span = &bytes[start..end];
        let text = match str_from_utf8(span) {
            Ok(t) => t,
            Err(k) => return Err(self.win.error_at(ErrorCode::InvalidUtf8, start + k)),
        };
        // Every span starts on a non-whitespace byte, so the parser opens
        // directly on the value.
        let mut p: Parser<'a, O> = Parser::with_options(text);
        let ghost before = p;
        let read = p.read(value);
        let ghost after = p;
        proof {
            assert(span@ =~= self.window().bytes.subrange(start as int, end as int));
            assert(T::spec_read(before.input(), before.pos()) matches Some((res, e)) ==> after.pos() == e
                && match res {
                Ok(v) => read is Ok && *value == v,
                Err(x) => read == Err::<(), ErrorCode>(x),
            });
            after.lemma_wf();
            crate::json::parser::lemma_ws_end(after.input(), after.pos(), O::spec_settings().allow_comments);
        }
        let res = match finish_document(&mut p, read) {
            Ok(()) => Ok(()),
            Err(e) => Err(self.win.error_at(e.code, start + e.index)),
        };
        proof {
            assert(span@ =~= self.window().bytes.subrange(start as int, end as int));
            assert(read_document(self.window().bytes.subrange(start as int, end as int), 0, after, read is Ok));
            assert(located(document_outcome(after, read), self.window().origin + start) == res);
        }
        res
    }
}

} // verus!

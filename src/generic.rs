//! A leaf reader that adds buffering to any pull-style byte source.

use vstd::prelude::*;
use crate::reader::{BufferedReader, ReadError, ReaderState, append_bytes};

verus! {

/// How many bytes to ask the source for at a time, unless a request
/// needs more.
pub const DEFAULT_BUF_SIZE: usize = 8192;

/// A blocking source of bytes, such as a file or a socket.
///
/// Implementations are ordinary code that nothing here checks: readers
/// built on a source rely on its `read` keeping the contract below.  An
/// implementation over `std::io::Read` keeps it only as far as that
/// `Read` keeps its own documented bound (it never reports more bytes
/// than the buffer it was given), and should treat a larger count as an
/// error.
pub trait ByteSource {
    /// Reads at most `max` bytes from the source and appends them to
    /// `buf`, returning how many were read.  `Ok(0)` for a positive `max`
    /// means the source has ended; fewer than `max` bytes means only that
    /// no more were ready.
    fn read(&mut self, buf: &mut Vec<u8>, max: usize) -> (r: Result<usize, std::io::Error>)
        ensures
            match r {
                Ok(n) => {
                    &&& n <= max
                    &&& final(buf)@.len() == old(buf)@.len() + n
                    &&& old(buf)@.is_prefix_of(final(buf)@)
                },
                Err(_) => final(buf)@ == old(buf)@,
            },
    ;
}

/// What a buffering leaf does once its source has answered a read.
#[derive(Debug, Clone, Copy, PartialEq, Eq, Structural)]
pub enum FillStep {
    /// The source reported its end: the stream ends with what is buffered.
    Ended,
    /// The request is met.
    Enough,
    /// Some bytes came, not yet enough: ask the source again.
    More,
}

/// The step after the source answered with `count` bytes, `have` bytes
/// being buffered now, for a request of `amount` bytes: a count of zero
/// ends the stream, any other count goes on until `amount` bytes are
/// buffered, however few bytes each read brings.
pub fn fill_step(count: usize, have: usize, amount: usize) -> (r: FillStep)
    ensures
        r == (if count == 0 {
            FillStep::Ended
        } else if have >= amount {
            FillStep::Enough
        } else {
            FillStep::More
        }),
{
    if count == 0 {
        FillStep::Ended
    } else if have >= amount {
        FillStep::Enough
    } else {
        FillStep::More
    }
}

/// Buffers the bytes of a `ByteSource`.
pub struct BufferedReaderGeneric<S: ByteSource> {
    source: S,
    buffer: Vec<u8>,
    cursor: usize,
    chunk_size: usize,
    saw_eof: bool,
    consumed: Ghost<Seq<u8>>,
    failures: Ghost<Seq<std::io::Error>>,
}

impl<S: ByteSource> BufferedReaderGeneric<S> {
    /// Buffers `source`, asking it for `preferred_chunk_size` bytes at a
    /// time (`DEFAULT_BUF_SIZE` if none is given, or if it is zero).
    pub fn new(source: S, preferred_chunk_size: Option<usize>) -> (r: Self)
        ensures
            r.inv(),
            r.state() == (ReaderState { buffer: Seq::empty(), eof: false, consumed: Seq::empty() }),
    {
        let chunk_size = match preferred_chunk_size {
            Some(n) => if n > 0 {
                n
            } else {
                DEFAULT_BUF_SIZE
            },
            None => DEFAULT_BUF_SIZE,
        };
        let r = BufferedReaderGeneric {
            source,
            buffer: Vec::new(),
            cursor: 0,
            chunk_size,
            saw_eof: false,
            consumed: Ghost(Seq::empty()),
            failures: Ghost(Seq::empty()),
        };
        assert(r.buffer@.skip(0) =~= Seq::<u8>::empty());
        r
    }

    /// Gives up the buffer and returns the source.
    pub fn into_source(self) -> S {
        self.source
    }
}

impl<S: ByteSource> BufferedReader for BufferedReaderGeneric<S> {
    closed spec fn inv(&self) -> bool {
        &&& self.cursor <= self.buffer@.len()
        &&& self.chunk_size > 0
    }

    closed spec fn state(&self) -> ReaderState {
        ReaderState {
            buffer: self.buffer@.skip(self.cursor as int),
            eof: self.saw_eof,
            consumed: self.consumed@,
        }
    }

    open spec fn source(&self) -> ReaderState {
        self.state()
    }

    closed spec fn failures(&self) -> Seq<std::io::Error> {
        self.failures@
    }

    fn buffered(&self) -> (r: &[u8]) {
        &self.buffer.as_slice()[self.cursor..self.buffer.len()]
    }

    /// Asks the source for more until `amount` bytes are buffered or the
    /// source ends; fails only where the source reports an error.
    fn data(&mut self, amount: usize) -> (r: Result<&[u8], ReadError>)
        ensures
            r matches Err(e) ==> e is Io,
    {
        let have = self.buffer.len() - self.cursor;
        if amount > have && !self.saw_eof {
            // Keep what is still buffered, then ask the source for more
            // until the request is met or the source ends.
            let ghost before = self.state().buffer;
            let mut fresh: Vec<u8> = Vec::new();
            append_bytes(&mut fresh, &self.buffer.as_slice()[self.cursor..self.buffer.len()]);
            let mut failure: Option<std::io::Error> = None;
            loop
                invariant_except_break
                    failure is None,
                    !self.saw_eof,
                    fresh@.len() < amount,
                invariant
                    before.is_prefix_of(fresh@),
                    self.chunk_size == old(self).chunk_size,
                    self.consumed == old(self).consumed,
                    self.failures == old(self).failures,
                ensures
                    before.is_prefix_of(fresh@),
                    failure is Some ==> !self.saw_eof,
                    failure is None ==> amount <= fresh@.len() || self.saw_eof,
                    self.chunk_size == old(self).chunk_size,
                    self.consumed == old(self).consumed,
                    self.failures == old(self).failures,
                decreases amount - fresh@.len(),
            {
                let missing = amount - fresh.len();
                let want = if missing > self.chunk_size {
                    missing
                } else {
                    self.chunk_size
                };
                match self.source.read(&mut fresh, want) {
                    Ok(n) => match fill_step(n, fresh.len(), amount) {
                        FillStep::Ended => {
                            self.saw_eof = true;
                            break ;
                        },
                        FillStep::Enough => {
                            break ;
                        },
                        FillStep::More => {},
                    },
                    Err(e) => {
                        failure = Some(e);
                        break ;
                    },
                }
            }
            // Bytes read before a failure stay buffered.
            self.buffer = fresh;
            self.cursor = 0;
            assert(self.buffer@.skip(0) =~= self.buffer@);
            match failure {
                Some(e) => {
                    self.failures = Ghost(self.failures@.push(e));
                    return Err(ReadError::Io(e));
                },
                None => {},
            }
        }
        Ok(&self.buffer.as_slice()[self.cursor..self.buffer.len()])
    }

    fn consume(&mut self, amount: usize) -> (r: &[u8]) {
        let start = self.cursor;
        let end = self.buffer.len();
        let ghost before = self.state().buffer;
        let ghost consumed = self.consumed@;
        self.cursor = start + amount;
        self.consumed = Ghost(self.consumed@ + before.take(amount as int));
        assert(self.buffer@.skip(self.cursor as int) =~= before.skip(amount as int));
        assert(consumed + before.take(amount as int) + before.skip(amount as int) =~= consumed
            + before);
        &self.buffer.as_slice()[start..end]
    }
}

} // verus!

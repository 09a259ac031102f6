//! A leaf reader over a byte slice held in memory.

use vstd::prelude::*;
use crate::reader::{BufferedReader, ReadError, ReaderState};

verus! {

/// Reads from a byte slice; the whole stream is buffered from the start.
pub struct BufferedReaderMemory<'a> {
    data: &'a [u8],
    cursor: usize,
}

impl<'a> BufferedReaderMemory<'a> {
    /// A reader positioned at the start of `data`.
    pub fn new(data: &'a [u8]) -> (r: Self)
        ensures
            r.inv(),
            r.state() == (ReaderState { buffer: data@, eof: true, consumed: Seq::empty() }),
    {
        let r = BufferedReaderMemory { data, cursor: 0 };
        assert(r.state().buffer =~= data@);
        assert(r.state().consumed =~= Seq::<u8>::empty());
        r
    }
}

impl<'a> BufferedReader for BufferedReaderMemory<'a> {
    closed spec fn inv(&self) -> bool {
        self.cursor <= self.data@.len()
    }

    closed spec fn state(&self) -> ReaderState {
        ReaderState {
            buffer: self.data@.skip(self.cursor as int),
            eof: true,
            consumed: self.data@.take(self.cursor as int),
        }
    }

    open spec fn source(&self) -> ReaderState {
        self.state()
    }

    open spec fn failures(&self) -> Seq<std::io::Error> {
        Seq::empty()
    }

    fn buffered(&self) -> (r: &[u8]) {
        &self.data[self.cursor..self.data.len()]
    }

    fn data(&mut self, amount: usize) -> (r: Result<&[u8], ReadError>) {
        Ok(&self.data[self.cursor..self.data.len()])
    }

    fn consume(&mut self, amount: usize) -> (r: &[u8]) {
        let start = self.cursor;
        let end = self.data.len();
        assert(self.state().buffer == self.data@.skip(start as int));
        assert(amount <= self.data@.len() - start);
        self.cursor = self.cursor + amount;
        proof {
            assert(self.data@.take(self.cursor as int) =~= self.data@.take(start as int)
                + self.data@.skip(start as int).take(amount as int));
            assert(self.data@.skip(self.cursor as int) =~= self.data@.skip(start as int).skip(
                amount as int,
            ));
            assert(self.data@.take(self.cursor as int) + self.data@.skip(self.cursor as int)
                =~= self.data@.take(start as int) + self.data@.skip(start as int));
        }
        &self.data[start..end]
    }
}

} // verus!

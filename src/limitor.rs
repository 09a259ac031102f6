//! A filter that caps how many bytes can be read from the reader below.

use vstd::prelude::*;
use crate::reader::{
    BufferedReader, ReadError, ReaderState, advanced, append_bytes, clip, error_of, grows,
    lemma_clip_skip, logged, peeked, satisfied,
};

verus! {

/// Limits the number of bytes that can be read from the reader below it.
pub struct BufferedReaderLimitor<T: BufferedReader> {
    reader: T,
    limit: u64,
    start: Ghost<nat>,
    total: Ghost<nat>,
}

/// The bytes delivered, and whether the end is known, when `inner` is
/// read through a limit of `limit` more bytes.  Consumption is the inner
/// reader's: a limitor moves the same cursor.
pub open spec fn limited(inner: ReaderState, limit: nat) -> ReaderState {
    ReaderState {
        buffer: clip(inner.buffer, limit),
        eof: inner.eof || inner.buffer.len() >= limit,
        consumed: inner.consumed,
    }
}

/// `amount`, cut to `limit`.
pub open spec fn clipped(amount: nat, limit: nat) -> nat {
    if amount <= limit {
        amount
    } else {
        limit
    }
}

impl<T: BufferedReader> BufferedReaderLimitor<T> {
    /// Wraps `reader` so that at most `limit` more bytes can be read
    /// through it.
    pub fn new(reader: T, limit: u64) -> (r: Self)
        requires
            reader.inv(),
        ensures
            r.inv(),
            r.inner() == reader,
            r.limit() == limit,
            r.total() == limit,
            r.start() == reader.state().consumed.len(),
            r.state() == limited(reader.state(), limit as nat),
    {
        BufferedReaderLimitor {
            reader,
            limit,
            start: Ghost(reader.state().consumed.len()),
            total: Ghost(limit as nat),
        }
    }

    /// The reader below.
    pub closed spec fn inner(&self) -> T {
        self.reader
    }

    /// How many more bytes may be read.
    pub closed spec fn limit(&self) -> nat {
        self.limit as nat
    }

    /// The limit this reader was made with.
    pub closed spec fn total(&self) -> nat {
        self.total@
    }

    /// How many bytes the reader below had consumed when this one was made.
    pub closed spec fn start(&self) -> nat {
        self.start@
    }

    /// Reads at most `max` bytes through the limit and appends them to
    /// `buf`, returning how many were read; the limit goes down by as many.
    /// Fewer than `max` means this reader's stream ended.
    pub fn read(&mut self, buf: &mut Vec<u8>, max: usize) -> (r: Result<usize, ReadError>)
        requires
            old(self).inv(),
        ensures
            final(self).inv(),
            final(self).total() == old(self).total(),
            final(self).start() == old(self).start(),
            r matches Ok(k) ==> {
                &&& k <= max
                &&& k <= old(self).limit()
                &&& final(self).limit() == old(self).limit() - k
                &&& final(self).inner().state().consumed == old(self).inner().state().consumed
                    + final(buf)@.skip(old(buf)@.len() as int)
                &&& final(buf)@.len() == old(buf)@.len() + k
                &&& old(buf)@.is_prefix_of(final(buf)@)
                &&& k < max ==> final(self).state().eof && final(self).state().buffer.len() == 0
            },
            r is Err ==> final(buf)@ == old(buf)@ && final(self).limit() == old(self).limit()
                && grows(old(self).inner().state(), final(self).inner().state()),
            logged(old(self).failures(), final(self).failures(), error_of(r)),
    {
        let ghost start = buf@;
        let n = match self.data(max) {
            Ok(v) => {
                let n = if v.len() < max {
                    v.len()
                } else {
                    max
                };
                append_bytes(buf, &v[0..n]);
                n
            },
            Err(e) => {
                return Err(e);
            },
        };
        let ghost mid = self.reader.state();
        let ghost limit = self.limit as nat;
        proof {
            lemma_clip_skip(mid.buffer, limit, n as nat);
            assert(buf@.skip(start.len() as int) =~= mid.buffer.take(n as int));
        }
        self.consume(n);
        Ok(n)
    }

    /// Gives up the limit and returns the reader below, positioned where
    /// this one stopped.
    pub fn into_inner(self) -> (r: T)
        ensures
            r == self.inner(),
            self.inv() ==> r.inv(),
    {
        self.reader
    }
}

impl<T: BufferedReader> BufferedReader for BufferedReaderLimitor<T> {
    closed spec fn inv(&self) -> bool {
        &&& self.reader.inv()
        &&& self.start@ <= self.reader.state().consumed.len()
        &&& self.reader.state().consumed.len() - self.start@ + self.limit <= self.total@
    }

    closed spec fn state(&self) -> ReaderState {
        limited(self.reader.state(), self.limit as nat)
    }

    open spec fn source(&self) -> ReaderState {
        self.inner().source()
    }

    open spec fn failures(&self) -> Seq<std::io::Error> {
        self.inner().failures()
    }

    fn buffered(&self) -> (r: &[u8]) {
        let v = self.reader.buffered();
        if v.len() as u64 > self.limit {
            &v[0..self.limit as usize]
        } else {
            v
        }
    }

    /// Asks the reader below for at most the remaining limit, and cuts
    /// its answer to the limit.
    fn data(&mut self, amount: usize) -> (r: Result<&[u8], ReadError>)
        ensures
            final(self).limit() == old(self).limit(),
            final(self).total() == old(self).total(),
            final(self).start() == old(self).start(),
            peeked(
                old(self).inner().state(),
                clipped(amount as nat, old(self).limit()),
                final(self).inner().state(),
            ),
            r matches Ok(v) ==> v@ == clip(final(self).inner().state().buffer, old(self).limit()),
            r is Err ==> !satisfied(
                old(self).inner().state(),
                clipped(amount as nat, old(self).limit()),
            ),
    {
        let amount = if (amount as u64) < self.limit {
            amount
        } else {
            self.limit as usize
        };
        match self.reader.data(amount) {
            Ok(v) => if v.len() as u64 > self.limit {
                Ok(&v[0..self.limit as usize])
            } else {
                Ok(v)
            },
            Err(e) => Err(e),
        }
    }

    /// Consumes from the reader below and lowers the limit by `amount`;
    /// the view keeps the consumed bytes and at most the remaining limit
    /// past them.
    fn consume(&mut self, amount: usize) -> (r: &[u8])
        ensures
            final(self).limit() == old(self).limit() - amount,
            final(self).total() == old(self).total(),
            final(self).start() == old(self).start(),
            advanced(old(self).inner().state(), amount as nat, final(self).inner().state()),
            r@ == clip(old(self).inner().state().buffer, (final(self).limit() + amount) as nat),
    {
        let limit = self.limit;
        let ghost before = self.reader.state();
        self.limit = self.limit - amount as u64;
        let v = self.reader.consume(amount);
        proof {
            lemma_clip_skip(before.buffer, limit as nat, amount as nat);
        }
        if v.len() as u64 > limit {
            &v[0..limit as usize]
        } else {
            v
        }
    }

    /// Fails at once, changing nothing, where `amount` exceeds the limit.
    fn data_hard(&mut self, amount: usize) -> (r: Result<&[u8], ReadError>)
        ensures
            final(self).limit() == old(self).limit(),
            final(self).total() == old(self).total(),
            final(self).start() == old(self).start(),
            peeked(
                old(self).inner().state(),
                clipped(amount as nat, old(self).limit()),
                final(self).inner().state(),
            ),
            r matches Ok(v) ==> v@ == clip(final(self).inner().state().buffer, old(self).limit())
                && amount <= v@.len(),
            amount > old(self).limit() ==> (r matches Err(ReadError::UnexpectedEof)) && *final(self)
                == *old(self),
    {
        if amount as u64 > self.limit {
            return Err(ReadError::UnexpectedEof);
        }
        match self.data(amount) {
            Ok(v) => {
                if v.len() < amount {
                    return Err(ReadError::UnexpectedEof);
                }
            },
            Err(e) => {
                return Err(e);
            },
        }
        Ok(self.buffered())
    }

    /// Peeks at up to `amount` bytes within the limit and consumes as many
    /// of them as are there; the limit goes down by the request, cut to
    /// the limit (more than what was consumed only where the stream ended).
    fn data_consume(&mut self, amount: usize) -> (r: Result<&[u8], ReadError>)
        ensures
            final(self).total() == old(self).total(),
            final(self).start() == old(self).start(),
            r matches Ok(v) ==> {
                let n = if amount <= v@.len() {
                    amount as nat
                } else {
                    v@.len()
                };
                &&& v@.len() <= old(self).limit()
                &&& final(self).limit() == old(self).limit() - clipped(
                    amount as nat,
                    old(self).limit(),
                )
                &&& final(self).inner().state().consumed == old(self).inner().state().consumed
                    + v@.take(n as int)
                &&& n == clipped(amount as nat, old(self).limit()) || final(self).state().eof
            },
            r is Err ==> final(self).limit() == old(self).limit() && grows(
                old(self).inner().state(),
                final(self).inner().state(),
            ),
    {
        let limit = self.limit;
        let want = if (amount as u64) < limit {
            amount
        } else {
            limit as usize
        };
        let n = match self.reader.data(want) {
            Ok(v) => if want <= v.len() {
                want
            } else {
                v.len()
            },
            Err(e) => {
                return Err(e);
            },
        };
        let ghost mid = self.reader.state();
        self.limit = limit - want as u64;
        proof {
            lemma_clip_skip(mid.buffer, limit as nat, n as nat);
            if n < want {
                assert(mid.buffer.skip(n as int) =~= Seq::<u8>::empty());
            }
        }
        let v = self.reader.consume(n);
        if v.len() as u64 > limit {
            Ok(&v[0..limit as usize])
        } else {
            Ok(v)
        }
    }

    /// Fails at once, changing nothing, where `amount` exceeds the limit.
    fn data_consume_hard(&mut self, amount: usize) -> (r: Result<&[u8], ReadError>)
        ensures
            final(self).total() == old(self).total(),
            final(self).start() == old(self).start(),
            amount > old(self).limit() ==> (r matches Err(ReadError::UnexpectedEof)) && *final(self)
                == *old(self),
            r matches Ok(v) ==> {
                &&& amount <= v@.len() <= old(self).limit()
                &&& final(self).limit() == old(self).limit() - amount
                &&& final(self).inner().state().consumed == old(self).inner().state().consumed
                    + v@.take(amount as int)
            },
            r is Err ==> final(self).limit() == old(self).limit() && grows(
                old(self).inner().state(),
                final(self).inner().state(),
            ),
    {
        if amount as u64 > self.limit {
            return Err(ReadError::UnexpectedEof);
        }
        match self.data_hard(amount) {
            Ok(_) => {},
            Err(e) => {
                return Err(e);
            },
        }
        Ok(self.consume(amount))
    }
}

/// At no point has a limitor handed out more than its limit: the bytes
/// consumed through it and those it buffers add up to at most the limit
/// it was made with.
pub proof fn lemma_limitor_bounded<T: BufferedReader>(l: BufferedReaderLimitor<T>)
    requires
        l.inv(),
    ensures
        l.start() <= l.state().consumed.len(),
        l.state().consumed.len() - l.start() + l.state().buffer.len() <= l.total(),
        l.state().consumed.len() - l.start() + l.limit() <= l.total(),
        l.state().buffer.len() <= l.limit(),
{
}

/// After peeling, the reader below has consumed exactly what was consumed
/// through the limitor, and continues with exactly the bytes that the
/// limitor would have delivered next (up to the limit).
pub proof fn lemma_limitor_peel<T: BufferedReader>(l: BufferedReaderLimitor<T>)
    requires
        l.inv(),
    ensures
        l.inner().state().consumed == l.state().consumed,
        l.state().buffer.is_prefix_of(l.inner().state().buffer),
        l.state().buffer == clip(l.inner().state().buffer, l.limit()),
        l.state().buffer.len() < l.limit() ==> l.state().buffer == l.inner().state().buffer
            && l.state().eof == l.inner().state().eof,
{
}

/// Two limitors stacked deliver what one limitor with the tighter of the
/// two limits delivers over the same reader.
pub proof fn lemma_nested_limitors<T: BufferedReader>(
    outer: BufferedReaderLimitor<BufferedReaderLimitor<T>>,
    flat: BufferedReaderLimitor<T>,
)
    requires
        outer.inv(),
        flat.inv(),
        outer.inner().inner() == flat.inner(),
        flat.limit() == clipped(outer.limit(), outer.inner().limit()),
    ensures
        outer.state() == flat.state(),
{
    let s = flat.inner().state().buffer;
    assert(clip(clip(s, outer.inner().limit()), outer.limit()) =~= clip(s, flat.limit()));
}

} // verus!

//! The capability every reader in a stack offers, and the laws that
//! follow from its contract.

use vstd::prelude::*;

verus! {

/// Relies on nothing of `std::io::Error` but its existence: an error of
/// the byte source is carried up the stack unchanged and never looked into.
#[verifier::external_type_specification]
#[verifier::external_body]
pub struct ExIoError(std::io::Error);

/// Why a read failed.
#[derive(Debug)]
pub enum ReadError {
    /// The byte source at the bottom of the stack reported an error.
    Io(std::io::Error),
    /// The stream ended before the required number of bytes.
    UnexpectedEof,
}

/// `s`, cut to at most `n` elements.
pub open spec fn clip(s: Seq<u8>, n: nat) -> Seq<u8> {
    if s.len() <= n {
        s
    } else {
        s.take(n as int)
    }
}

/// What a reader's contract speaks of.
pub struct ReaderState {
    /// The bytes buffered past the cursor: they can be looked at without I/O.
    pub buffer: Seq<u8>,
    /// Whether `buffer` reaches the end of the stream.
    pub eof: bool,
    /// Every byte consumed so far, in order.
    pub consumed: Seq<u8>,
}

/// A buffered reader: a cursor over a byte stream whose upcoming bytes
/// can be looked at before they are consumed.
pub trait BufferedReader: Sized {
    /// The reader's own invariant, which every operation keeps.
    spec fn inv(&self) -> bool;

    /// What the reader holds, in the terms of its contract.
    spec fn state(&self) -> ReaderState;

    /// The state of the reader at the bottom of the stack: this reader,
    /// where it is a leaf.
    spec fn source(&self) -> ReaderState;

    /// Every error the byte source at the bottom of the stack has
    /// reported, in order.
    spec fn failures(&self) -> Seq<std::io::Error>;

    /// The bytes that are buffered now; never performs I/O.
    fn buffered(&self) -> (r: &[u8])
        requires
            self.inv(),
        ensures
            r@ == self.state().buffer,
    ;

    /// Returns the buffer, after making it hold at least `amount` bytes
    /// unless the stream ends first.  The cursor does not move.
    fn data(&mut self, amount: usize) -> (r: Result<&[u8], ReadError>)
        requires
            old(self).inv(),
        ensures
            logged(old(self).failures(), final(self).failures(), error_of(r)),
            keeps_source(old(self).source(), final(self).source()),
            final(self).inv(),
            peeked(old(self).state(), amount as nat, final(self).state()),
            r matches Ok(v) ==> v@ == final(self).state().buffer && satisfied(final(self).state(), amount as nat),
            r is Err ==> !satisfied(old(self).state(), amount as nat),
    ;

    /// Advances the cursor by `amount` bytes, which must be buffered,
    /// and returns the buffer as it was before: the consumed bytes
    /// followed by what is buffered past them.
    fn consume(&mut self, amount: usize) -> (r: &[u8])
        requires
            old(self).inv(),
            amount <= old(self).state().buffer.len(),
        ensures
            final(self).failures() == old(self).failures(),
            keeps_source(old(self).source(), final(self).source()),
            final(self).inv(),
            advanced(old(self).state(), amount as nat, final(self).state()),
            r@ == old(self).state().buffer,
    ;

    /// Like `data`, but fails with `UnexpectedEof` where the stream ends
    /// before `amount` bytes.
    fn data_hard(&mut self, amount: usize) -> (r: Result<&[u8], ReadError>)
        requires
            old(self).inv(),
        ensures
            logged(old(self).failures(), final(self).failures(), error_of(r)),
            keeps_source(old(self).source(), final(self).source()),
            final(self).inv(),
            peeked(old(self).state(), amount as nat, final(self).state()),
            r matches Ok(v) ==> v@ == final(self).state().buffer && amount <= v@.len(),
            amount <= old(self).state().buffer.len() ==> r is Ok,
            old(self).state().eof && old(self).state().buffer.len() < amount ==> r matches Err(
                ReadError::UnexpectedEof,
            ),
    {
        match self.data(amount) {
            Ok(v) => {
                if v.len() < amount {
                    return Err(ReadError::UnexpectedEof);
                }
            },
            Err(e) => {
                return Err(e);
            },
        }
        Ok(self.buffered())
    }

    /// Peeks at up to `amount` bytes and consumes as many of them as are
    /// there; returns the buffer as it was before the consumption.
    fn data_consume(&mut self, amount: usize) -> (r: Result<&[u8], ReadError>)
        requires
            old(self).inv(),
        ensures
            logged(old(self).failures(), final(self).failures(), error_of(r)),
            keeps_source(old(self).source(), final(self).source()),
            final(self).inv(),
            r matches Ok(v) ==> took(
                old(self).state(),
                amount as nat,
                v@,
                final(self).state(),
                if amount <= v@.len() {
                    amount as nat
                } else {
                    v@.len()
                },
            ),
            r is Err ==> grows(old(self).state(), final(self).state()) && !satisfied(old(self).state(), amount as nat),
    {
        let ghost src0 = self.source();
        let n = match self.data(amount) {
            Ok(v) => if amount <= v.len() {
                amount
            } else {
                v.len()
            },
            Err(e) => {
                return Err(e);
            },
        };
        proof {
            lemma_keeps_source_from(src0, self.source());
        }
        Ok(self.consume(n))
    }

    /// Like `data_consume`, but fails with `UnexpectedEof`, consuming
    /// nothing, where the stream ends before `amount` bytes.
    fn data_consume_hard(&mut self, amount: usize) -> (r: Result<&[u8], ReadError>)
        requires
            old(self).inv(),
        ensures
            logged(old(self).failures(), final(self).failures(), error_of(r)),
            keeps_source(old(self).source(), final(self).source()),
            final(self).inv(),
            r matches Ok(v) ==> amount <= v@.len() && took(
                old(self).state(),
                amount as nat,
                v@,
                final(self).state(),
                amount as nat,
            ),
            r is Err ==> grows(old(self).state(), final(self).state()),
            amount <= old(self).state().buffer.len() ==> r is Ok,
            old(self).state().eof && old(self).state().buffer.len() < amount ==> r matches Err(
                ReadError::UnexpectedEof,
            ),
    {
        let ghost src0 = self.source();
        match self.data_hard(amount) {
            Ok(_) => {},
            Err(e) => {
                return Err(e);
            },
        }
        proof {
            lemma_keeps_source_from(src0, self.source());
        }
        Ok(self.consume(amount))
    }
}

/// Reads at most `max` bytes through `reader` and appends them to `buf`,
/// returning how many were read.  Fewer than `max` means the stream ended.
pub fn read_buffered<R: BufferedReader>(reader: &mut R, buf: &mut Vec<u8>, max: usize) -> (r:
    Result<usize, ReadError>)
    requires
        old(reader).inv(),
    ensures
        final(reader).inv(),
        r matches Ok(n) ==> {
            let read = final(buf)@.skip(old(buf)@.len() as int);
            &&& final(buf)@ == old(buf)@ + read
            &&& read.len() == n
            &&& took(
                old(reader).state(),
                max as nat,
                read + final(reader).state().buffer,
                final(reader).state(),
                n as nat,
            )
            &&& n < max ==> final(reader).state().eof && final(reader).state().buffer.len() == 0
        },
        r is Err ==> final(buf)@ == old(buf)@ && grows(old(reader).state(), final(reader).state())
            && !satisfied(old(reader).state(), max as nat),
        keeps_source(old(reader).source(), final(reader).source()),
        logged(old(reader).failures(), final(reader).failures(), error_of(r)),
{
    let ghost src0 = reader.source();
    let ghost start = buf@;
    let n = match reader.data(max) {
        Ok(v) => {
            let n = if v.len() < max {
                v.len()
            } else {
                max
            };
            append_bytes(buf, &v[0..n]);
            n
        },
        Err(e) => {
            return Err(e);
        },
    };
    let ghost mid = reader.state();
    let ghost src1 = reader.source();
    reader.consume(n);
    proof {
        assert(buf@.skip(start.len() as int) =~= mid.buffer.take(n as int));
        assert(mid.buffer =~= mid.buffer.take(n as int) + mid.buffer.skip(n as int));
        lemma_keeps_source_trans(src0, src1, reader.source());
    }
    Ok(n)
}

/// The error of a result, if it is one.
pub open spec fn error_of<T>(r: Result<T, ReadError>) -> Option<ReadError> {
    match r {
        Ok(_) => None,
        Err(e) => Some(e),
    }
}

/// The source's errors grew by exactly the I/O error that came up, if
/// one did: an error of the source reaches the caller unchanged, and no
/// error is passed off as the source's.
pub open spec fn logged(
    before: Seq<std::io::Error>,
    after: Seq<std::io::Error>,
    e: Option<ReadError>,
) -> bool {
    match e {
        Some(ReadError::Io(err)) => after == before.push(err),
        _ => after == before,
    }
}

/// The bottom of a stack only moves forward, and once its end is known
/// it keeps its bytes, consumed or buffered.
pub open spec fn keeps_source(before: ReaderState, after: ReaderState) -> bool {
    &&& before.consumed.is_prefix_of(after.consumed)
    &&& before.eof ==> after.eof && after.consumed + after.buffer == before.consumed
        + before.buffer
}

/// Keeping the source is transitive.
pub proof fn lemma_keeps_source_trans(a: ReaderState, b: ReaderState, c: ReaderState)
    requires
        keeps_source(a, b),
        keeps_source(b, c),
    ensures
        keeps_source(a, c),
{
    assert(c.consumed.take(a.consumed.len() as int) =~= b.consumed.take(
        a.consumed.len() as int,
    ).take(a.consumed.len() as int));
}

/// Whatever keeps the source from `b` on keeps it from `a` on.
pub proof fn lemma_keeps_source_from(a: ReaderState, b: ReaderState)
    requires
        keeps_source(a, b),
    ensures
        forall|c: ReaderState| keeps_source(b, c) ==> #[trigger] keeps_source(a, c),
{
    assert forall|c: ReaderState| keeps_source(b, c) implies #[trigger] keeps_source(a, c) by {
        lemma_keeps_source_trans(a, b, c);
    }
}

/// A request for `amount` bytes can be answered from the buffer alone.
pub open spec fn satisfied(r: ReaderState, amount: nat) -> bool {
    amount <= r.buffer.len() || r.eof
}

/// `after` buffers what `before` did and maybe more, and nothing was
/// consumed in between.
pub open spec fn grows(before: ReaderState, after: ReaderState) -> bool {
    &&& before.buffer.is_prefix_of(after.buffer)
    &&& after.consumed == before.consumed
    &&& before.eof ==> after.eof && after.buffer == before.buffer
}

/// What a peek for `amount` bytes leaves: no byte lost, and no change at
/// all where the buffer already answered the request.
pub open spec fn peeked(before: ReaderState, amount: nat, after: ReaderState) -> bool {
    &&& grows(before, after)
    &&& satisfied(before, amount) ==> after.buffer == before.buffer && after.eof
        == before.eof
}

/// The cursor moved past the first `amount` buffered bytes.
pub open spec fn advanced(before: ReaderState, amount: nat, after: ReaderState) -> bool {
    &&& after.buffer == before.buffer.skip(amount as int)
    &&& after.eof == before.eof
    &&& after.consumed == before.consumed + before.buffer.take(amount as int)
}

/// A peek for `amount` bytes returned `view`, and then the first `n`
/// bytes of it were consumed.
pub open spec fn took(
    before: ReaderState,
    amount: nat,
    view: Seq<u8>,
    after: ReaderState,
    n: nat,
) -> bool {
    &&& n <= view.len()
    &&& before.buffer.is_prefix_of(view)
    &&& satisfied(before, amount) ==> view == before.buffer && after.eof == before.eof
    &&& before.eof ==> after.eof
    &&& amount <= view.len() || after.eof
    &&& after.buffer == view.skip(n as int)
    &&& after.consumed == before.consumed + view.take(n as int)
}

/// Two peeks in a row, the second for no more bytes than the first:
/// the second view is a prefix of the first.
pub proof fn lemma_peek_stable(r0: ReaderState, a: nat, r1: ReaderState, b: nat, r2: ReaderState)
    requires
        peeked(r0, a, r1),
        satisfied(r1, a),
        peeked(r1, b, r2),
        b <= a,
    ensures
        r2.buffer.is_prefix_of(r1.buffer),
{
}

/// After a peek that returned `x` with more than `a` bytes, consuming
/// `a` bytes moves the cursor by exactly `a`, and the next peek starts
/// with `x[a]`.
pub proof fn lemma_consume_fidelity(r1: ReaderState, a: nat, r2: ReaderState, r3: ReaderState)
    requires
        a < r1.buffer.len(),
        advanced(r1, a, r2),
        peeked(r2, 1, r3),
    ensures
        r2.consumed.len() == r1.consumed.len() + a,
        r3.buffer.len() >= 1,
        r3.buffer[0] == r1.buffer[a as int],
{
}

/// Once a peek for `k` bytes came back shorter than `k`, the stream is
/// known to end there: peeking for `k` again changes nothing and
/// returns the same bytes.
pub proof fn lemma_eof_idempotent(r1: ReaderState, k: nat, r2: ReaderState)
    requires
        satisfied(r1, k),
        r1.buffer.len() < k,
        peeked(r1, k, r2),
    ensures
        r1.eof,
        r2.buffer == r1.buffer,
        r2.eof,
{
}

/// Consuming `a` bytes of a clipped sequence is clipping what is left.
pub proof fn lemma_clip_skip(s: Seq<u8>, n: nat, a: nat)
    requires
        a <= n,
        a <= s.len(),
    ensures
        clip(s.skip(a as int), (n - a) as nat) == clip(s, n).skip(a as int),
        clip(s, n).take(a as int) == s.take(a as int),
{
    assert(clip(s.skip(a as int), (n - a) as nat) =~= clip(s, n).skip(a as int));
    assert(clip(s, n).take(a as int) =~= s.take(a as int));
}

/// Dropping a prefix of `s` from `s + t` keeps all of `t`.
pub proof fn lemma_skip_append(s: Seq<u8>, t: Seq<u8>, k: nat)
    requires
        k <= s.len(),
    ensures
        (s + t).skip(k as int) == s.skip(k as int) + t,
{
    assert((s + t).skip(k as int) =~= s.skip(k as int) + t);
}

/// Clipping keeps prefixes.
pub proof fn lemma_clip_prefix(s: Seq<u8>, t: Seq<u8>, n: nat)
    requires
        s.is_prefix_of(t),
    ensures
        clip(s, n).is_prefix_of(clip(t, n)),
{
}

/// Taking `k` bytes and then the clipped rest is clipping the whole.
pub proof fn lemma_clip_split(s: Seq<u8>, n: nat, k: nat)
    requires
        k <= n,
        k <= s.len(),
    ensures
        s.take(k as int) + clip(s.skip(k as int), (n - k) as nat) == clip(s, n),
{
    assert(s.take(k as int) + clip(s.skip(k as int), (n - k) as nat) =~= clip(s, n));
}

/// Appends the bytes of `src` to `dst`.
pub fn append_bytes(dst: &mut Vec<u8>, src: &[u8])
    ensures
        final(dst)@ == old(dst)@ + src@,
{
    let ghost start = dst@;
    let mut i: usize = 0;
    while i < src.len()
        invariant
            i <= src@.len(),
            dst@ == start + src@.take(i as int),
        decreases src@.len() - i,
    {
        dst.push(src[i]);
        i = i + 1;
        assert(dst@ =~= start + src@.take(i as int));
    }
    assert(src@.take(i as int) =~= src@);
}

} // verus!

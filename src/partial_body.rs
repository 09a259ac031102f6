//! A filter that undoes OpenPGP's partial body chunking.

use vstd::prelude::*;
use crate::body_length::{BodyLength, body_length_new_format, header_len, new_format_length};
use crate::reader::{
    BufferedReader, ReadError, ReaderState, advanced, append_bytes, clip, error_of, grows,
    keeps_source, logged,
    lemma_keeps_source_from, lemma_clip_prefix,
    lemma_clip_skip, lemma_clip_split, lemma_skip_append, satisfied,
};

verus! {

/// Presents the payloads of a sequence of partial-body chunks as one
/// stream.  Each chunk but the last is announced by a partial length
/// header; the last by a full length header.
pub struct BufferedReaderPartialBodyFilter<T: BufferedReader> {
    // The reader below.
    reader: T,
    // Bytes of the current chunk that the reader below still holds.
    partial_body_length: u32,
    // Whether the current chunk is the last one.
    last: bool,
    // Bytes already taken from the reader below, for a request that
    // straddled a chunk boundary.
    buffer: Option<Vec<u8>>,
    // How far into `buffer` the cursor is.
    cursor: usize,
    // Every byte consumed through this filter.
    consumed: Ghost<Seq<u8>>,
    // Everything taken from the reader below, split into the payload of
    // each chunk so far and the length headers between them.
    chunks: Ghost<Seq<Seq<u8>>>,
    headers: Ghost<Seq<Seq<u8>>>,
    // How many bytes the reader below had consumed when this filter was
    // made, and how long the first chunk was then.
    start: Ghost<nat>,
    first: Ghost<nat>,
}

/// The payloads of `chunks`, one after the other.
pub open spec fn flatten(chunks: Seq<Seq<u8>>) -> Seq<u8>
    decreases chunks.len(),
{
    if chunks.len() == 0 {
        Seq::empty()
    } else {
        flatten(chunks.drop_last()) + chunks.last()
    }
}

/// The payloads of `chunks` with `headers[i]` between `chunks[i]` and
/// `chunks[i + 1]`.
pub open spec fn framed(chunks: Seq<Seq<u8>>, headers: Seq<Seq<u8>>) -> Seq<u8>
    decreases chunks.len(),
{
    if chunks.len() == 0 {
        Seq::empty()
    } else if chunks.len() == 1 || headers.len() == 0 {
        chunks[0]
    } else {
        framed(chunks.drop_last(), headers.drop_last()) + headers.last() + chunks.last()
    }
}

/// The number of bytes a body length announces.
pub open spec fn announced_len(l: BodyLength) -> nat {
    match l {
        BodyLength::Full(n) => n as nat,
        BodyLength::Partial(n) => n as nat,
        BodyLength::Indeterminate => 0,
    }
}

/// How long chunk `i` is: the first chunk's length was given, the others
/// are announced by the header before them.
pub open spec fn chunk_len(headers: Seq<Seq<u8>>, first: nat, i: int) -> nat {
    if i == 0 {
        first
    } else {
        announced_len(new_format_length(headers[i - 1]))
    }
}

/// `chunks` and `headers` are what a partial body consists of so far: each
/// header is a well-formed new-format header, all but the last announce a
/// partial length, the last announces a full length exactly when `last`
/// holds, each finished chunk has its announced length, and the current
/// chunk lacks `counter` bytes of it.
pub open spec fn well_framed(
    chunks: Seq<Seq<u8>>,
    headers: Seq<Seq<u8>>,
    first: nat,
    counter: nat,
    last: bool,
) -> bool {
    &&& chunks.len() == headers.len() + 1
    &&& forall|i: int|
        0 <= i < headers.len() ==> headers[i].len() >= 1 && #[trigger] headers[i].len()
            == header_len(headers[i][0])
    &&& forall|i: int|
        0 <= i < chunks.len() - 1 ==> #[trigger] chunks[i].len() == chunk_len(headers, first, i)
    &&& chunks.last().len() + counter == chunk_len(headers, first, chunks.len() - 1)
    &&& forall|i: int|
        0 <= i < headers.len() - 1 ==> new_format_length(#[trigger] headers[i]) is Partial
    &&& headers.len() == 0 ==> !last
    &&& headers.len() > 0 ==> (new_format_length(headers.last()) is Full <==> last)
}

/// The payload bytes in `b`, framed bytes that start `counter` bytes
/// before the end of the current chunk, which is the last chunk if `last`
/// holds: the rest of the chunk, then, while `b` holds the whole of the
/// next length header, the payload after it.
pub open spec fn deframe(b: Seq<u8>, counter: nat, last: bool) -> Seq<u8>
    decreases b.len(),
{
    if b.len() <= counter || last {
        clip(b, counter)
    } else {
        let rest = b.skip(counter as int);
        let n = header_len(rest[0]);
        if rest.len() < n {
            b.take(counter as int)
        } else {
            let l = new_format_length(rest.take(n as int));
            b.take(counter as int) + deframe(rest.skip(n as int), announced_len(l), l is Full)
        }
    }
}

/// Whether the framed bytes `b` run to a known end of the payload: the
/// last chunk is wholly in `b`, or `b` ends inside a chunk and the stream
/// ends with it (`eof`), with every length header between them whole.
pub open spec fn deframe_complete(b: Seq<u8>, counter: nat, last: bool, eof: bool) -> bool
    decreases b.len(),
{
    if last && counter <= b.len() {
        true
    } else if b.len() < counter {
        eof
    } else if last {
        false
    } else {
        let rest = b.skip(counter as int);
        if rest.len() == 0 || rest.len() < header_len(rest[0]) {
            false
        } else {
            let n = header_len(rest[0]);
            let l = new_format_length(rest.take(n as int));
            deframe_complete(rest.skip(n as int), announced_len(l), l is Full, eof)
        }
    }
}

/// Taking `k` bytes of the current chunk keeps a known end known.
pub proof fn lemma_complete_take(b: Seq<u8>, counter: nat, last: bool, eof: bool, k: nat)
    requires
        k <= counter,
        k <= b.len(),
    ensures
        deframe_complete(b.skip(k as int), (counter - k) as nat, last, eof) == deframe_complete(
            b,
            counter,
            last,
            eof,
        ),
{
    if counter <= b.len() {
        assert(b.skip(k as int).skip((counter - k) as int) =~= b.skip(counter as int));
    }
}

/// At the end of a chunk that is not the last, a known end lies past a
/// whole length header.
pub proof fn lemma_complete_header(b: Seq<u8>, eof: bool)
    requires
        deframe_complete(b, 0, false, eof),
    ensures
        b.len() >= 1,
        b.len() >= header_len(b[0]),
{
    assert(b.skip(0) =~= b);
}

/// Skipping a whole length header at the end of a chunk.
pub proof fn lemma_complete_skip_header(h: Seq<u8>, b: Seq<u8>, eof: bool)
    requires
        h.len() >= 1,
        h.len() == header_len(h[0]),
    ensures
        deframe_complete(h + b, 0, false, eof) == deframe_complete(
            b,
            announced_len(new_format_length(h)),
            new_format_length(h) is Full,
            eof,
        ),
{
    let hb = h + b;
    assert(hb.skip(0) =~= hb);
    assert(hb[0] == h[0]);
    assert(hb.take(h.len() as int) =~= h);
    assert(hb.skip(h.len() as int) =~= b);
}

/// Buffering more framed bytes only adds payload at the end.
pub proof fn lemma_deframe_monotone(b: Seq<u8>, c: Seq<u8>, counter: nat, last: bool)
    requires
        b.is_prefix_of(c),
    ensures
        deframe(b, counter, last).is_prefix_of(deframe(c, counter, last)),
    decreases b.len(),
{
    if b.len() <= counter || last {
        if c.len() <= counter || last {
        } else {
            assert(clip(b, counter).is_prefix_of(c.take(counter as int)));
        }
    } else {
        let rest = b.skip(counter as int);
        let crest = c.skip(counter as int);
        let n = header_len(rest[0]);
        assert(rest.is_prefix_of(crest));
        assert(rest[0] == crest[0]);
        if rest.len() < n {
        } else {
            assert(rest.take(n as int) =~= crest.take(n as int));
            let l = new_format_length(rest.take(n as int));
            assert(rest.skip(n as int).is_prefix_of(crest.skip(n as int)));
            lemma_deframe_monotone(
                rest.skip(n as int),
                crest.skip(n as int),
                announced_len(l),
                l is Full,
            );
            assert(b.take(counter as int) =~= c.take(counter as int));
        }
    }
}

/// Taking `k` bytes of the current chunk from the front of `b`.
pub proof fn lemma_deframe_take(b: Seq<u8>, counter: nat, last: bool, k: nat)
    requires
        k <= counter,
        k <= b.len(),
    ensures
        b.take(k as int) + deframe(b.skip(k as int), (counter - k) as nat, last) == deframe(
            b,
            counter,
            last,
        ),
{
    let s = b.skip(k as int);
    let c2 = (counter - k) as nat;
    if b.len() <= counter || last {
        assert(b.take(k as int) + clip(s, c2) =~= clip(b, counter));
    } else {
        assert(s.skip(c2 as int) =~= b.skip(counter as int));
        assert(b.take(k as int) + s.take(c2 as int) =~= b.take(counter as int));
    }
}

/// At the end of a chunk that is not the last, a whole length header at
/// the front of `b` is skipped.
pub proof fn lemma_deframe_header(h: Seq<u8>, b: Seq<u8>)
    requires
        h.len() >= 1,
        h.len() == header_len(h[0]),
    ensures
        deframe(h + b, 0, false) == deframe(
            b,
            announced_len(new_format_length(h)),
            new_format_length(h) is Full,
        ),
{
    let hb = h + b;
    assert(hb.skip(0) =~= hb);
    assert(hb[0] == h[0]);
    assert(hb.take(h.len() as int) =~= h);
    assert(hb.skip(h.len() as int) =~= b);
    assert(hb.take(0) =~= Seq::<u8>::empty());
    assert(Seq::<u8>::empty() + deframe(
        b,
        announced_len(new_format_length(h)),
        new_format_length(h) is Full,
    ) =~= deframe(b, announced_len(new_format_length(h)), new_format_length(h) is Full));
}

/// Taking `b` from the current chunk.
pub proof fn lemma_take_payload(
    chunks: Seq<Seq<u8>>,
    headers: Seq<Seq<u8>>,
    first: nat,
    counter: nat,
    last: bool,
    b: Seq<u8>,
)
    requires
        well_framed(chunks, headers, first, counter, last),
        b.len() <= counter,
    ensures
        well_framed(
            chunks.update(chunks.len() - 1, chunks.last() + b),
            headers,
            first,
            (counter - b.len()) as nat,
            last,
        ),
        flatten(chunks.update(chunks.len() - 1, chunks.last() + b)) == flatten(chunks) + b,
        framed(chunks.update(chunks.len() - 1, chunks.last() + b), headers) == framed(
            chunks,
            headers,
        ) + b,
{
    let c2 = chunks.update(chunks.len() - 1, chunks.last() + b);
    assert(c2.drop_last() =~= chunks.drop_last());
    assert(flatten(c2) =~= flatten(chunks) + b);
    if chunks.len() == 1 {
        assert(framed(c2, headers) =~= framed(chunks, headers) + b);
    } else {
        assert(framed(c2, headers) =~= framed(chunks, headers) + b);
    }
    assert forall|i: int| 0 <= i < c2.len() - 1 implies #[trigger] c2[i].len() == chunk_len(
        headers,
        first,
        i,
    ) by {
        assert(c2[i] == chunks[i]);
    }
}

/// Reading the header `h` after a finished chunk starts a new one.
pub proof fn lemma_next_chunk(
    chunks: Seq<Seq<u8>>,
    headers: Seq<Seq<u8>>,
    first: nat,
    h: Seq<u8>,
)
    requires
        well_framed(chunks, headers, first, 0, false),
        h.len() >= 1,
        h.len() == header_len(h[0]),
        !(new_format_length(h) is Indeterminate),
    ensures
        well_framed(
            chunks.push(Seq::empty()),
            headers.push(h),
            first,
            announced_len(new_format_length(h)),
            new_format_length(h) is Full,
        ),
        flatten(chunks.push(Seq::empty())) == flatten(chunks),
        framed(chunks.push(Seq::empty()), headers.push(h)) == framed(chunks, headers) + h,
{
    let c2 = chunks.push(Seq::<u8>::empty());
    let h2 = headers.push(h);
    assert(c2.drop_last() =~= chunks);
    assert(h2.drop_last() =~= headers);
    assert(flatten(c2) =~= flatten(chunks));
    assert(framed(c2, h2) =~= framed(chunks, headers) + h);
    assert forall|i: int| 0 <= i < h2.len() implies h2[i].len() >= 1 && #[trigger] h2[i].len()
        == header_len(h2[i][0]) by {
        if i < headers.len() {
            assert(h2[i] == headers[i]);
        }
    }
    assert forall|i: int| 0 <= i < c2.len() - 1 implies #[trigger] c2[i].len() == chunk_len(
        h2,
        first,
        i,
    ) by {
        if i > 0 {
            assert(h2[i - 1] == headers[i - 1]);
        }
        if i < chunks.len() - 1 {
            assert(c2[i] == chunks[i]);
        }
    }
    assert forall|i: int| 0 <= i < h2.len() - 1 implies new_format_length(
        #[trigger] h2[i],
    ) is Partial by {
        assert(h2[i] == headers[i]);
        if i == headers.len() - 1 {
            assert(headers[i] == headers.last());
            match new_format_length(headers[i]) {
                BodyLength::Indeterminate => {
                    lemma_never_indeterminate(headers[i]);
                },
                _ => {},
            }
        }
    }
}

/// A new-format header never announces an indeterminate length.
pub proof fn lemma_never_indeterminate(h: Seq<u8>)
    ensures
        !(new_format_length(h) is Indeterminate),
{
}

/// Whether the end of the stream is known, given the reader below, the
/// bytes left in the current chunk, and whether it is the last chunk:
/// either the last chunk is wholly buffered below, or the reader below
/// ends inside the chunk.
pub open spec fn chunk_end_known(inner: ReaderState, counter: nat, last: bool) -> bool {
    ||| last && counter <= inner.buffer.len()
    ||| inner.eof && inner.buffer.len() < counter
}

impl<T: BufferedReader> BufferedReaderPartialBodyFilter<T> {
    /// Wraps `reader`, whose first chunk has `partial_body_length` bytes
    /// left; its length header has already been read.
    pub fn new(reader: T, partial_body_length: u32) -> (r: Self)
        requires
            reader.inv(),
        ensures
            r.inv(),
            r.inner() == reader,
            r.counter() == partial_body_length,
            r.first_len() == partial_body_length,
            r.start() == reader.state().consumed.len(),
            !r.is_last(),
            !r.double_buffering(),
            r.held() == Seq::<u8>::empty(),
            r.state() == (ReaderState {
                buffer: clip(reader.state().buffer, partial_body_length as nat),
                eof: chunk_end_known(reader.state(), partial_body_length as nat, false),
                consumed: Seq::empty(),
            }),
    {
        let ghost start = reader.state().consumed.len();
        let r = BufferedReaderPartialBodyFilter {
            reader,
            partial_body_length,
            last: false,
            buffer: None,
            cursor: 0,
            consumed: Ghost(Seq::empty()),
            chunks: Ghost(Seq::empty().push(Seq::empty())),
            headers: Ghost(Seq::empty()),
            start: Ghost(start),
            first: Ghost(partial_body_length as nat),
        };
        proof {
            assert(r.reader.state().consumed.skip(start as int) =~= Seq::<u8>::empty());
            assert(r.chunks@.drop_last() =~= Seq::<Seq<u8>>::empty());
            assert(flatten(Seq::<Seq<u8>>::empty()) == Seq::<u8>::empty());
            assert(flatten(r.chunks@) =~= Seq::<u8>::empty());
        }
        r
    }

    /// The reader below.
    pub closed spec fn inner(&self) -> T {
        self.reader
    }

    /// Bytes of the current chunk not yet taken from the reader below.
    pub closed spec fn counter(&self) -> nat {
        self.partial_body_length as nat
    }

    /// Whether the current chunk is the last.
    pub closed spec fn is_last(&self) -> bool {
        self.last
    }

    /// Whether bytes are held in a buffer of this filter's own.
    pub closed spec fn double_buffering(&self) -> bool {
        self.buffer is Some
    }

    /// The payload taken from the reader below for each chunk so far.
    pub closed spec fn chunks(&self) -> Seq<Seq<u8>> {
        self.chunks@
    }

    /// The length headers read between the chunks.
    pub closed spec fn headers(&self) -> Seq<Seq<u8>> {
        self.headers@
    }

    /// How many bytes the reader below had consumed when the filter was made.
    pub closed spec fn start(&self) -> nat {
        self.start@
    }

    /// The length of the first chunk, as given when the filter was made.
    pub closed spec fn first_len(&self) -> nat {
        self.first@
    }

    /// Bytes taken from the reader below and not yet consumed.
    pub closed spec fn held(&self) -> Seq<u8> {
        match self.buffer {
            Some(b) => b@.skip(self.cursor as int),
            None => Seq::empty(),
        }
    }

    /// What the filter can deliver without reading more below: the bytes it
    /// holds, then the payload in what the reader below has buffered.
    pub open spec fn known(&self) -> Seq<u8> {
        self.held() + deframe(self.inner().state().buffer, self.counter(), self.is_last())
    }

    /// Whether `known()` runs to the end of the payload.
    pub open spec fn ends_known(&self) -> bool {
        deframe_complete(
            self.inner().state().buffer,
            self.counter(),
            self.is_last(),
            self.inner().state().eof,
        )
    }

    /// The record of the chunking agrees with what was taken from the
    /// reader below, of which `held` is not consumed yet.
    closed spec fn tracks(&self, held: Seq<u8>) -> bool {
        &&& self.start@ <= self.reader.state().consumed.len()
        &&& self.reader.state().consumed.skip(self.start@ as int) == framed(
            self.chunks@,
            self.headers@,
        )
        &&& well_framed(
            self.chunks@,
            self.headers@,
            self.first@,
            self.partial_body_length as nat,
            self.last,
        )
        &&& self.consumed@ + held == flatten(self.chunks@)
    }

    /// Whether bytes are held in a buffer of this filter's own, because a
    /// request straddled a chunk boundary.
    pub fn is_double_buffering(&self) -> (r: bool)
        ensures
            r == self.double_buffering(),
    {
        self.buffer.is_some()
    }

    /// Returns the reader below.  What this filter buffered itself, and
    /// where it stood in the chunking, is dropped.
    pub fn into_inner(self) -> (r: T)
        ensures
            r == self.inner(),
            self.inv() ==> r.inv(),
    {
        self.reader
    }

    /// Moves up to `want` bytes of the current chunk from the reader below
    /// to the end of `buf`, and returns how many it moved.  Where the
    /// reader below fails, what it had buffered is moved all the same, and
    /// its error is returned too.
    fn pull(&mut self, buf: &mut Vec<u8>, want: usize) -> (r: (usize, Option<ReadError>))
        requires
            old(self).reader.inv(),
            old(self).tracks(old(buf)@),
            0 < want <= old(self).partial_body_length,
        ensures
            final(self).reader.inv(),
            final(self).tracks(final(buf)@),
            keeps_source(old(self).reader.source(), final(self).reader.source()),
            logged(old(self).reader.failures(), final(self).reader.failures(), r.1),
            final(self).buffer == old(self).buffer,
            final(self).cursor == old(self).cursor,
            final(self).consumed == old(self).consumed,
            final(self).headers == old(self).headers,
            final(self).start == old(self).start,
            final(self).first == old(self).first,
            final(self).last == old(self).last,
            r.0 <= want,
            final(self).partial_body_length == old(self).partial_body_length - r.0,
            final(buf)@.len() == old(buf)@.len() + r.0,
            (old(buf)@ + clip(
                old(self).reader.state().buffer,
                old(self).partial_body_length as nat,
            )).is_prefix_of(
                final(buf)@ + clip(
                    final(self).reader.state().buffer,
                    final(self).partial_body_length as nat,
                ),
            ),
            r.0 == want || final(self).reader.state().buffer.len() == 0,
            r.1 is None && r.0 < want ==> final(self).reader.state().eof,
            (old(buf)@ + deframe(
                old(self).reader.state().buffer,
                old(self).partial_body_length as nat,
                old(self).last,
            )).is_prefix_of(
                final(buf)@ + deframe(
                    final(self).reader.state().buffer,
                    final(self).partial_body_length as nat,
                    final(self).last,
                ),
            ),
            want <= deframe(
                old(self).reader.state().buffer,
                old(self).partial_body_length as nat,
                old(self).last,
            ).len() ==> r.1 is None && r.0 == want,
            deframe_complete(
                old(self).reader.state().buffer,
                old(self).partial_body_length as nat,
                old(self).last,
                old(self).reader.state().eof,
            ) ==> {
                &&& r.1 is None
                &&& old(buf)@ + deframe(
                    old(self).reader.state().buffer,
                    old(self).partial_body_length as nat,
                    old(self).last,
                ) == final(buf)@ + deframe(
                    final(self).reader.state().buffer,
                    final(self).partial_body_length as nat,
                    final(self).last,
                )
                &&& deframe_complete(
                    final(self).reader.state().buffer,
                    final(self).partial_body_length as nat,
                    final(self).last,
                    final(self).reader.state().eof,
                )
            },
            chunk_end_known(
                old(self).reader.state(),
                old(self).partial_body_length as nat,
                old(self).last,
            ) ==> {
                &&& r.1 is None
                &&& old(buf)@ + clip(
                    old(self).reader.state().buffer,
                    old(self).partial_body_length as nat,
                ) == final(buf)@ + clip(
                    final(self).reader.state().buffer,
                    final(self).partial_body_length as nat,
                )
                &&& chunk_end_known(
                    final(self).reader.state(),
                    final(self).partial_body_length as nat,
                    final(self).last,
                )
            },
    {
        let counter = self.partial_body_length;
        let ghost in0 = self.reader.state();
        let mut failure: Option<ReadError> = None;
        match self.reader.data(want) {
            Ok(_) => {},
            Err(e) => {
                failure = Some(e);
            },
        }
        let ghost in1 = self.reader.state();
        proof {
            lemma_keeps_source_from(old(self).reader.source(), self.reader.source());
        }
        let got = self.reader.buffered().len();
        let k = if got < want {
            got
        } else {
            want
        };
        let ghost buf0 = buf@;
        append_bytes(buf, &self.reader.buffered()[0..k]);
        self.reader.consume(k);
        self.partial_body_length = counter - k as u32;
        proof {
            let moved = in1.buffer.take(k as int);
            lemma_take_payload(
                self.chunks@,
                self.headers@,
                self.first@,
                counter as nat,
                self.last,
                moved,
            );
            lemma_skip_append(in1.consumed, moved, self.start@);
        }
        self.chunks = Ghost(
            self.chunks@.update(
                self.chunks@.len() - 1,
                self.chunks@.last() + in1.buffer.take(k as int),
            ),
        );
        proof {
            lemma_clip_prefix(in0.buffer, in1.buffer, counter as nat);
            lemma_clip_split(in1.buffer, counter as nat, k as nat);
            assert(in1.buffer.skip(k as int) == self.reader.state().buffer);
            assert(self.consumed@ + buf@ =~= (self.consumed@ + buf0) + in1.buffer.take(k as int));
            lemma_deframe_monotone(in0.buffer, in1.buffer, counter as nat, self.last);
            lemma_deframe_take(in1.buffer, counter as nat, self.last, k as nat);
            lemma_complete_take(in1.buffer, counter as nat, self.last, in1.eof, k as nat);
            assert(buf@ + deframe(self.reader.state().buffer, self.partial_body_length as nat, self.last)
                =~= buf0 + deframe(in1.buffer, counter as nat, self.last));
        }
        (k, failure)
    }

    /// Fills the filter's own buffer with at least `amount` bytes, reading
    /// length headers as chunks end, unless the stream ends first.
    #[verifier::rlimit(50)]
    fn do_fill_buffer(&mut self, amount: usize) -> (r: Result<(), ReadError>)
        requires
            old(self).inv(),
            amount > old(self).state().buffer.len(),
        ensures
            final(self).inv(),
            final(self).buffer is Some,
            final(self).held().len() <= amount,
            grows(old(self).state(), final(self).state()),
            keeps_source(old(self).source(), final(self).source()),
            logged(old(self).failures(), final(self).failures(), error_of(r)),
            r is Ok ==> satisfied(final(self).state(), amount as nat),
            old(self).state().eof ==> r is Ok,
            ({
                let known = old(self).held() + deframe(
                    old(self).inner().state().buffer,
                    old(self).counter(),
                    old(self).is_last(),
                );
                known.len() >= amount ==> r is Ok && final(self).held() == known.take(
                    amount as int,
                )
            }),
            old(self).ends_known() ==> r is Ok && final(self).held() == clip(
                old(self).known(),
                amount as nat,
            ) && final(self).known() == old(self).known() && final(self).ends_known(),
    {
        let ghost s0 = self.state();
        let ghost src0 = self.reader.source();
        let ghost fail0 = self.reader.failures();
        let ghost known = self.held() + deframe(
            self.reader.state().buffer,
            self.partial_body_length as nat,
            self.last,
        );
        let ghost complete = deframe_complete(
            self.reader.state().buffer,
            self.partial_body_length as nat,
            self.last,
            self.reader.state().eof,
        );
        let mut buf: Vec<u8> = Vec::new();
        match &self.buffer {
            Some(b) => {
                append_bytes(&mut buf, &b.as_slice()[self.cursor..b.len()]);
                assert(buf@ =~= b@.skip(self.cursor as int));
            },
            None => {
                assert(self.consumed@ + buf@ =~= self.consumed@);
                assert(buf@ =~= self.held());
            },
        }
        let mut err: Option<ReadError> = None;
        loop
            invariant_except_break
                buf@.len() < amount,
                err is None,
                self.reader.failures() == fail0,
            invariant
                self.reader.inv(),
                self.buffer == old(self).buffer,
                self.cursor == old(self).cursor,
                self.consumed == old(self).consumed,
                s0 == old(self).state(),
                s0.buffer.len() < amount,
                self.start == old(self).start,
                self.first == old(self).first,
                self.tracks(buf@),
                keeps_source(src0, self.reader.source()),
                complete ==> known == buf@ + deframe(
                    self.reader.state().buffer,
                    self.partial_body_length as nat,
                    self.last,
                ) && deframe_complete(
                    self.reader.state().buffer,
                    self.partial_body_length as nat,
                    self.last,
                    self.reader.state().eof,
                ),
                known.is_prefix_of(
                    buf@ + deframe(
                        self.reader.state().buffer,
                        self.partial_body_length as nat,
                        self.last,
                    ),
                ),
                s0.buffer.is_prefix_of(
                    buf@ + clip(self.reader.state().buffer, self.partial_body_length as nat),
                ),
                s0.eof ==> buf@ + clip(self.reader.state().buffer, self.partial_body_length as nat)
                    == s0.buffer && chunk_end_known(
                    self.reader.state(),
                    self.partial_body_length as nat,
                    self.last,
                ),
            ensures
                logged(fail0, self.reader.failures(), err),
                self.reader.inv(),
                self.buffer == old(self).buffer,
                self.cursor == old(self).cursor,
                self.consumed == old(self).consumed,
                self.start == old(self).start,
                self.first == old(self).first,
                self.tracks(buf@),
                keeps_source(src0, self.reader.source()),
                complete ==> known == buf@ + deframe(
                    self.reader.state().buffer,
                    self.partial_body_length as nat,
                    self.last,
                ) && deframe_complete(
                    self.reader.state().buffer,
                    self.partial_body_length as nat,
                    self.last,
                    self.reader.state().eof,
                ),
                known.is_prefix_of(
                    buf@ + deframe(
                        self.reader.state().buffer,
                        self.partial_body_length as nat,
                        self.last,
                    ),
                ),
                buf@.len() <= amount,
                s0.buffer.is_prefix_of(
                    buf@ + clip(self.reader.state().buffer, self.partial_body_length as nat),
                ),
                buf@.len() == amount || clip(
                    self.reader.state().buffer,
                    self.partial_body_length as nat,
                ).len() == 0,
                err is None ==> buf@.len() == amount || chunk_end_known(
                    self.reader.state(),
                    self.partial_body_length as nat,
                    self.last,
                ),
                s0.eof ==> err is None && buf@ == s0.buffer,
                known.len() >= amount ==> err is None && buf@.len() == amount,
                complete ==> err is None,
            decreases
                2 * (amount - buf@.len()) + (if self.partial_body_length == 0 {
                    1int
                } else {
                    0
                }) + (if self.last {
                    0int
                } else {
                    1
                }),
        {
            proof {
                let d = deframe(
                    self.reader.state().buffer,
                    self.partial_body_length as nat,
                    self.last,
                );
                assert((buf@ + d).len() == buf@.len() + d.len());
            }
            if self.partial_body_length > 0 {
                let counter = self.partial_body_length as usize;
                let space = amount - buf.len();
                let want = if counter < space {
                    counter
                } else {
                    space
                };
                proof {
                    lemma_keeps_source_from(src0, self.reader.source());
                }
                let (k, failure) = self.pull(&mut buf, want);
                if failure.is_some() {
                    err = failure;
                    break ;
                }
                if k < want {
                    // The reader below ended inside the chunk.
                    break ;
                }
            }
            if buf.len() == amount || self.last {
                proof {
                    let pending = clip(self.reader.state().buffer, self.partial_body_length as nat);
                    if pending.len() == 0 {
                        assert(buf@ + pending =~= buf@);
                    }
                    assert((buf@ + pending).len() == buf@.len() + pending.len());
                    let d = deframe(
                        self.reader.state().buffer,
                        self.partial_body_length as nat,
                        self.last,
                    );
                    assert((buf@ + d).len() == buf@.len() + d.len());
                }
                break ;
            }
            // The chunk is used up: read the next length header.
            assert(self.partial_body_length == 0);
            let ghost c0 = self.reader.state().consumed;
            let ghost b0 = self.reader.state().buffer;
            proof {
                lemma_keeps_source_from(src0, self.reader.source());
                let d = deframe(b0, 0, false);
                assert((buf@ + d).len() == buf@.len() + d.len());
                if b0.len() > 0 {
                    assert(b0.skip(0) =~= b0);
                }
                assert(b0.take(0) =~= Seq::<u8>::empty());
                if complete {
                    lemma_complete_header(b0, self.reader.state().eof);
                }
            }
            match body_length_new_format(&mut self.reader) {
                Ok(l) => {
                    match l {
                        BodyLength::Full(len) => {
                            self.last = true;
                            self.partial_body_length = len;
                        },
                        BodyLength::Partial(len) => {
                            self.partial_body_length = len;
                        },
                        // Never announced by a new-format header.
                        BodyLength::Indeterminate => {},
                    }
                    proof {
                        let h = self.reader.state().consumed.skip(c0.len() as int);
                        lemma_next_chunk(self.chunks@, self.headers@, self.first@, h);
                        assert(self.reader.state().consumed =~= c0 + h);
                        lemma_skip_append(c0, h, self.start@);
                        lemma_deframe_monotone(b0, h + self.reader.state().buffer, 0, false);
                        lemma_deframe_header(h, self.reader.state().buffer);
                        lemma_complete_skip_header(
                            h,
                            self.reader.state().buffer,
                            self.reader.state().eof,
                        );
                    }
                    self.chunks = Ghost(self.chunks@.push(Seq::empty()));
                    self.headers = Ghost(
                        self.headers@.push(self.reader.state().consumed.skip(c0.len() as int)),
                    );
                },
                Err(e) => {
                    proof {
                        lemma_deframe_monotone(b0, self.reader.state().buffer, 0, false);
                    }
                    err = Some(e);
                    break ;
                },
            }
        }
        proof {
            if known.len() >= amount {
                assert(known.take(amount as int) =~= buf@);
            }
            if complete {
                let d = deframe(
                    self.reader.state().buffer,
                    self.partial_body_length as nat,
                    self.last,
                );
                if buf@.len() < amount {
                    assert(d.len() == 0);
                    assert(known =~= buf@);
                }
            }
        }
        self.buffer = Some(buf);
        self.cursor = 0;
        proof {
            assert(self.state().buffer =~= buf@);
        }
        match err {
            Some(e) => Err(e),
            None => Ok(()),
        }
    }
}

impl<T: BufferedReader> BufferedReader for BufferedReaderPartialBodyFilter<T> {
    closed spec fn inv(&self) -> bool {
        &&& self.reader.inv()
        &&& match self.buffer {
            Some(b) => self.cursor <= b@.len(),
            None => self.cursor == 0,
        }
        &&& self.tracks(self.held())
    }

    closed spec fn state(&self) -> ReaderState {
        let pending = clip(self.reader.state().buffer, self.partial_body_length as nat);
        ReaderState {
            buffer: match self.buffer {
                Some(b) => b@.skip(self.cursor as int),
                None => pending,
            },
            eof: chunk_end_known(self.reader.state(), self.partial_body_length as nat, self.last)
                && (self.buffer is None || pending.len() == 0),
            consumed: self.consumed@,
        }
    }

    open spec fn source(&self) -> ReaderState {
        self.inner().source()
    }

    open spec fn failures(&self) -> Seq<std::io::Error> {
        self.inner().failures()
    }

    fn buffered(&self) -> (r: &[u8]) {
        match &self.buffer {
            Some(b) => &b.as_slice()[self.cursor..b.len()],
            None => {
                let v = self.reader.buffered();
                if v.len() > self.partial_body_length as usize {
                    &v[0..self.partial_body_length as usize]
                } else {
                    v
                }
            },
        }
    }

    fn data(&mut self, amount: usize) -> (r: Result<&[u8], ReadError>)
        ensures
            !old(self).double_buffering() && (amount <= old(self).counter() || old(self).is_last())
                ==> !final(self).double_buffering() && (r matches Ok(v) ==> v@ == clip(
                final(self).inner().state().buffer,
                old(self).counter(),
            )),
            old(self).known().len() >= amount ==> (r matches Ok(v) && amount <= v@.len()
                && v@.take(amount as int) == old(self).known().take(amount as int)),
            old(self).ends_known() ==> (r matches Ok(v) && v@.is_prefix_of(old(self).known()) && (
            amount <= v@.len() || v@ == old(self).known())),
            old(self).ends_known() ==> final(self).ends_known() && final(self).known() == old(
                self).known(),
            !old(self).double_buffering() && !final(self).double_buffering() ==> final(self).counter()
                == old(self).counter() && final(self).inner().state().consumed == old(self).inner().state().consumed,
            r matches Ok(v) ==> (!final(self).double_buffering() ==> v@.len() <= final(self).counter()),
    {
        let counter = self.partial_body_length as usize;
        let fill = match &self.buffer {
            Some(b) => amount > b.len() - self.cursor,
            None => amount > counter && !self.last,
        };
        if !fill && self.buffer.is_none() {
            // The request ends inside the current chunk, or the chunk
            // is the last: pass it on and cut what comes back.
            let want = if amount <= counter {
                amount
            } else {
                counter
            };
            let ghost in0 = self.reader.state();
            match self.reader.data(want) {
                Ok(v) => {
                    proof {
                        lemma_clip_prefix(in0.buffer, v@, counter as nat);
                    }
                    if v.len() > counter {
                        return Ok(&v[0..counter]);
                    } else {
                        return Ok(v);
                    }
                },
                Err(e) => {
                    return Err(e);
                },
            }
        }
        if fill {
            match self.do_fill_buffer(amount) {
                Ok(()) => {},
                Err(e) => {
                    return Err(e);
                },
            }
        }
        Ok(self.buffered())
    }

    fn consume(&mut self, amount: usize) -> (r: &[u8])
        ensures
            final(self).double_buffering() == old(self).double_buffering(),
            !old(self).double_buffering() ==> final(self).counter() == old(self).counter() - amount
                && advanced(old(self).inner().state(), amount as nat, final(self).inner().state()),
            old(self).double_buffering() ==> final(self).counter() == old(self).counter() && final(self).inner() == old(self).inner(),
            final(self).known() == old(self).known().skip(amount as int),
            final(self).ends_known() == old(self).ends_known(),
    {
        let ghost before = self.state();
        if self.buffer.is_some() {
            let b = self.buffer.as_ref().unwrap();
            let start = self.cursor;
            let end = b.len();
            assert(amount <= end - start);
            self.cursor = start + amount;
            self.consumed = Ghost(self.consumed@ + before.buffer.take(amount as int));
            proof {
                assert(b@.skip(self.cursor as int) =~= b@.skip(start as int).skip(amount as int));
                assert(self.consumed@ + b@.skip(self.cursor as int) =~= old(self).consumed@ + b@.skip(
                    start as int,
                ));
                let d = deframe(
                    self.reader.state().buffer,
                    self.partial_body_length as nat,
                    self.last,
                );
                assert(b@.skip(self.cursor as int) + d =~= (b@.skip(start as int) + d).skip(
                    amount as int,
                ));
            }
            &b.as_slice()[start..end]
        } else {
            let counter = self.partial_body_length;
            let ghost in0 = self.reader.state();
            assert(amount <= counter);
            self.partial_body_length = counter - amount as u32;
            self.consumed = Ghost(self.consumed@ + before.buffer.take(amount as int));
            proof {
                lemma_clip_skip(in0.buffer, counter as nat, amount as nat);
                lemma_take_payload(
                    self.chunks@,
                    self.headers@,
                    self.first@,
                    counter as nat,
                    self.last,
                    before.buffer.take(amount as int),
                );
                lemma_skip_append(in0.consumed, before.buffer.take(amount as int), self.start@);
                lemma_deframe_take(in0.buffer, counter as nat, self.last, amount as nat);
                lemma_complete_take(in0.buffer, counter as nat, self.last, in0.eof, amount as nat);
                let e = Seq::<u8>::empty();
                assert(e + deframe(in0.buffer.skip(amount as int), (counter - amount) as nat, self.last)
                    =~= (e + deframe(in0.buffer, counter as nat, self.last)).skip(amount as int));
            }
            self.chunks = Ghost(
                self.chunks@.update(
                    self.chunks@.len() - 1,
                    self.chunks@.last() + before.buffer.take(amount as int),
                ),
            );
            let v = self.reader.consume(amount);
            if v.len() > counter as usize {
                &v[0..counter as usize]
            } else {
                v
            }
        }
    }

    /// Fails with `UnexpectedEof` where the payload is known to end before
    /// `amount` bytes; what was buffered stays available.
    fn data_hard(&mut self, amount: usize) -> (r: Result<&[u8], ReadError>)
        ensures
            old(self).known().len() >= amount ==> (r matches Ok(v) && amount <= v@.len()
                && v@.take(amount as int) == old(self).known().take(amount as int)),
            old(self).ends_known() ==> final(self).ends_known() && final(self).known() == old(
                self).known(),
            old(self).ends_known() && old(self).known().len() < amount ==> r matches Err(
                ReadError::UnexpectedEof,
            ),
            old(self).ends_known() ==> (r matches Ok(v) ==> v@.is_prefix_of(old(self).known())),
    {
        match self.data(amount) {
            Ok(v) => {
                if v.len() < amount {
                    return Err(ReadError::UnexpectedEof);
                }
            },
            Err(e) => {
                return Err(e);
            },
        }
        Ok(self.buffered())
    }

    /// Fails with `UnexpectedEof`, consuming nothing, where the payload is
    /// known to end before `amount` bytes.
    fn data_consume_hard(&mut self, amount: usize) -> (r: Result<&[u8], ReadError>)
        ensures
            old(self).known().len() >= amount ==> (r matches Ok(v) && amount <= v@.len()
                && v@.take(amount as int) == old(self).known().take(amount as int)),
            old(self).ends_known() && amount <= old(self).known().len() ==> final(self).ends_known()
                && final(self).known() == old(self).known().skip(amount as int),
            old(self).ends_known() && old(self).known().len() < amount ==> (r matches Err(
                ReadError::UnexpectedEof,
            )) && final(self).ends_known() && final(self).known() == old(self).known(),
            old(self).ends_known() ==> (r matches Ok(v) ==> v@.is_prefix_of(old(self).known())),
    {
        match self.data_hard(amount) {
            Ok(_) => {},
            Err(e) => {
                return Err(e);
            },
        }
        Ok(self.consume(amount))
    }

    fn data_consume(&mut self, amount: usize) -> (r: Result<&[u8], ReadError>)
        ensures
            !old(self).double_buffering() && (amount <= old(self).counter() || old(self).is_last())
                ==> !final(self).double_buffering(),
            old(self).known().len() >= amount ==> (r matches Ok(v) && amount <= v@.len()
                && v@.take(amount as int) == old(self).known().take(amount as int)),
            old(self).ends_known() ==> (r matches Ok(v) && v@.is_prefix_of(old(self).known()) && (
            amount <= v@.len() || v@ == old(self).known())),
            old(self).ends_known() ==> final(self).ends_known() && (r matches Ok(v) && final(
                self).known() == old(self).known().skip(
                if amount <= v@.len() {
                    amount as int
                } else {
                    v@.len() as int
                },
            )),
            r matches Ok(v) ==> (!old(self).double_buffering() && (amount <= old(self).counter()
                || old(self).is_last()) ==> {
                let n = if amount <= v@.len() {
                    amount as nat
                } else {
                    v@.len()
                };
                &&& v@.len() <= old(self).counter()
                &&& final(self).counter() == old(self).counter() - n
                &&& final(self).inner().state().consumed == old(self).inner().state().consumed
                    + v@.take(n as int)
            }),
    {
        let n = match self.data(amount) {
            Ok(v) => if amount <= v.len() {
                amount
            } else {
                v.len()
            },
            Err(e) => {
                return Err(e);
            },
        };
        Ok(self.consume(n))
    }
}

/// What the filter has taken from the reader below is the payload of
/// each chunk with the length headers between them, each finished chunk
/// as long as its header announced; and the bytes the filter delivered,
/// followed by those it holds for delivery, are exactly those payloads,
/// one after the other.
pub proof fn lemma_concatenation<T: BufferedReader>(f: BufferedReaderPartialBodyFilter<T>)
    requires
        f.inv(),
    ensures
        well_framed(f.chunks(), f.headers(), f.first_len(), f.counter(), f.is_last()),
        f.start() <= f.inner().state().consumed.len(),
        f.inner().state().consumed.skip(f.start() as int) == framed(f.chunks(), f.headers()),
        f.state().consumed + f.held() == flatten(f.chunks()),
{
    if f.buffer is None {
        assert(f.state().consumed + f.held() =~= f.state().consumed);
    }
}

/// Where the filter holds no buffer of its own, the reader below, once
/// peeled, starts with the filter's bytes: up to the end of the current
/// chunk they are the same.
pub proof fn lemma_partial_body_peel<T: BufferedReader>(f: BufferedReaderPartialBodyFilter<T>)
    requires
        f.inv(),
        !f.double_buffering(),
    ensures
        f.state().buffer == clip(f.inner().state().buffer, f.counter()),
        f.state().buffer.is_prefix_of(f.inner().state().buffer),
{
}

/// The filter's buffered bytes are the start of what it knows it can
/// deliver without reading more below.
pub proof fn lemma_buffer_in_known<T: BufferedReader>(f: BufferedReaderPartialBodyFilter<T>)
    requires
        f.inv(),
    ensures
        f.state().buffer.is_prefix_of(f.known()),
{
    let b = f.inner().state().buffer;
    let c = f.counter();
    if f.buffer is None {
        let d = deframe(b, c, f.is_last());
        if !(b.len() <= c || f.is_last()) {
            assert(clip(b, c) =~= b.take(c as int));
        }
        assert(f.known() =~= d);
        assert(clip(b, c).is_prefix_of(d));
    }
}

} // verus!

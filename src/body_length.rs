//! OpenPGP's new-format packet body length headers.

use vstd::prelude::*;
use crate::reader::{
    BufferedReader, ReadError, ReaderState, error_of, grows, keeps_source,
    lemma_keeps_source_from, logged,
};

verus! {

/// The length of a packet body, as a length header announces it.
#[derive(Debug, Clone, Copy, PartialEq, Eq, Structural)]
pub enum BodyLength {
    /// The body has this many bytes, and nothing follows it.
    Full(u32),
    /// A chunk of this many bytes follows, and then another length header.
    Partial(u32),
    /// The body runs to the end of the stream (old format only).
    Indeterminate,
}

/// How many bytes a new-format length header takes, given its first byte.
pub open spec fn header_len(b0: u8) -> nat {
    if b0 < 192 {
        1
    } else if b0 < 224 {
        2
    } else if b0 < 255 {
        1
    } else {
        5
    }
}

/// The length that the new-format header at the start of `h` announces.
pub open spec fn new_format_length(h: Seq<u8>) -> BodyLength
    recommends
        h.len() >= 1,
        h.len() >= header_len(h[0]),
{
    let b0 = h[0];
    if b0 < 192 {
        BodyLength::Full(b0 as u32)
    } else if b0 < 224 {
        BodyLength::Full(((b0 - 192) * 256 + h[1] + 192) as u32)
    } else if b0 < 255 {
        BodyLength::Partial(1u32 << ((b0 & 0x1f) as u32))
    } else {
        BodyLength::Full(
            ((h[1] as u32) << 24u32) | ((h[2] as u32) << 16u32) | ((h[3] as u32) << 8u32) | (
            h[4] as u32),
        )
    }
}

/// `after` results from reading the header `h` off `before`, and the
/// header announces `len`.
pub open spec fn read_header(before: ReaderState, after: ReaderState, len: BodyLength) -> bool {
    let h = after.consumed.skip(before.consumed.len() as int);
    &&& before.consumed.is_prefix_of(after.consumed)
    &&& h.len() >= 1
    &&& h.len() == header_len(h[0])
    &&& new_format_length(h) == len
    &&& before.buffer.is_prefix_of(h + after.buffer)
}

/// How many bytes a new-format length header takes, given its first byte.
pub fn header_size(b0: u8) -> (r: usize)
    ensures
        r == header_len(b0),
{
    if b0 < 192 {
        1
    } else if b0 < 224 {
        2
    } else if b0 < 255 {
        1
    } else {
        5
    }
}

/// Decodes the new-format length header at the start of `h`.
pub fn decode_new_format(h: &[u8]) -> (r: BodyLength)
    requires
        h@.len() >= 1,
        h@.len() >= header_len(h@[0]),
    ensures
        r == new_format_length(h@),
        !(r is Indeterminate),
        r matches BodyLength::Partial(l) ==> l >= 1,
{
    let b0 = h[0];
    if b0 < 192 {
        BodyLength::Full(b0 as u32)
    } else if b0 < 224 {
        BodyLength::Full((b0 as u32 - 192) * 256 + h[1] as u32 + 192)
    } else if b0 < 255 {
        let e = (b0 & 0x1f) as u32;
        assert(e < 32) by (bit_vector)
            requires
                e == (b0 & 0x1f) as u32,
        ;
        assert(1u32 << e >= 1) by (bit_vector)
            requires
                e < 32,
        ;
        BodyLength::Partial(1u32 << e)
    } else {
        BodyLength::Full(
            ((h[1] as u32) << 24u32) | ((h[2] as u32) << 16u32) | ((h[3] as u32) << 8u32) | (
            h[4] as u32),
        )
    }
}

/// Reads one new-format length header from `reader` and consumes it.
/// Where the whole header is buffered this succeeds; where the stream is
/// known to end before the header does, it fails with `UnexpectedEof`.
/// On failure nothing is consumed.  A new-format header never announces
/// an indeterminate length.
pub fn body_length_new_format<R: BufferedReader>(reader: &mut R) -> (r: Result<
    BodyLength,
    ReadError,
>)
    requires
        old(reader).inv(),
    ensures
        final(reader).inv(),
        r matches Ok(l) ==> read_header(old(reader).state(), final(reader).state(), l),
        r is Err ==> grows(old(reader).state(), final(reader).state()),
        !(r matches Ok(BodyLength::Indeterminate)),
        r matches Ok(BodyLength::Partial(l)) ==> l >= 1,
        keeps_source(old(reader).source(), final(reader).source()),
        logged(old(reader).failures(), final(reader).failures(), error_of(r)),
        ({
            let b = old(reader).state().buffer;
            b.len() >= 1 && b.len() >= header_len(b[0])
        }) ==> r is Ok && old(reader).state().buffer == final(reader).state().consumed.skip(
            old(reader).state().consumed.len() as int,
        ) + final(reader).state().buffer && final(reader).state().eof == old(reader).state().eof,
        ({
            let b = old(reader).state().buffer;
            old(reader).state().eof && (b.len() == 0 || b.len() < header_len(b[0]))
        }) ==> r matches Err(ReadError::UnexpectedEof),
{
    let ghost s0 = reader.state();
    let ghost src0 = reader.source();
    let b0 = match reader.data_hard(1) {
        Ok(v) => v[0],
        Err(e) => {
            return Err(e);
        },
    };
    let ghost s1 = reader.state();
    proof {
        lemma_keeps_source_from(src0, reader.source());
    }
    let ghost src1 = reader.source();
    let n = header_size(b0);
    let len = match reader.data_hard(n) {
        Ok(v) => decode_new_format(v),
        Err(e) => {
            return Err(e);
        },
    };
    let ghost s2 = reader.state();
    proof {
        lemma_keeps_source_from(src1, reader.source());
        lemma_keeps_source_from(src0, reader.source());
    }
    assert(s2.buffer[0] == b0);
    assert(new_format_length(s2.buffer) == new_format_length(s2.buffer.take(n as int)));
    reader.consume(n);
    proof {
        let s3 = reader.state();
        assert(s3.consumed.skip(s0.consumed.len() as int) =~= s2.buffer.take(n as int));
        assert(s2.buffer =~= s2.buffer.take(n as int) + s3.buffer);
    }
    Ok(len)
}

} // verus!

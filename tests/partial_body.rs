use buffered_reader::body_length::{body_length_new_format, decode_new_format, BodyLength};
use buffered_reader::memory::BufferedReaderMemory;
use buffered_reader::partial_body::BufferedReaderPartialBodyFilter;
use buffered_reader::reader::{BufferedReader, ReadError};

fn drain<R: BufferedReader>(r: &mut R) -> Vec<u8> {
    let mut out = Vec::new();
    loop {
        let v = r.data_consume(3).unwrap();
        let n = v.len().min(3);
        if n == 0 {
            return out;
        }
        out.extend_from_slice(&v[..n]);
    }
}

#[test]
fn partial_body_single_chunk() {
    // Ten payload bytes, then a full length header announcing zero more.
    let source: &[u8] = b"0123456789\x00";
    let mut f = BufferedReaderPartialBodyFilter::new(BufferedReaderMemory::new(source), 10);
    assert_eq!(f.data_consume_hard(10).unwrap(), &b"0123456789"[..]);
    assert_eq!(f.data(1).unwrap(), &b""[..]);
}

#[test]
fn partial_body_crossing_a_boundary() {
    let source: &[u8] = b"abcd\x06efghij";
    let mut f = BufferedReaderPartialBodyFilter::new(BufferedReaderMemory::new(source), 4);
    let v = f.data_consume(10).unwrap();
    assert_eq!(v, &b"abcdefghij"[..]);
    assert_eq!(f.data(1).unwrap(), &b""[..]);
}

#[test]
fn partial_body_hard_shortfall() {
    let source: &[u8] = b"abcd\x06efg";
    let mut f = BufferedReaderPartialBodyFilter::new(BufferedReaderMemory::new(source), 4);
    assert!(matches!(f.data_consume_hard(10), Err(ReadError::UnexpectedEof)));
    assert_eq!(f.data(7).unwrap(), &b"abcdefg"[..]);
}

#[test]
fn partial_body_concatenates_payloads() {
    // A chunk of 4, a partial chunk of 2, a partial chunk of 1, and a last
    // chunk of 3; what follows belongs to the next packet.
    let source: &[u8] = b"abcd\xe1ef\xe0g\x03hijXYZ";
    let mut f = BufferedReaderPartialBodyFilter::new(BufferedReaderMemory::new(source), 4);
    assert_eq!(drain(&mut f), b"abcdefghij".to_vec());
    let mut inner = f.into_inner();
    assert_eq!(inner.data(3).unwrap(), &b"XYZ"[..]);
}

#[test]
fn partial_body_within_chunk_needs_no_buffer() {
    let source: &[u8] = b"abcdefgh\x02ij";
    let mut f = BufferedReaderPartialBodyFilter::new(BufferedReaderMemory::new(source), 8);
    assert_eq!(f.data_consume(5).unwrap(), &b"abcdefgh"[..]);
    assert!(!f.is_double_buffering());
    assert_eq!(f.data_consume(3).unwrap(), &b"fgh"[..]);
    assert!(!f.is_double_buffering());
    assert_eq!(f.data_consume(2).unwrap(), &b"ij"[..]);
    assert!(f.is_double_buffering());
}

#[test]
fn partial_body_peel_keeps_the_rest_of_the_chunk() {
    let source: &[u8] = b"abcdefgh\x02ij";
    let mut f = BufferedReaderPartialBodyFilter::new(BufferedReaderMemory::new(source), 8);
    f.data_consume(3).unwrap();
    let mut inner = f.into_inner();
    assert_eq!(inner.data(5).unwrap(), &b"defgh\x02ij"[..]);
}

#[test]
fn partial_body_consume_clips_to_chunk() {
    let source: &[u8] = b"abcd\x02ef";
    let mut f = BufferedReaderPartialBodyFilter::new(BufferedReaderMemory::new(source), 4);
    assert_eq!(f.data(2).unwrap(), &b"abcd"[..]);
    assert_eq!(f.consume(2), &b"abcd"[..]);
    assert_eq!(f.data(2).unwrap(), &b"cd"[..]);
}

#[test]
fn partial_body_bad_header_is_an_error() {
    // The stream ends where the next length header should be.
    let source: &[u8] = b"abcd";
    let mut f = BufferedReaderPartialBodyFilter::new(BufferedReaderMemory::new(source), 4);
    assert!(matches!(f.data(6), Err(ReadError::UnexpectedEof)));
    assert_eq!(f.data(4).unwrap(), &b"abcd"[..]);
}

#[test]
fn decode_each_header_form() {
    assert_eq!(decode_new_format(&[100]), BodyLength::Full(100));
    assert_eq!(decode_new_format(&[191]), BodyLength::Full(191));
    assert_eq!(decode_new_format(&[192, 0]), BodyLength::Full(192));
    assert_eq!(decode_new_format(&[0xc5, 0xfb]), BodyLength::Full(1723));
    assert_eq!(decode_new_format(&[0xdf, 0xff]), BodyLength::Full(8383));
    assert_eq!(decode_new_format(&[0xe0]), BodyLength::Partial(1));
    assert_eq!(decode_new_format(&[0xe2]), BodyLength::Partial(4));
    assert_eq!(decode_new_format(&[0xfe]), BodyLength::Partial(1 << 30));
    assert_eq!(decode_new_format(&[0xff, 0, 0, 1, 0]), BodyLength::Full(256));
    assert_eq!(decode_new_format(&[0xff, 0x12, 0x34, 0x56, 0x78]), BodyLength::Full(0x12345678));
}

#[test]
fn body_length_reader_consumes_the_header() {
    let source: &[u8] = b"\xc5\xfbrest";
    let mut r = BufferedReaderMemory::new(source);
    assert_eq!(body_length_new_format(&mut r).unwrap(), BodyLength::Full(1723));
    assert_eq!(r.data(4).unwrap(), &b"rest"[..]);
    let mut short = BufferedReaderMemory::new(b"\xff\x00\x01");
    assert!(matches!(body_length_new_format(&mut short), Err(ReadError::UnexpectedEof)));
    assert_eq!(short.data(3).unwrap(), &b"\xff\x00\x01"[..]);
}

#[test]
fn partial_body_long_headers() {
    // A chunk of 2, then a five-byte full length header announcing 3.
    let source: &[u8] = b"ab\xff\x00\x00\x00\x03cdeZ";
    let mut f = BufferedReaderPartialBodyFilter::new(BufferedReaderMemory::new(source), 2);
    assert_eq!(drain(&mut f), b"abcde".to_vec());
    // A chunk of 1, then a two-byte header announcing 192.
    let mut long = b"a\xc0\x00".to_vec();
    long.extend(std::iter::repeat(b'q').take(192));
    let mut f = BufferedReaderPartialBodyFilter::new(BufferedReaderMemory::new(&long), 1);
    let v = f.data_consume_hard(193).unwrap();
    assert_eq!(v.len(), 193);
    assert_eq!(v[0], b'a');
    assert!(v[1..].iter().all(|&b| b == b'q'));
}

#[test]
fn partial_body_empty_first_chunk() {
    let source: &[u8] = b"\x02xy";
    let mut f = BufferedReaderPartialBodyFilter::new(BufferedReaderMemory::new(source), 0);
    assert_eq!(f.data(0).unwrap(), &b""[..]);
    assert_eq!(f.data(2).unwrap(), &b"xy"[..]);
    assert_eq!(f.data_consume(5).unwrap(), &b"xy"[..]);
    assert_eq!(f.data(1).unwrap(), &b""[..]);
}

#[test]
fn partial_body_last_chunk_passes_through() {
    // Within the chunk the filter passes requests on and cuts the view at
    // the chunk's end, with no buffer of its own.
    let mut f = BufferedReaderPartialBodyFilter::new(BufferedReaderMemory::new(b"abcXYZ"), 3);
    assert_eq!(f.data_consume(2).unwrap(), &b"abc"[..]);
    assert!(!f.is_double_buffering());
    assert_eq!(f.data(1).unwrap(), &b"c"[..]);
    assert!(!f.is_double_buffering());
}

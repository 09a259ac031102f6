use buffered_reader::generic::{fill_step, BufferedReaderGeneric, ByteSource, FillStep};
use buffered_reader::memory::BufferedReaderMemory;
use buffered_reader::reader::{read_buffered, BufferedReader, ReadError};

/// Hands out one byte per call.
struct Trickle {
    data: Vec<u8>,
    pos: usize,
}

impl ByteSource for Trickle {
    fn read(&mut self, buf: &mut Vec<u8>, max: usize) -> Result<usize, std::io::Error> {
        if max == 0 || self.pos >= self.data.len() {
            return Ok(0);
        }
        buf.push(self.data[self.pos]);
        self.pos += 1;
        Ok(1)
    }
}

/// Hands out a few bytes, then fails.
struct Failing {
    left: usize,
}

impl ByteSource for Failing {
    fn read(&mut self, buf: &mut Vec<u8>, max: usize) -> Result<usize, std::io::Error> {
        if self.left == 0 || max == 0 {
            return Err(std::io::Error::new(std::io::ErrorKind::Other, "broken"));
        }
        buf.push(b'x');
        self.left -= 1;
        Ok(1)
    }
}

fn trickle(data: &[u8]) -> BufferedReaderGeneric<Trickle> {
    BufferedReaderGeneric::new(Trickle { data: data.to_vec(), pos: 0 }, None)
}

#[test]
fn short_reads_are_retried_until_enough() {
    let mut r = trickle(b"0123456789");
    assert_eq!(r.data(4).unwrap(), &b"0123"[..]);
    assert_eq!(r.data_consume(6).unwrap(), &b"012345"[..]);
    assert_eq!(r.data(100).unwrap(), &b"6789"[..]);
    assert_eq!(r.data(100).unwrap(), &b"6789"[..]);
}

#[test]
fn peek_is_stable() {
    let mut r = trickle(b"abcdefgh");
    let x = r.data(5).unwrap().to_vec();
    let y = r.data(2).unwrap().to_vec();
    assert!(x.starts_with(&y));
    let mut m = BufferedReaderMemory::new(b"abcdefgh");
    let x = m.data(5).unwrap().to_vec();
    let y = m.data(2).unwrap().to_vec();
    assert!(x.starts_with(&y));
}

#[test]
fn consume_moves_the_cursor_exactly() {
    let mut r = trickle(b"abcdefgh");
    let x = r.data(5).unwrap().to_vec();
    assert_eq!(r.consume(3), &x[..]);
    assert_eq!(r.data(1).unwrap()[0], x[3]);
}

#[test]
fn end_of_stream_is_idempotent() {
    let mut r = trickle(b"abc");
    let x = r.data(10).unwrap().to_vec();
    assert_eq!(x, b"abc".to_vec());
    assert_eq!(r.data(10).unwrap(), &x[..]);
    assert_eq!(r.data(10).unwrap(), &x[..]);
}

#[test]
fn hard_variants_report_unexpected_eof() {
    let mut r = trickle(b"abc");
    assert!(matches!(r.data_hard(4), Err(ReadError::UnexpectedEof)));
    assert!(matches!(r.data_consume_hard(4), Err(ReadError::UnexpectedEof)));
    assert_eq!(r.data_consume_hard(2).unwrap(), &b"abc"[..]);
    assert_eq!(r.data_hard(1).unwrap(), &b"c"[..]);
}

#[test]
fn source_errors_propagate_and_keep_bytes() {
    let mut r = BufferedReaderGeneric::new(Failing { left: 3 }, Some(2));
    assert!(matches!(r.data(5), Err(ReadError::Io(_))));
    assert_eq!(r.data(3).unwrap(), &b"xxx"[..]);
}

#[test]
fn read_buffered_serves_in_chunks() {
    let mut r = BufferedReaderMemory::new(b"0123456789");
    let mut out = Vec::new();
    assert_eq!(read_buffered(&mut r, &mut out, 4).unwrap(), 4);
    assert_eq!(read_buffered(&mut r, &mut out, 4).unwrap(), 4);
    assert_eq!(read_buffered(&mut r, &mut out, 4).unwrap(), 2);
    assert_eq!(read_buffered(&mut r, &mut out, 4).unwrap(), 0);
    assert_eq!(out, b"0123456789".to_vec());
}

#[test]
fn fill_step_decides_by_count() {
    assert_eq!(fill_step(0, 3, 10), FillStep::Ended);
    assert_eq!(fill_step(1, 3, 10), FillStep::More);
    assert_eq!(fill_step(1, 10, 10), FillStep::Enough);
    assert_eq!(fill_step(5, 12, 10), FillStep::Enough);
}

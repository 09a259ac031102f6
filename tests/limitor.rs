use buffered_reader::limitor::BufferedReaderLimitor;
use buffered_reader::memory::BufferedReaderMemory;
use buffered_reader::reader::{BufferedReader, ReadError};

#[test]
fn buffered_reader_limitor_test() {
    let data: &[u8] = b"01234567890123456789";

    /* Add a single limitor.  */
    {
        let bio = BufferedReaderMemory::new(data);

        let mut bio = {
            let mut bio2 = BufferedReaderLimitor::new(bio, 5);
            {
                let result = bio2.data(5).unwrap();
                assert_eq!(result.len(), 5);
                assert_eq!(result, &b"01234"[..]);
            }
            bio2.consume(5);
            {
                let result = bio2.data(1).unwrap();
                assert_eq!(result.len(), 0);
                assert_eq!(result, &b""[..]);
            }

            bio2.into_inner()
        };

        {
            {
                let result = bio.data(15).unwrap();
                assert_eq!(result.len(), 15);
                assert_eq!(result, &b"567890123456789"[..]);
            }
            bio.consume(15);
            {
                let result = bio.data(1).unwrap();
                assert_eq!(result.len(), 0);
                assert_eq!(result, &b""[..]);
            }
        }
    }

    /* Try with two limitors where the first one imposes the real
     * limit.  */
    {
        let bio = BufferedReaderMemory::new(data);

        let mut bio = {
            let bio2 = BufferedReaderLimitor::new(bio, 5);
            // We limit to 15 bytes, but bio2 will still limit us to 5
            // bytes.
            let mut bio3 = BufferedReaderLimitor::new(bio2, 15);
            {
                let result = bio3.data(100).unwrap();
                assert_eq!(result.len(), 5);
                assert_eq!(result, &b"01234"[..]);
            }
            bio3.consume(5);
            {
                let result = bio3.data(1).unwrap();
                assert_eq!(result.len(), 0);
                assert_eq!(result, &b""[..]);
            }

            bio3.into_inner().into_inner()
        };

        {
            {
                let result = bio.data(15).unwrap();
                assert_eq!(result.len(), 15);
                assert_eq!(result, &b"567890123456789"[..]);
            }
            bio.consume(15);
            {
                let result = bio.data(1).unwrap();
                assert_eq!(result.len(), 0);
                assert_eq!(result, &b""[..]);
            }
        }
    }
}

#[test]
fn limitor_delivers_no_more_than_its_limit() {
    let data: &[u8] = b"abcdefghijklmnopqrstuvwxyz";
    let mut l = BufferedReaderLimitor::new(BufferedReaderMemory::new(data), 7);
    let mut total = 0;
    loop {
        let n = l.data_consume(3).unwrap().len().min(3);
        if n == 0 {
            break;
        }
        total += n;
    }
    assert_eq!(total, 7);
    assert_eq!(l.data(100).unwrap(), &b""[..]);
}

#[test]
fn nested_limitors_match_the_tighter_limit() {
    let data: &[u8] = b"01234567890123456789";
    for (a, b) in [(5u64, 15u64), (15, 5), (8, 8), (0, 3), (30, 25)] {
        let mut nested =
            BufferedReaderLimitor::new(BufferedReaderLimitor::new(BufferedReaderMemory::new(data), a), b);
        let mut flat = BufferedReaderLimitor::new(BufferedReaderMemory::new(data), a.min(b));
        let x = nested.data(100).unwrap().to_vec();
        let y = flat.data(100).unwrap().to_vec();
        assert_eq!(x, y);
        assert_eq!(x.len() as u64, a.min(b).min(20));
    }
}

#[test]
fn limitor_consume_keeps_lookahead_within_limit() {
    let data: &[u8] = b"0123456789";
    let mut l = BufferedReaderLimitor::new(BufferedReaderMemory::new(data), 6);
    assert_eq!(l.data(2).unwrap(), &b"012345"[..]);
    // The view covers the consumed bytes and what the limit still allows.
    assert_eq!(l.consume(2), &b"012345"[..]);
    assert_eq!(l.data(1).unwrap(), &b"2345"[..]);
}

#[test]
fn limitor_data_consume_hard_past_limit_fails() {
    let data: &[u8] = b"0123456789";
    let mut l = BufferedReaderLimitor::new(BufferedReaderMemory::new(data), 4);
    assert!(matches!(l.data_consume_hard(5), Err(ReadError::UnexpectedEof)));
    // Nothing was consumed.
    assert_eq!(l.data_consume_hard(4).unwrap(), &b"0123"[..]);
    assert!(matches!(l.data_consume_hard(1), Err(ReadError::UnexpectedEof)));
}

#[test]
fn limitor_peel_continues_where_it_stopped() {
    let data: &[u8] = b"hello, world";
    let mut l = BufferedReaderLimitor::new(BufferedReaderMemory::new(data), 5);
    assert_eq!(l.data_consume(3).unwrap(), &b"hello"[..]);
    let mut inner = l.into_inner();
    assert_eq!(inner.data(1).unwrap(), &b"lo, world"[..]);
}

#[test]
fn limitor_with_zero_limit_is_empty() {
    let data: &[u8] = b"abc";
    let mut l = BufferedReaderLimitor::new(BufferedReaderMemory::new(data), 0);
    assert_eq!(l.data(5).unwrap(), &b""[..]);
    assert!(matches!(l.data_hard(1), Err(ReadError::UnexpectedEof)));
    assert_eq!(l.into_inner().data(3).unwrap(), &b"abc"[..]);
}

#[test]
fn empty_memory_reader() {
    let mut m = BufferedReaderMemory::new(b"");
    assert_eq!(m.data(1).unwrap(), &b""[..]);
    assert!(matches!(m.data_consume_hard(1), Err(ReadError::UnexpectedEof)));
    assert_eq!(m.data_consume(1).unwrap(), &b""[..]);
}

#[test]
fn limitor_data_hard_past_limit_fails_at_once() {
    let data: &[u8] = b"0123456789";
    let mut l = BufferedReaderLimitor::new(BufferedReaderMemory::new(data), 5);
    assert!(matches!(l.data_hard(6), Err(ReadError::UnexpectedEof)));
    assert_eq!(l.data_hard(5).unwrap(), &b"01234"[..]);
    assert_eq!(l.data_consume(9).unwrap(), &b"01234"[..]);
    assert_eq!(l.into_inner().data(1).unwrap(), &b"56789"[..]);
}

#[test]
fn limitor_data_consume_spends_the_clipped_request() {
    let data: &[u8] = b"abc";
    let mut l = BufferedReaderLimitor::new(BufferedReaderMemory::new(data), 10);
    assert_eq!(l.data_consume(5).unwrap(), &b"abc"[..]);
    // Five of the ten bytes were asked for; the budget left is five.
    let mut out = Vec::new();
    assert_eq!(l.read(&mut out, 100).unwrap(), 0);
}

#[test]
fn limitor_read_stays_within_the_limit() {
    let data: &[u8] = b"0123456789";
    let mut l = BufferedReaderLimitor::new(BufferedReaderMemory::new(data), 6);
    let mut out = Vec::new();
    assert_eq!(l.read(&mut out, 4).unwrap(), 4);
    assert_eq!(l.read(&mut out, 4).unwrap(), 2);
    assert_eq!(l.read(&mut out, 4).unwrap(), 0);
    assert_eq!(out, b"012345".to_vec());
    assert_eq!(l.into_inner().data(4).unwrap(), &b"6789"[..]);
}

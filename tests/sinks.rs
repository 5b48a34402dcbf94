use clock::sink::{ArrayWriter, BufWriter, IoError, Write};

#[test]
fn array_writer_accepts_up_to_capacity() {
    let mut w = ArrayWriter::new(4);
    assert_eq!(w.write_all(b"ab"), Ok(()));
    assert_eq!(w.write_all(b"cd"), Ok(()));
    assert_eq!(w.as_slice(), b"abcd");
    assert_eq!(w.len(), 4);
}

#[test]
fn array_writer_refuses_overflow_and_keeps_contents() {
    let mut w = ArrayWriter::new(4);
    assert_eq!(w.write_all(b"abc"), Ok(()));
    assert_eq!(w.write_all(b"de"), Err(IoError::BufferFull));
    assert_eq!(w.as_slice(), b"abc");
    w.clear();
    assert_eq!(w.as_slice(), b"");
    assert_eq!(w.write_all(b"wxyz"), Ok(()));
}

#[test]
fn buf_writer_holds_bytes_until_flush() {
    let mut w = BufWriter::new(ArrayWriter::new(100), 8);
    assert_eq!(w.write_all(b"abc"), Ok(()));
    assert_eq!(w.get_ref().as_slice(), b"");
    assert_eq!(w.flush(), Ok(()));
    assert_eq!(w.get_ref().as_slice(), b"abc");
}

#[test]
fn buf_writer_passes_on_when_full() {
    let mut w = BufWriter::new(ArrayWriter::new(100), 4);
    assert_eq!(w.write_all(b"abc"), Ok(()));
    assert_eq!(w.write_all(b"de"), Ok(()));
    assert_eq!(w.get_ref().as_slice(), b"abc");
    assert_eq!(w.write_all(b"0123456789"), Ok(()));
    assert_eq!(w.get_ref().as_slice(), b"abcde0123456789");
    assert_eq!(w.flush(), Ok(()));
    assert_eq!(w.get_ref().as_slice(), b"abcde0123456789");
}

#[test]
fn buf_writer_reports_inner_failure() {
    let mut w = BufWriter::new(ArrayWriter::new(3), 2);
    assert_eq!(w.write_all(b"ab"), Ok(()));
    assert_eq!(w.write_all(b"cd"), Ok(()));
    assert_eq!(w.flush(), Err(IoError::BufferFull));
}

#[test]
fn buf_writer_failed_flush_keeps_pending_bytes() {
    let mut w = BufWriter::new(ArrayWriter::new(1), 4);
    assert_eq!(w.write_all(b"abc"), Ok(()));
    assert_eq!(w.flush(), Err(IoError::BufferFull));
    assert_eq!(w.get_ref().as_slice(), b"");
    assert_eq!(w.write_all(b"d"), Ok(()));
}

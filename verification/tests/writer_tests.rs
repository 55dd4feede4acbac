use imgcore::writer::ByteWriter;

#[test]
fn writer_starts_at_zero() {
    let buf = [0u8; 4];
    let w = ByteWriter::new();
    assert_eq!(w.position(), 0);
    assert!(w.has(&buf, 0));
    assert!(w.has(&buf, 4));
    assert!(!w.has(&buf, 5));
    assert!(w.has(&[], 0));
    assert!(!w.has(&[], 1));
}

#[test]
fn writer_writes_bytes_in_order() {
    let mut buf = [0xAAu8; 6];
    let mut w = ByteWriter::new();
    w.write_u8(&mut buf, 1);
    w.write_u8(&mut buf, 2);
    assert_eq!(w.position(), 2);
    assert_eq!(buf, [1, 2, 0xAA, 0xAA, 0xAA, 0xAA]);
    assert!(w.has(&buf, 4));
    assert!(!w.has(&buf, 5));
}

#[test]
fn writer_u32_is_big_endian() {
    let mut buf = [0u8; 6];
    let mut w = ByteWriter::new();
    w.write_u8(&mut buf, 0xEE);
    w.write_u32_be(&mut buf, 0x0102_0304);
    assert_eq!(w.position(), 5);
    assert_eq!(buf, [0xEE, 1, 2, 3, 4, 0]);
}

#[test]
fn writer_u64_is_big_endian() {
    let mut buf = [0xFFu8; 10];
    let mut w = ByteWriter::new();
    w.write_u8(&mut buf, 0);
    w.write_u64_be(&mut buf, 0x0102_0304_0506_0708);
    assert_eq!(w.position(), 9);
    assert_eq!(buf, [0, 1, 2, 3, 4, 5, 6, 7, 8, 0xFF]);
    let mut one = [0xFFu8; 8];
    let mut w = ByteWriter::new();
    w.write_u64_be(&mut one, 1);
    assert_eq!(one, [0, 0, 0, 0, 0, 0, 0, 1]);
}

#[test]
fn writer_write_all_copies() {
    let mut buf = [0u8; 7];
    let mut w = ByteWriter::new();
    w.write_all(&mut buf, b"qoif");
    assert_eq!(w.position(), 4);
    w.write_all(&mut buf, &[]);
    assert_eq!(w.position(), 4);
    w.write_all(&mut buf, &[9, 8, 7]);
    assert_eq!(w.position(), 7);
    assert_eq!(&buf, b"qoif\x09\x08\x07");
    assert!(w.has(&buf, 0));
    assert!(!w.has(&buf, 1));
}

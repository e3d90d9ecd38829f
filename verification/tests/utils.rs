use wap::utils::{find_zero, read_i32_le, read_to_zero, read_u16_le, read_u32_le, ByteStream, ReadError};

#[test]
fn read_to_zero_cuts() {
    assert_eq!(read_to_zero(b"abc\0def\0"), b"abc");
    assert_eq!(read_to_zero(b"\0"), b"");
}

#[test]
fn find_zero_from() {
    assert_eq!(find_zero(b"a\0b\0", 0), Some(1));
    assert_eq!(find_zero(b"a\0b\0", 2), Some(3));
    assert_eq!(find_zero(b"abc", 0), None);
}

#[test]
fn little_endian_numbers() {
    let b = [0x78, 0x56, 0x34, 0x12, 0xFF, 0xFF, 0xFF, 0xFF];
    assert_eq!(read_u32_le(&b, 0), 0x1234_5678);
    assert_eq!(read_i32_le(&b, 4), -1);
    assert_eq!(read_u16_le(&b, 1), 0x3456);
}

#[test]
fn byte_stream_reads() {
    let data = [1u8, 2, 3, 4, 5];
    let mut s = ByteStream::new(&data);
    assert_eq!(s.read_exact(2), Ok(&data[0..2]));
    assert_eq!(s.position(), 2);
    assert_eq!(s.read_exact(4), Err(ReadError::UnexpectedEof));
    assert_eq!(s.position(), 2);
    assert_eq!(s.read_up_to(10), &data[2..5]);
    assert_eq!(s.position(), 5);
    s.seek(100);
    assert_eq!(s.read_up_to(3), &[] as &[u8]);
    assert_eq!(s.read_exact(0), Err(ReadError::UnexpectedEof));
}

use crxtool::ext::{ExtError, MemReader, MemWriter};

#[test]
fn little_endian_round_trips() {
    let mut w = MemWriter::new();
    w.write_i16(-2);
    w.write_i16(0x1234);
    w.write_i32(-70000);
    w.write_u32(0xDEADBEEF);
    let mut r = MemReader::new(w.data);
    assert_eq!(r.read_i16().unwrap(), -2);
    assert_eq!(r.read_i16().unwrap(), 0x1234);
    assert_eq!(r.read_i32().unwrap(), -70000);
    assert_eq!(r.read_u32().unwrap(), 0xDEADBEEF);
    assert!(matches!(r.read_u8(), Err(ExtError::UnexpectedEof)));
}

#[test]
fn short_reads_fail_without_moving() {
    let mut r = MemReader::new(vec![1, 2, 3]);
    assert!(matches!(r.read_u32(), Err(ExtError::UnexpectedEof)));
    assert_eq!(r.read_u8().unwrap(), 1);
    assert!(matches!(r.read_i32(), Err(ExtError::UnexpectedEof)));
    assert_eq!(r.read_i16().unwrap(), 0x0302);
}

#[test]
fn name_fields_are_nul_padded() {
    let mut w = MemWriter::new();
    w.write_cstring_with_size(&b"abc".to_vec(), 8).unwrap();
    assert_eq!(w.data, vec![b'a', b'b', b'c', 0, 0, 0, 0, 0]);
    assert!(matches!(
        w.write_cstring_with_size(&b"toolong".to_vec(), 4),
        Err(ExtError::InvalidInput)
    ));
    let mut r = MemReader::new(w.data);
    assert_eq!(r.read_cstring_with_size(8).unwrap(), b"abc".to_vec());
}

#[test]
fn name_field_keeps_prefix_before_nul() {
    let mut r = MemReader::new(vec![b'h', b'i', 0, b'x', b'y', b'z']);
    assert_eq!(r.read_cstring_with_size(6).unwrap(), b"hi".to_vec());
    let mut r2 = MemReader::new(vec![b'a', b'b']);
    assert_eq!(r2.read_cstring_with_size(2).unwrap(), b"ab".to_vec());
    let mut r3 = MemReader::new(vec![0xFF, 0xFE, 0, 0]);
    assert!(matches!(r3.read_cstring_with_size(4), Err(ExtError::InvalidData)));
}

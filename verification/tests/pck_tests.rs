use crxtool::ext::MemReader;
use crxtool::pck::{PckError, PckReader, PckWriter, SeekFrom};

fn read_all(pck: &PckReader, index: usize) -> Vec<u8> {
    let mut r = pck.file_reader(index);
    r.read(pck, usize::MAX >> 1)
}

#[test]
fn two_entry_archive_layout() {
    // {"a.bin" -> "Hello", "b.bin" -> "World!"} with 0x800 reserved.
    let mut w = PckWriter::new(Vec::new(), 0x800);
    let h1 = w.add_file(b"a.bin".to_vec());
    h1.write(&mut w, &b"Hello".to_vec());
    let h2 = w.add_file(b"b.bin".to_vec());
    h2.write(&mut w, &b"World!".to_vec());
    w.write_header().unwrap();
    let f = &w.file;
    assert_eq!(u32::from_le_bytes([f[0], f[1], f[2], f[3]]), 2);
    // short table
    assert_eq!(u32::from_le_bytes([f[4], f[5], f[6], f[7]]), 0x800);
    assert_eq!(u32::from_le_bytes([f[8], f[9], f[10], f[11]]), 5);
    assert_eq!(u32::from_le_bytes([f[12], f[13], f[14], f[15]]), 0x805);
    assert_eq!(u32::from_le_bytes([f[16], f[17], f[18], f[19]]), 6);
    // long table: 0x38-byte NUL-padded names
    let base = 20;
    assert_eq!(&f[base..base + 5], b"a.bin");
    assert!(f[base + 5..base + 0x38].iter().all(|&b| b == 0));
    assert_eq!(
        u32::from_le_bytes([f[base + 0x38], f[base + 0x39], f[base + 0x3A], f[base + 0x3B]]),
        0x800
    );
    assert_eq!(
        u32::from_le_bytes([f[base + 0x3C], f[base + 0x3D], f[base + 0x3E], f[base + 0x3F]]),
        5
    );
    let base2 = base + 0x40;
    assert_eq!(&f[base2..base2 + 5], b"b.bin");
    // payload
    assert_eq!(&f[0x800..0x805], b"Hello");
    assert_eq!(&f[0x805..0x80B], b"World!");
}

#[test]
fn pack_then_unpack_round_trip() {
    let entries: Vec<(&[u8], Vec<u8>)> = vec![
        (b"one.txt", vec![1, 2, 3]),
        (b"two.bin", vec![]),
        (b"three.dat", (0..200u8).collect()),
    ];
    let mut w = PckWriter::new(Vec::new(), 0x800);
    for (name, data) in &entries {
        let h = w.add_file(name.to_vec());
        h.write(&mut w, data);
    }
    w.write_header().unwrap();
    let pck = PckReader::new(MemReader::new(w.file)).unwrap();
    assert_eq!(pck.len(), entries.len());
    for (i, (name, data)) in entries.iter().enumerate() {
        assert_eq!(&pck.file_headers[i].name, &name.to_vec());
        assert_eq!(read_all(&pck, i), *data);
    }
}

#[test]
fn header_growth_shifts_offsets_and_keeps_bytes() {
    // With 0x800 reserved, 28 index records fit (28 * 0x48 + 4 < 0x800);
    // the 29th forces one 0x800-byte growth that shifts every offset.
    let mut w = PckWriter::new(Vec::new(), 0x800);
    for k in 0..28u8 {
        let h = w.add_file(vec![b'f', b'0' + (k % 10)]);
        h.write(&mut w, &vec![k; 3]);
    }
    assert_eq!(w.header_max_size, 0x800);
    let offsets_before: Vec<u32> = w.file_headers.iter().map(|h| h.offset).collect();
    assert_eq!(offsets_before[0], 0x800);
    let h = w.add_file(b"last".to_vec());
    h.write(&mut w, &vec![99; 4]);
    assert_eq!(w.header_max_size, 0x1000);
    for (k, h) in w.file_headers.iter().take(28).enumerate() {
        assert_eq!(h.offset, offsets_before[k] + 0x800);
    }
    assert_eq!(w.file_headers[28].offset, 0x1000 + 28 * 3);
    // every earlier entry's bytes are intact and readable through the
    // final index
    w.write_header().unwrap();
    let pck = PckReader::new(MemReader::new(w.file)).unwrap();
    assert_eq!(pck.len(), 29);
    for k in 0..28usize {
        assert_eq!(read_all(&pck, k), vec![k as u8; 3]);
    }
    assert_eq!(read_all(&pck, 28), vec![99; 4]);
}

#[test]
fn subfile_reader_stays_in_bounds() {
    let mut w = PckWriter::new(Vec::new(), 0x800);
    let h1 = w.add_file(b"a".to_vec());
    h1.write(&mut w, &vec![1, 2, 3, 4, 5]);
    let h2 = w.add_file(b"b".to_vec());
    h2.write(&mut w, &vec![6, 7, 8]);
    w.write_header().unwrap();
    let pck = PckReader::new(MemReader::new(w.file)).unwrap();
    let mut r = pck.file_reader(0);
    // an oversized request is clamped to the sub-file
    assert_eq!(r.read(&pck, 100), vec![1, 2, 3, 4, 5]);
    // at the end, reads return no bytes, never the neighbour's
    assert_eq!(r.read(&pck, 100), Vec::<u8>::new());
    // seeking past the end is refused and the cursor stays
    assert!(matches!(r.seek(SeekFrom::Start(6)), Err(PckError::InvalidInput)));
    assert_eq!(r.stream_position(), 5);
    assert!(matches!(r.seek(SeekFrom::Current(1)), Err(PckError::InvalidInput)));
    assert!(matches!(r.seek(SeekFrom::End(1)), Err(PckError::InvalidInput)));
    assert!(matches!(r.seek(SeekFrom::End(-6)), Err(PckError::InvalidInput)));
    // in-bounds seeks move the cursor
    assert_eq!(r.seek(SeekFrom::End(-2)).unwrap(), 3);
    assert_eq!(r.read(&pck, 100), vec![4, 5]);
    r.rewind();
    assert_eq!(r.read(&pck, 2), vec![1, 2]);
    assert_eq!(r.seek(SeekFrom::Current(1)).unwrap(), 3);
    assert_eq!(r.read(&pck, 1), vec![4]);
}

#[test]
fn index_mismatch_is_reported_with_name() {
    let mut w = PckWriter::new(Vec::new(), 0x800);
    let h = w.add_file(b"entry".to_vec());
    h.write(&mut w, &vec![1, 2]);
    w.write_header().unwrap();
    let mut bytes = w.file;
    bytes[4] = bytes[4].wrapping_add(1); // corrupt the short table offset
    match PckReader::new(MemReader::new(bytes)) {
        Err(PckError::IndexMismatch(name)) => assert_eq!(name, b"entry".to_vec()),
        other => panic!("expected an index mismatch, got {:?}", other.is_ok()),
    }
}

#[test]
fn invalid_utf8_name_is_rejected() {
    let mut w = PckWriter::new(Vec::new(), 0x800);
    let h = w.add_file(vec![0xFF, 0xFE]);
    h.write(&mut w, &vec![1]);
    w.write_header().unwrap();
    assert!(matches!(
        PckReader::new(MemReader::new(w.file)),
        Err(PckError::InvalidData)
    ));
}

#[test]
fn truncated_index_is_rejected() {
    let mut w = PckWriter::new(Vec::new(), 0x800);
    let h = w.add_file(b"a".to_vec());
    h.write(&mut w, &vec![1]);
    w.write_header().unwrap();
    let mut bytes = w.file;
    bytes.truncate(10); // inside the short table
    assert!(matches!(
        PckReader::new(MemReader::new(bytes)),
        Err(PckError::UnexpectedEof)
    ));
    assert!(matches!(
        PckReader::new(MemReader::new(vec![1, 0])),
        Err(PckError::UnexpectedEof)
    ));
}

#[test]
fn oversized_name_fails_write_header() {
    let mut w = PckWriter::new(Vec::new(), 0x800);
    let h = w.add_file(vec![b'x'; 0x39]);
    h.write(&mut w, &vec![1]);
    assert!(matches!(w.write_header(), Err(PckError::InvalidInput)));
}

#[test]
fn header_size_calculation() {
    assert_eq!(PckWriter::calculate_header_size(0), 0x800);
    assert_eq!(PckWriter::calculate_header_size(1), 0x800);
    assert_eq!(PckWriter::calculate_header_size(28), 0x800);
    assert_eq!(PckWriter::calculate_header_size(29), 0x1000);
    assert_eq!(PckWriter::calculate_header_size(100), 0x2000);
}

#[test]
fn crx_inside_pck_reads_back() {
    // A CRX stored as a PCK entry decodes after extraction.
    let inner: Vec<u8> = vec![0x00, 0x80, 0x00, 0x00, 0x40, 0x00, 0x20];
    let payload = fdeflate::compress_to_vec(&inner);
    let mut crx_bytes: Vec<u8> = Vec::new();
    crx_bytes.extend_from_slice(&0x47585243i32.to_le_bytes());
    for v in [0i16, 0, 2, 1, 2, 0x10, 0, 0] {
        crx_bytes.extend_from_slice(&v.to_le_bytes());
    }
    crx_bytes.extend_from_slice(&(payload.len() as i32).to_le_bytes());
    crx_bytes.extend_from_slice(&payload);
    let mut w = PckWriter::new(Vec::new(), 0x800);
    let h = w.add_file(b"img.crx".to_vec());
    h.write(&mut w, &crx_bytes);
    w.write_header().unwrap();
    let pck = PckReader::new(MemReader::new(w.file)).unwrap();
    let extracted = read_all(&pck, 0);
    let mut r = MemReader::new(extracted);
    let crx = crxtool::crx::Crx::read_from(&mut r).unwrap();
    assert_eq!(crx.data, vec![0x00, 0x00, 0x80, 0x20, 0x00, 0xC0]);
}

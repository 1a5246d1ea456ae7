use crxtool::utils::{compress_data, decompress_data, inflate_data};

#[test]
fn compressor_frames_and_round_trips() {
    let data: Vec<u8> = (0..200u8).chain(std::iter::repeat(7).take(500)).collect();
    let frame = compress_data(&data);
    assert!(frame.len() >= 4);
    assert_eq!(&frame[0..4], &[0x28, 0xB5, 0x2F, 0xFD]);
    assert_eq!(decompress_data(&frame).unwrap(), data);
}

#[test]
fn compressor_handles_empty_input() {
    let frame = compress_data(&Vec::new());
    assert_eq!(&frame[0..4], &[0x28, 0xB5, 0x2F, 0xFD]);
    assert_eq!(decompress_data(&frame).unwrap(), Vec::<u8>::new());
}

#[test]
fn decoders_reject_garbage() {
    assert!(decompress_data(&vec![0x28, 0xB5, 0x2F, 0xFD, 1, 2, 3]).is_err());
    assert!(inflate_data(&vec![0xFF, 0x00, 0x12]).is_err());
}

#[test]
fn inflate_decodes_zlib_streams() {
    let data: Vec<u8> = b"abcabcabcabc".to_vec();
    let stream = fdeflate::compress_to_vec(&data);
    assert_eq!(inflate_data(&stream).unwrap(), data);
}

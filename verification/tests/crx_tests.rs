use crxtool::crx::{Crx, CrxError};
use crxtool::ext::{MemReader, MemWriter};

/// Serialize a CRX header with the given words and payload, without the
/// explicit-size flag bit, so the payload runs to the end of the stream.
fn make_crx_bytes(width: i16, height: i16, version: i16, flags: i16, bpp: i16, payload: &[u8]) -> Vec<u8> {
    let mut out: Vec<u8> = Vec::new();
    out.extend_from_slice(&0x47585243i32.to_le_bytes());
    out.extend_from_slice(&0i16.to_le_bytes()); // inner_x
    out.extend_from_slice(&0i16.to_le_bytes()); // inner_y
    out.extend_from_slice(&width.to_le_bytes());
    out.extend_from_slice(&height.to_le_bytes());
    out.extend_from_slice(&version.to_le_bytes());
    out.extend_from_slice(&flags.to_le_bytes());
    out.extend_from_slice(&bpp.to_le_bytes());
    out.extend_from_slice(&0i16.to_le_bytes()); // unknown
    if version >= 3 {
        out.extend_from_slice(&0i32.to_le_bytes()); // clip_count
    }
    out.extend_from_slice(payload);
    out
}

fn read_crx(bytes: Vec<u8>) -> Result<Crx, CrxError> {
    let mut r = MemReader::new(bytes);
    Crx::read_from(&mut r)
}

#[test]
fn rgb_mode0_scenario() {
    // A 2x1 RGB image, one mode 0 row: literal native BGR pixel
    // (80,00,00), then deltas (40,00,20).
    let inner: Vec<u8> = vec![0x00, 0x80, 0x00, 0x00, 0x40, 0x00, 0x20];
    let payload = fdeflate::compress_to_vec(&inner);
    let bytes = make_crx_bytes(2, 1, 2, 0, 0, &payload);
    let crx = read_crx(bytes).unwrap();
    assert_eq!(crx.data, vec![0x00, 0x00, 0x80, 0x20, 0x00, 0xC0]);
    assert_eq!(crx.encode_type, vec![0]);
    assert_eq!(crx.width, 2);
    assert_eq!(crx.height, 1);
}

#[test]
fn rgba_mode0_mode1_alpha_complement() {
    // A 1x2 RGBA image with row modes [0, 1]: the second row's alpha is
    // decoded against the first and complemented.
    // Row 0 literal native A'BGR = (215, 30, 20, 10);
    // row 1 deltas (1, 2, 3, 4) -> native (216, 32, 23, 14).
    let inner: Vec<u8> = vec![
        0x00, 215, 30, 20, 10, // mode 0, literal pixel
        0x01, 1, 2, 3, 4, // mode 1, per-byte deltas
    ];
    let payload = fdeflate::compress_to_vec(&inner);
    let bytes = make_crx_bytes(1, 2, 2, 0, 1, &payload);
    let crx = read_crx(bytes).unwrap();
    assert_eq!(crx.encode_type, vec![0, 1]);
    assert_eq!(&crx.data[0..4], &[10, 20, 30, 255 - 215]);
    assert_eq!(&crx.data[4..8], &[14, 23, 32, 255 - 216]);
}

#[test]
fn zstd_and_deflate_dispatch_agree() {
    // The same inner bytes behind a Zstandard frame and behind a deflate
    // stream must decode to the same pixels.
    let inner: Vec<u8> = vec![0x00, 0x80, 0x00, 0x00, 0x40, 0x00, 0x20];
    let defl = fdeflate::compress_to_vec(&inner);
    assert_eq!(defl[0], 0x78);
    let zst = zstd::stream::encode_all(&inner[..], 3).unwrap();
    assert_eq!(&zst[0..4], &[0x28, 0xB5, 0x2F, 0xFD]);
    let a = read_crx(make_crx_bytes(2, 1, 2, 0, 0, &defl)).unwrap();
    let b = read_crx(make_crx_bytes(2, 1, 2, 0, 0, &zst)).unwrap();
    assert_eq!(a.data, b.data);
    assert_eq!(a.encode_type, b.encode_type);
}

#[test]
fn each_row_mode_round_trips() {
    // A 3x6 RGB image exercising every row mode individually re-encodes
    // and re-decodes to the same pixels and modes.
    let width = 3usize;
    let height = 6usize;
    let modes: Vec<u8> = vec![0, 1, 2, 3, 4, 0];
    let mut pixels: Vec<u8> = Vec::new();
    for i in 0..width * height * 3 {
        pixels.push((i * 7 % 256) as u8);
    }
    let enc = Crx::encode_image_bbp24(&pixels, width, height, &modes).unwrap();
    let (dec, modes2) = Crx::decode_image(&enc, width, height, 3).unwrap();
    assert_eq!(dec, pixels);
    assert_eq!(modes2, modes);
}

#[test]
fn each_row_mode_round_trips_rgba() {
    let width = 4usize;
    let height = 5usize;
    let modes: Vec<u8> = vec![4, 3, 2, 1, 0];
    let mut pixels: Vec<u8> = Vec::new();
    for i in 0..width * height * 4 {
        pixels.push((i * 13 % 251) as u8);
    }
    let enc = Crx::encode_image_bbp32(&pixels, width, height, &modes).unwrap();
    let (dec, modes2) = Crx::decode_image(&enc, width, height, 4).unwrap();
    assert_eq!(dec, pixels);
    assert_eq!(modes2, modes);
}

#[test]
fn rle_mode_with_runs_round_trips() {
    // Mode 4 with long runs, including a run capped at 255.
    let width = 300usize;
    let height = 2usize;
    let modes: Vec<u8> = vec![4, 4];
    let mut pixels: Vec<u8> = vec![7; width * height * 3];
    pixels[10] = 9;
    pixels[900] = 1;
    let enc = Crx::encode_image_bbp24(&pixels, width, height, &modes).unwrap();
    let (dec, modes2) = Crx::decode_image(&enc, width, height, 3).unwrap();
    assert_eq!(dec, pixels);
    assert_eq!(modes2, modes);
}

#[test]
fn import_dimension_mismatch_keeps_origin() {
    let inner: Vec<u8> = vec![0x00, 0x80, 0x00, 0x00, 0x40, 0x00, 0x20];
    let payload = fdeflate::compress_to_vec(&inner);
    let mut crx = read_crx(make_crx_bytes(2, 1, 2, 0, 0, &payload)).unwrap();
    let before_data = crx.data.clone();
    let before_payload = crx.compressed_data.clone();
    let r = crx.import_pixels(3, 1, 8, 3, &vec![0; 9]);
    assert!(matches!(r, Err(CrxError::DimensionMismatch)));
    assert_eq!(crx.data, before_data);
    assert_eq!(crx.compressed_data, before_payload);
    let r2 = crx.import_pixels(2, 1, 16, 3, &vec![0; 6]);
    assert!(matches!(r2, Err(CrxError::DimensionMismatch)));
    let r3 = crx.import_pixels(2, 1, 8, 2, &vec![0; 4]);
    assert!(matches!(r3, Err(CrxError::ColorTypeUnsupported)));
    assert_eq!(crx.data, before_data);
}

#[test]
fn import_write_read_round_trip() {
    // Import new pixels, serialize, read back: the new pixels survive a
    // full trip through the Zstandard encoder.
    let inner: Vec<u8> = vec![0x00, 0x80, 0x00, 0x00, 0x40, 0x00, 0x20];
    let payload = fdeflate::compress_to_vec(&inner);
    let mut crx = read_crx(make_crx_bytes(2, 1, 2, 0, 0, &payload)).unwrap();
    let new_pixels: Vec<u8> = vec![1, 2, 3, 4, 5, 6];
    crx.import_pixels(2, 1, 8, 3, &new_pixels).unwrap();
    assert_eq!(crx.data, new_pixels);
    assert_eq!(&crx.compressed_data[0..4], &[0x28, 0xB5, 0x2F, 0xFD]);
    let mut w = MemWriter::new();
    crx.write_to(&mut w);
    let crx2 = read_crx(w.data).unwrap();
    assert_eq!(crx2.data, new_pixels);
    assert_eq!(crx2.encode_type, crx.encode_type);
}

#[test]
fn import_converts_rgba_to_rgb() {
    let inner: Vec<u8> = vec![0x00, 0x80, 0x00, 0x00, 0x40, 0x00, 0x20];
    let payload = fdeflate::compress_to_vec(&inner);
    let mut crx = read_crx(make_crx_bytes(2, 1, 2, 0, 0, &payload)).unwrap();
    // RGBA source into an RGB origin: alpha is dropped.
    let rgba: Vec<u8> = vec![1, 2, 3, 99, 4, 5, 6, 99];
    crx.import_pixels(2, 1, 8, 4, &rgba).unwrap();
    assert_eq!(crx.data, vec![1, 2, 3, 4, 5, 6]);
}

#[test]
fn import_converts_rgb_to_rgba() {
    let inner: Vec<u8> = vec![0x00, 215, 30, 20, 10];
    let payload = fdeflate::compress_to_vec(&inner);
    let mut crx = read_crx(make_crx_bytes(1, 1, 2, 0, 1, &payload)).unwrap();
    // RGB source into an RGBA origin: an opaque alpha is added.
    let rgb: Vec<u8> = vec![9, 8, 7];
    crx.import_pixels(1, 1, 8, 3, &rgb).unwrap();
    assert_eq!(crx.data, vec![9, 8, 7, 0xFF]);
}

#[test]
fn serialize_forces_size_flag() {
    let inner: Vec<u8> = vec![0x00, 0x80, 0x00, 0x00, 0x40, 0x00, 0x20];
    let payload = fdeflate::compress_to_vec(&inner);
    let crx = read_crx(make_crx_bytes(2, 1, 2, 0, 0, &payload)).unwrap();
    let mut w = MemWriter::new();
    crx.write_to(&mut w);
    let out = w.data;
    // flags word at offset 14 carries the explicit-size bit
    let flags = i16::from_le_bytes([out[14], out[15]]);
    assert_eq!(flags & 0x10, 0x10);
    // payload size field follows the header
    let size = i32::from_le_bytes([out[20], out[21], out[22], out[23]]);
    assert_eq!(size as usize, payload.len());
    assert_eq!(&out[24..], &payload[..]);
}

#[test]
fn version3_clips_round_trip() {
    let inner: Vec<u8> = vec![0x00, 0x80, 0x00, 0x00, 0x40, 0x00, 0x20];
    let payload = fdeflate::compress_to_vec(&inner);
    let mut bytes: Vec<u8> = Vec::new();
    bytes.extend_from_slice(&0x47585243i32.to_le_bytes());
    for w in [7i16, -3, 2, 1, 3, 0, 0, 11] {
        bytes.extend_from_slice(&w.to_le_bytes());
    }
    bytes.extend_from_slice(&1i32.to_le_bytes()); // one clip
    bytes.extend_from_slice(&123456i32.to_le_bytes());
    for w in [1i16, 2, 3, 4, 5, -6] {
        bytes.extend_from_slice(&w.to_le_bytes());
    }
    bytes.extend_from_slice(&payload);
    let crx = read_crx(bytes).unwrap();
    assert_eq!(crx.version, 3);
    assert_eq!(crx.clips.len(), 1);
    assert_eq!(crx.clips[0].field_0, 123456);
    assert_eq!(crx.clips[0].field_e, -6);
    assert_eq!(crx.inner_x, 7);
    assert_eq!(crx.inner_y, -3);
    let mut w = MemWriter::new();
    crx.write_to(&mut w);
    let crx2 = read_crx(w.data).unwrap();
    assert_eq!(crx2.clips.len(), 1);
    assert_eq!(crx2.clips[0].field_0, 123456);
    assert_eq!(crx2.data, crx.data);
}

#[test]
fn explicit_size_field_is_honored() {
    let inner: Vec<u8> = vec![0x00, 0x80, 0x00, 0x00, 0x40, 0x00, 0x20];
    let payload = fdeflate::compress_to_vec(&inner);
    let mut bytes = make_crx_bytes(2, 1, 2, 0x10, 0, &[]);
    bytes.extend_from_slice(&(payload.len() as i32).to_le_bytes());
    bytes.extend_from_slice(&payload);
    bytes.extend_from_slice(&[0xAA, 0xBB]); // trailing junk past the payload
    let crx = read_crx(bytes).unwrap();
    assert_eq!(crx.data, vec![0x00, 0x00, 0x80, 0x20, 0x00, 0xC0]);
    assert_eq!(crx.compressed_data, payload);
}

#[test]
fn invalid_magic_is_rejected() {
    let mut bytes = make_crx_bytes(2, 1, 2, 0, 0, &[1, 2, 3]);
    bytes[0] = 0x00;
    assert!(matches!(read_crx(bytes), Err(CrxError::InvalidMagic)));
}

#[test]
fn unsupported_version_is_rejected() {
    let bytes = make_crx_bytes(2, 1, 4, 0, 0, &[1, 2, 3]);
    assert!(matches!(read_crx(bytes), Err(CrxError::UnsupportedVersion)));
}

#[test]
fn unsupported_flags_are_rejected() {
    let bytes = make_crx_bytes(2, 1, 2, 0x03, 0, &[1, 2, 3]);
    assert!(matches!(read_crx(bytes), Err(CrxError::UnsupportedFlags)));
}

#[test]
fn unsupported_bpp_is_rejected() {
    let bytes = make_crx_bytes(2, 1, 2, 0, 5, &[1, 2, 3]);
    assert!(matches!(read_crx(bytes), Err(CrxError::UnsupportedBpp)));
}

#[test]
fn nonpositive_dimensions_are_rejected() {
    let bytes = make_crx_bytes(0, 1, 2, 0, 0, &[1, 2, 3]);
    assert!(matches!(read_crx(bytes), Err(CrxError::InvalidDimensions)));
    let bytes2 = make_crx_bytes(2, -1, 2, 0, 0, &[1, 2, 3]);
    assert!(matches!(read_crx(bytes2), Err(CrxError::InvalidDimensions)));
}

#[test]
fn invalid_row_mode_is_rejected() {
    let inner: Vec<u8> = vec![0x07, 0x80, 0x00, 0x00, 0x40, 0x00, 0x20];
    let payload = fdeflate::compress_to_vec(&inner);
    let bytes = make_crx_bytes(2, 1, 2, 0, 0, &payload);
    assert!(matches!(read_crx(bytes), Err(CrxError::InvalidRowMode)));
}

#[test]
fn truncated_payload_is_rejected() {
    let inner: Vec<u8> = vec![0x00, 0x80, 0x00]; // row needs 6 bytes
    let payload = fdeflate::compress_to_vec(&inner);
    let bytes = make_crx_bytes(2, 1, 2, 0, 0, &payload);
    assert!(matches!(read_crx(bytes), Err(CrxError::TruncatedPayload)));
}

#[test]
fn undecodable_payload_is_rejected() {
    let bytes = make_crx_bytes(2, 1, 2, 0, 0, &[0xFF, 0xFE, 0xFD, 0xFC]);
    assert!(matches!(read_crx(bytes), Err(CrxError::DecompressionFailed)));
}

#[test]
fn short_header_is_rejected() {
    let bytes = vec![0x43, 0x52, 0x58, 0x47, 0x00, 0x00];
    assert!(matches!(read_crx(bytes), Err(CrxError::UnexpectedEof)));
}

#[test]
fn pixel_format_conversions() {
    let rgba: Vec<u8> = vec![1, 2, 3, 4, 5, 6, 7, 8];
    assert_eq!(Crx::rgba_to_rgb(&rgba), vec![1, 2, 3, 5, 6, 7]);
    let rgb: Vec<u8> = vec![1, 2, 3, 4, 5, 6];
    assert_eq!(Crx::rgb_to_rgba(&rgb), vec![1, 2, 3, 255, 4, 5, 6, 255]);
}

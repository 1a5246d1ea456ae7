//! Compression wrappers: the Zstandard and deflate codecs that CRX
//! payloads are framed in.

use vstd::prelude::*;

use crate::crx::CrxError;

verus! {

/// The Zstandard frame this library's encoder produces for the given bytes.
pub uninterp spec fn zstd_zip(data: Seq<u8>) -> Seq<u8>;

/// What the given bytes decode to as a Zstandard frame, or `None` when
/// they are not a valid frame.
pub uninterp spec fn zstd_unzip(data: Seq<u8>) -> Option<Seq<u8>>;

/// What the given bytes decode to as a deflate stream, or `None` when
/// they are not a valid stream.
pub uninterp spec fn inflate_of(data: Seq<u8>) -> Option<Seq<u8>>;

/// Relies on zstd::Encoder (at level 32, which the zstd library clamps to
/// its maximum): the frame written for given bytes is a function of those
/// bytes alone.  Per the Zstandard format, every frame begins with the
/// magic bytes 28 B5 2F FD and decompresses back to the input.  Writing
/// into an in-memory buffer cannot fail short of memory exhaustion, which
/// ends the process.
#[verifier::external_body]
pub fn compress_data(data: &Vec<u8>) -> (r: Vec<u8>)
    ensures
        r@ == zstd_zip(data@),
        r@.len() >= 4,
        r@[0] == 0x28u8 && r@[1] == 0xb5u8 && r@[2] == 0x2fu8 && r@[3] == 0xfdu8,
        zstd_unzip(r@) == Some(data@),
{
    let mut encoder = zstd::Encoder::new(Vec::new(), 32).expect("zstd encoder");
    std::io::Write::write_all(&mut encoder, data.as_slice()).expect("zstd write");
    encoder.finish().expect("zstd finish")
}

/// Relies on zstd::Decoder: whether bytes decode, and to what, is a
/// function of those bytes alone.
#[verifier::external_body]
pub fn decompress_data(data: &Vec<u8>) -> (r: Result<Vec<u8>, CrxError>)
    ensures
        match r {
            Ok(v) => zstd_unzip(data@) == Some(v@),
            Err(e) => e == CrxError::DecompressionFailed && zstd_unzip(data@) is None,
        },
{
    let decoder = match zstd::Decoder::new(data.as_slice()) {
        Ok(d) => d,
        Err(_) => return Err(CrxError::DecompressionFailed),
    };
    let mut decoder = decoder;
    let mut out: Vec<u8> = Vec::new();
    match std::io::copy(&mut decoder, &mut out) {
        Ok(_) => Ok(out),
        Err(_) => Err(CrxError::DecompressionFailed),
    }
}

/// Relies on fdeflate::decompress_to_vec: whether bytes decode, and to
/// what, is a function of those bytes alone.
#[verifier::external_body]
pub fn inflate_data(data: &Vec<u8>) -> (r: Result<Vec<u8>, CrxError>)
    ensures
        match r {
            Ok(v) => inflate_of(data@) == Some(v@),
            Err(e) => e == CrxError::DecompressionFailed && inflate_of(data@) is None,
        },
{
    fdeflate::decompress_to_vec(data.as_slice()).map_err(|_| CrxError::DecompressionFailed)
}

} // verus!

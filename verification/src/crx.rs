//! The CRX raster-image codec: header parsing, the per-row predictor
//! decoder and encoder, and the post-decode channel reorder.
//!
//! A CRX payload holds, per image row, one mode byte followed by that row's
//! predictor-coded bytes.  Decoding reverses the predictor row by row and
//! then converts the native BGR / inverted-alpha ABGR byte order to natural
//! RGB / RGBA.  Encoding is the exact inverse and reuses the row modes
//! recorded at decode time.

use vstd::prelude::*;

verus! {

use crate::ext::{le16, le32, as_i16, as_u16, as_i32, as_u32, i16_le, i32_le, MemReader, MemWriter, ExtError};
use crate::utils::{zstd_zip, zstd_unzip, inflate_of};

/// The CRXG magic number, little-endian "CRXG".
pub const MAGIC: i32 = 0x47585243;

/// Failures of CRX parsing, decoding, encoding and import.
#[derive(Debug, Clone, Copy, PartialEq, Eq, Structural)]
pub enum CrxError {
    /// The stream does not start with the CRXG magic number.
    InvalidMagic,
    /// The version word is neither 2 nor 3.
    UnsupportedVersion,
    /// The low nibble of the flags word is above 1.
    UnsupportedFlags,
    /// The bpp word is neither 0 (RGB) nor 1 (RGBA).
    UnsupportedBpp,
    /// The width or height word is not positive, or the pixel buffer
    /// would not fit in memory.
    InvalidDimensions,
    /// A row carries a mode byte outside 0..=4.
    InvalidRowMode,
    /// The decompressed payload ends, or a run overruns its row, before
    /// every row is decoded.
    TruncatedPayload,
    /// The compressed payload is not a valid deflate or Zstandard stream.
    DecompressionFailed,
    /// Imported pixel data does not match the origin's width, height or
    /// bit depth.
    DimensionMismatch,
    /// Imported pixel data is neither RGB nor RGBA.
    ColorTypeUnsupported,
    /// The stream ends inside the header or the payload.
    UnexpectedEof,
}

/// Byte addition wrapping modulo 256.
pub open spec fn wadd(a: u8, b: u8) -> u8 {
    if a + b > 0xff {
        (a + b - 0x100) as u8
    } else {
        (a + b) as u8
    }
}

/// Byte subtraction wrapping modulo 256.
pub open spec fn wsub(a: u8, b: u8) -> u8 {
    if a - b < 0 {
        (a - b + 0x100) as u8
    } else {
        (a - b) as u8
    }
}

/// Wrapping subtraction undoes wrapping addition and vice versa.
pub proof fn lemma_wrap_round_trip(a: u8, b: u8)
    ensures
        wadd(wsub(a, b), b) == a,
        wsub(wadd(a, b), b) == a,
{
}

/// A row of `w * p` zero bytes: the reference row above the first row.
pub open spec fn zero_row(w: nat, p: nat) -> Seq<u8> {
    Seq::new(w * p, |k: int| 0u8)
}

/// Byte `k` of a row decoded with mode 0: the first pixel is literal,
/// every later byte adds the byte one pixel to the left.
pub open spec fn dec0_at(s: Seq<u8>, p: nat, k: int) -> u8
    decreases k,
{
    if k < p || p == 0 {
        s[k]
    } else {
        wadd(s[k], dec0_at(s, p, k - p))
    }
}

/// Mode 0: intra-row left predictor.
pub open spec fn dec_row0(s: Seq<u8>, p: nat) -> Seq<u8> {
    Seq::new(s.len(), |k: int| dec0_at(s, p, k))
}

/// Mode 1: every byte adds the byte directly above.
pub open spec fn dec_row1(s: Seq<u8>, prev: Seq<u8>) -> Seq<u8> {
    Seq::new(s.len(), |k: int| wadd(s[k], prev[k]))
}

/// Mode 2: first pixel literal, every later byte adds the byte above.
pub open spec fn dec_row2(s: Seq<u8>, prev: Seq<u8>, p: nat) -> Seq<u8> {
    Seq::new(s.len(), |k: int| if k < p { s[k] } else { wadd(s[k], prev[k]) })
}

/// Mode 3: last pixel literal, every earlier byte adds the byte above-right.
pub open spec fn dec_row3(s: Seq<u8>, prev: Seq<u8>, p: nat) -> Seq<u8> {
    Seq::new(
        s.len(),
        |k: int| if k >= s.len() - p { s[k] } else { wadd(s[k], prev[k + p]) },
    )
}

/// One channel of mode 4: decode `w` bytes from the front of `src`.
/// A literal emits one byte; when the byte after a literal repeats it, a
/// run count follows and the literal is emitted that many more times.
/// Returns the channel bytes and how many input bytes were consumed, or
/// `None` when the input ends or a run overruns the row.
pub open spec fn rle_dec(src: Seq<u8>, w: nat) -> Option<(Seq<u8>, nat)>
    decreases w,
{
    if w == 0 {
        Some((Seq::empty(), 0))
    } else if src.len() == 0 {
        None
    } else {
        let v = src[0];
        if w == 1 {
            Some((seq![v], 1))
        } else if src.len() < 2 {
            None
        } else if src[1] == v {
            if src.len() < 3 {
                None
            } else {
                let r = src[2] as nat;
                if r > w - 1 {
                    None
                } else {
                    match rle_dec(src.skip(3), (w - 1 - r) as nat) {
                        Some((rest, used)) => Some(
                            (seq![v] + Seq::new(r, |i: int| v) + rest, (3 + used) as nat),
                        ),
                        None => None,
                    }
                }
            }
        } else {
            match rle_dec(src.skip(1), (w - 1) as nat) {
                Some((rest, used)) => Some((seq![v] + rest, (1 + used) as nat)),
                None => None,
            }
        }
    }
}

/// The channels of mode 4 are decoded one after the other from `src`.
pub open spec fn rle_dec_chans(src: Seq<u8>, w: nat, nchan: nat) -> Option<(Seq<Seq<u8>>, nat)>
    decreases nchan,
{
    if nchan == 0 {
        Some((Seq::empty(), 0))
    } else {
        match rle_dec(src, w) {
            None => None,
            Some((c0, u0)) => match rle_dec_chans(src.skip(u0 as int), w, (nchan - 1) as nat) {
                None => None,
                Some((cs, u1)) => Some((seq![c0] + cs, (u0 + u1) as nat)),
            },
        }
    }
}

/// Weave per-channel sequences back into one row, `p` channels at stride `p`.
pub open spec fn interleave(chans: Seq<Seq<u8>>, w: nat, p: nat) -> Seq<u8> {
    Seq::new(w * p, |k: int| chans[k % p as int][k / p as int])
}

/// Mode 4: per-channel run-length decoding.
pub open spec fn dec_row4(src: Seq<u8>, w: nat, p: nat) -> Option<(Seq<u8>, nat)> {
    match rle_dec_chans(src, w, p) {
        Some((cs, u)) => Some((interleave(cs, w, p), u)),
        None => None,
    }
}

/// Decode one row in mode `m` from the front of `src`, against the
/// previously decoded row `prev`.  Returns the row and the bytes consumed.
pub open spec fn dec_row(m: u8, src: Seq<u8>, w: nat, p: nat, prev: Seq<u8>) -> Result<
    (Seq<u8>, nat),
    CrxError,
> {
    if m == 0 {
        if src.len() >= w * p {
            Ok((dec_row0(src.take((w * p) as int), p), w * p))
        } else {
            Err(CrxError::TruncatedPayload)
        }
    } else if m == 1 {
        if src.len() >= w * p {
            Ok((dec_row1(src.take((w * p) as int), prev), w * p))
        } else {
            Err(CrxError::TruncatedPayload)
        }
    } else if m == 2 {
        if src.len() >= w * p {
            Ok((dec_row2(src.take((w * p) as int), prev, p), w * p))
        } else {
            Err(CrxError::TruncatedPayload)
        }
    } else if m == 3 {
        if src.len() >= w * p {
            Ok((dec_row3(src.take((w * p) as int), prev, p), w * p))
        } else {
            Err(CrxError::TruncatedPayload)
        }
    } else if m == 4 {
        match dec_row4(src, w, p) {
            Some((row, u)) => Ok((row, u)),
            None => Err(CrxError::TruncatedPayload),
        }
    } else {
        Err(CrxError::InvalidRowMode)
    }
}

/// Decode `h` rows: each row is one mode byte followed by its coded bytes.
/// Returns the native-order image bytes, the recorded row modes, and the
/// number of payload bytes consumed; surplus bytes are ignored.
pub open spec fn dec_rows(src: Seq<u8>, w: nat, p: nat, h: nat, prev: Seq<u8>) -> Result<
    (Seq<u8>, Seq<u8>, nat),
    CrxError,
>
    decreases h,
{
    if h == 0 {
        Ok((Seq::empty(), Seq::empty(), 0))
    } else if src.len() == 0 {
        Err(CrxError::TruncatedPayload)
    } else {
        let m = src[0];
        match dec_row(m, src.skip(1), w, p, prev) {
            Err(e) => Err(e),
            Ok((row, used)) => match dec_rows(
                src.skip(1 + used as int),
                w,
                p,
                (h - 1) as nat,
                row,
            ) {
                Err(e) => Err(e),
                Ok((rest, modes, used2)) => Ok(
                    (row + rest, seq![m] + modes, (1 + used + used2) as nat),
                ),
            },
        }
    }
}

/// Byte `k` of the natural-order image for native byte order `b`:
/// BGR becomes RGB; ABGR with inverted alpha becomes RGBA.
pub open spec fn reorder_at(b: Seq<u8>, p: nat, k: int) -> u8 {
    let base = (k / p as int) * p as int;
    let c = k % p as int;
    if p == 3 {
        b[base + (2 - c)]
    } else if c == 3 {
        (0xff - b[base]) as u8
    } else {
        b[base + (3 - c)]
    }
}

/// The post-decode channel reorder, native order to natural order.
pub open spec fn reorder(b: Seq<u8>, p: nat) -> Seq<u8> {
    Seq::new(b.len(), |k: int| reorder_at(b, p, k))
}

/// Byte `k` of the native-order image for natural byte order `b`:
/// the inverse of [`reorder_at`].
pub open spec fn reorder_inv_at(b: Seq<u8>, p: nat, k: int) -> u8 {
    let base = (k / p as int) * p as int;
    let c = k % p as int;
    if p == 3 {
        b[base + (2 - c)]
    } else if c == 0 {
        (0xff - b[base + 3]) as u8
    } else {
        b[base + (3 - c)]
    }
}

/// The pre-encode channel reorder, natural order to native order.
pub open spec fn reorder_inv(b: Seq<u8>, p: nat) -> Seq<u8> {
    Seq::new(b.len(), |k: int| reorder_inv_at(b, p, k))
}

/// Mode 0 inverse: first pixel literal, every later byte subtracts the
/// byte one pixel to the left.
pub open spec fn enc_row0(d: Seq<u8>, p: nat) -> Seq<u8> {
    Seq::new(d.len(), |k: int| if k < p { d[k] } else { wsub(d[k], d[k - p]) })
}

/// Mode 1 inverse: every byte subtracts the byte directly above.
pub open spec fn enc_row1(d: Seq<u8>, prev: Seq<u8>) -> Seq<u8> {
    Seq::new(d.len(), |k: int| wsub(d[k], prev[k]))
}

/// Mode 2 inverse: first pixel literal, then subtract the byte above.
pub open spec fn enc_row2(d: Seq<u8>, prev: Seq<u8>, p: nat) -> Seq<u8> {
    Seq::new(d.len(), |k: int| if k < p { d[k] } else { wsub(d[k], prev[k]) })
}

/// Mode 3 inverse: last pixel literal, else subtract the byte above-right.
pub open spec fn enc_row3(d: Seq<u8>, prev: Seq<u8>, p: nat) -> Seq<u8> {
    Seq::new(
        d.len(),
        |k: int| if k >= d.len() - p { d[k] } else { wsub(d[k], prev[k + p]) },
    )
}

/// How many of the leading bytes of `c` equal `v`, capped at 255.
pub open spec fn run_len(c: Seq<u8>, v: u8) -> nat
    decreases c.len(),
{
    if c.len() == 0 || c[0] != v {
        0
    } else {
        let r = run_len(c.skip(1), v);
        if r + 1 > 255 {
            255
        } else {
            r + 1
        }
    }
}

/// A run never reaches past the end of the channel.
pub proof fn lemma_run_len_bound(c: Seq<u8>, v: u8)
    ensures
        run_len(c, v) <= c.len(),
        run_len(c, v) <= 255,
    decreases c.len(),
{
    if c.len() != 0 && c[0] == v {
        lemma_run_len_bound(c.skip(1), v);
    }
}

#[via_fn]
proof fn rle_enc_decreases(c: Seq<u8>) {
    if c.len() > 1 {
        lemma_run_len_bound(c.skip(1), c[0]);
    }
}

/// Run-length encode one channel.  Each literal is followed, when at least
/// one copy of it comes next, by the literal again and a run count.
pub open spec fn rle_enc(c: Seq<u8>) -> Seq<u8>
    decreases c.len(),
    via rle_enc_decreases
{
    if c.len() == 0 {
        Seq::empty()
    } else if c.len() == 1 {
        seq![c[0]]
    } else {
        let v = c[0];
        let r = run_len(c.skip(1), v);
        if r > 0 {
            seq![v, v, r as u8] + rle_enc(c.skip(1 + r as int))
        } else {
            seq![v] + rle_enc(c.skip(1))
        }
    }
}

/// Channel `c` of a `w`-pixel row `d` with `p` bytes per pixel.
pub open spec fn chan(d: Seq<u8>, p: nat, c: nat, w: nat) -> Seq<u8> {
    Seq::new(w, |i: int| d[i * p as int + c as int])
}

/// The encodings of channels `c..p` of row `d`, one after the other.
pub open spec fn enc_row4_chans(d: Seq<u8>, w: nat, p: nat, c: nat) -> Seq<u8>
    decreases p - c,
{
    if c >= p {
        Seq::empty()
    } else {
        rle_enc(chan(d, p, c, w)) + enc_row4_chans(d, w, p, (c + 1) as nat)
    }
}

/// Mode 4 inverse: per-channel run-length encoding.
pub open spec fn enc_row4(d: Seq<u8>, w: nat, p: nat) -> Seq<u8> {
    enc_row4_chans(d, w, p, 0)
}

/// Encode one native-order row `d` in mode `m` against the previous
/// native-order row `prev`.
pub open spec fn enc_row(m: u8, d: Seq<u8>, w: nat, p: nat, prev: Seq<u8>) -> Result<
    Seq<u8>,
    CrxError,
> {
    if m == 0 {
        Ok(enc_row0(d, p))
    } else if m == 1 {
        Ok(enc_row1(d, prev))
    } else if m == 2 {
        Ok(enc_row2(d, prev, p))
    } else if m == 3 {
        Ok(enc_row3(d, prev, p))
    } else if m == 4 {
        Ok(enc_row4(d, w, p))
    } else {
        Err(CrxError::InvalidRowMode)
    }
}

/// Encode the native-order rows in `rows` with one mode byte per row,
/// taken in order from `modes`.
pub open spec fn enc_rows(rows: Seq<u8>, modes: Seq<u8>, w: nat, p: nat, prev: Seq<u8>) -> Result<
    Seq<u8>,
    CrxError,
>
    decreases modes.len(),
{
    if modes.len() == 0 {
        Ok(Seq::empty())
    } else {
        let row = rows.take((w * p) as int);
        match enc_row(modes[0], row, w, p, prev) {
            Err(e) => Err(e),
            Ok(e0) => match enc_rows(rows.skip((w * p) as int), modes.skip(1), w, p, row) {
                Err(e) => Err(e),
                Ok(rest) => Ok(seq![modes[0]] + e0 + rest),
            },
        }
    }
}

/// Encode a whole image: the inverse channel reorder, then `h` mode-tagged
/// rows, one per entry of `modes`.
pub open spec fn spec_encode_image(pixels: Seq<u8>, modes: Seq<u8>, w: nat, p: nat) -> Result<
    Seq<u8>,
    CrxError,
> {
    enc_rows(reorder_inv(pixels, p), modes, w, p, zero_row(w, p))
}

/// Decode a whole image: `h` mode-tagged rows, then the channel reorder.
pub open spec fn spec_decode_image(src: Seq<u8>, w: nat, h: nat, p: nat) -> Result<
    (Seq<u8>, Seq<u8>),
    CrxError,
> {
    match dec_rows(src, w, p, h, zero_row(w, p)) {
        Ok((native, modes, used)) => Ok((reorder(native, p), modes)),
        Err(e) => Err(e),
    }
}

/// The pixel base and channel of a row index, and the bounds that let the
/// reorder spec functions be chased through one another.
proof fn lemma_index_parts(k: int, p: int, len: int)
    requires
        p > 0,
        0 <= k < len,
        len % p == 0,
    ensures
        (k / p) * p + k % p == k,
        0 <= k % p < p,
        k / p >= 0,
        (k / p) * p + p <= len,
{
    vstd::arithmetic::div_mod::lemma_fundamental_div_mod(k, p);
    vstd::arithmetic::div_mod::lemma_fundamental_div_mod(len, p);
    let q = k / p;
    let m = len / p;
    assert(q * p + p <= len) by (nonlinear_arith)
        requires
            p > 0,
            q * p <= k,
            k < len,
            len == p * m,
    {
    }
}

/// Index `q * p + c` of a row sits in pixel `q` at channel `c`.
proof fn lemma_pixel_channel(q: int, c: int, p: int)
    requires
        p > 0,
        0 <= c < p,
        q >= 0,
    ensures
        (q * p + c) / p == q,
        (q * p + c) % p == c,
{
    vstd::arithmetic::div_mod::lemma_fundamental_div_mod_converse(q * p + c, p, q, c);
}

/// The channel reorder undoes its inverse: natural to native and back is
/// the identity.
pub proof fn lemma_reorder_inv_round_trip(b: Seq<u8>, p: nat)
    requires
        p == 3 || p == 4,
        b.len() as int % p as int == 0,
    ensures
        reorder(reorder_inv(b, p), p) == b,
{
    let b1 = reorder_inv(b, p);
    assert forall|k: int| 0 <= k < b.len() implies reorder(b1, p)[k] == b[k] by {
        lemma_index_parts(k, p as int, b.len() as int);
        let q = k / p as int;
        let c = k % p as int;
        if p == 3 {
            lemma_pixel_channel(q, 2 - c, 3);
            assert(reorder(b1, p)[k] == b1[q * 3 + (2 - c)]);
        } else if c == 3 {
            lemma_pixel_channel(q, 0, 4);
            assert(reorder(b1, p)[k] == (0xff - b1[q * 4]) as u8);
        } else {
            lemma_pixel_channel(q, 3 - c, 4);
            assert(reorder(b1, p)[k] == b1[q * 4 + (3 - c)]);
        }
    }
    assert(reorder(b1, p) =~= b);
}

/// The inverse channel reorder undoes the reorder: native to natural and
/// back is the identity.
pub proof fn lemma_reorder_round_trip(b: Seq<u8>, p: nat)
    requires
        p == 3 || p == 4,
        b.len() as int % p as int == 0,
    ensures
        reorder_inv(reorder(b, p), p) == b,
{
    let b1 = reorder(b, p);
    assert forall|k: int| 0 <= k < b.len() implies reorder_inv(b1, p)[k] == b[k] by {
        lemma_index_parts(k, p as int, b.len() as int);
        let q = k / p as int;
        let c = k % p as int;
        if p == 3 {
            lemma_pixel_channel(q, 2 - c, 3);
            assert(reorder_inv(b1, p)[k] == b1[q * 3 + (2 - c)]);
        } else if c == 0 {
            lemma_pixel_channel(q, 3, 4);
            assert(reorder_inv(b1, p)[k] == (0xff - b1[q * 4 + 3]) as u8);
        } else {
            lemma_pixel_channel(q, 3 - c, 4);
            assert(reorder_inv(b1, p)[k] == b1[q * 4 + (3 - c)]);
        }
    }
    assert(reorder_inv(b1, p) =~= b);
}

/// For three-byte pixels the reorder is its own inverse: applied twice it
/// is the identity.
pub proof fn lemma_reorder_involution_rgb(b: Seq<u8>)
    requires
        b.len() % 3 == 0,
    ensures
        reorder(reorder(b, 3), 3) == b,
{
    assert(reorder_inv(b, 3) =~= reorder(b, 3));
    lemma_reorder_inv_round_trip(b, 3);
}

/// Mode 0 decoding undoes mode 0 encoding, byte by byte.
proof fn lemma_dec0_at(d: Seq<u8>, p: nat, k: int)
    requires
        p > 0,
        0 <= k < d.len(),
    ensures
        dec0_at(enc_row0(d, p), p, k) == d[k],
    decreases k,
{
    if k >= p {
        lemma_dec0_at(d, p, k - p);
        lemma_wrap_round_trip(d[k], d[k - p]);
    }
}

/// Mode 0 round trip over a whole row.
pub proof fn lemma_row0_round_trip(d: Seq<u8>, p: nat)
    requires
        p > 0,
    ensures
        dec_row0(enc_row0(d, p), p) == d,
{
    assert forall|k: int| 0 <= k < d.len() implies dec_row0(enc_row0(d, p), p)[k] == d[k] by {
        lemma_dec0_at(d, p, k);
    }
    assert(dec_row0(enc_row0(d, p), p) =~= d);
}

/// Mode 1 round trip over a whole row.
pub proof fn lemma_row1_round_trip(d: Seq<u8>, prev: Seq<u8>)
    requires
        prev.len() == d.len(),
    ensures
        dec_row1(enc_row1(d, prev), prev) == d,
{
    assert forall|k: int| 0 <= k < d.len() implies dec_row1(enc_row1(d, prev), prev)[k]
        == d[k] by {
        lemma_wrap_round_trip(d[k], prev[k]);
    }
    assert(dec_row1(enc_row1(d, prev), prev) =~= d);
}

/// Mode 2 round trip over a whole row.
pub proof fn lemma_row2_round_trip(d: Seq<u8>, prev: Seq<u8>, p: nat)
    requires
        prev.len() == d.len(),
    ensures
        dec_row2(enc_row2(d, prev, p), prev, p) == d,
{
    assert forall|k: int| 0 <= k < d.len() implies dec_row2(enc_row2(d, prev, p), prev, p)[k]
        == d[k] by {
        lemma_wrap_round_trip(d[k], prev[k]);
    }
    assert(dec_row2(enc_row2(d, prev, p), prev, p) =~= d);
}

/// Mode 3 round trip over a whole row.
pub proof fn lemma_row3_round_trip(d: Seq<u8>, prev: Seq<u8>, p: nat)
    requires
        prev.len() == d.len(),
    ensures
        dec_row3(enc_row3(d, prev, p), prev, p) == d,
{
    assert forall|k: int| 0 <= k < d.len() implies dec_row3(enc_row3(d, prev, p), prev, p)[k]
        == d[k] by {
        if k < d.len() - p {
            lemma_wrap_round_trip(d[k], prev[k + p]);
        }
    }
    assert(dec_row3(enc_row3(d, prev, p), prev, p) =~= d);
}

/// What a run count says of the channel bytes: the counted bytes all equal
/// the literal, and the byte after a short run differs from it.
pub proof fn lemma_run_len_props(c: Seq<u8>, v: u8)
    ensures
        run_len(c, v) <= c.len(),
        run_len(c, v) <= 255,
        forall|i: int| 0 <= i < run_len(c, v) ==> c[i] == v,
        run_len(c, v) < c.len() && run_len(c, v) < 255 ==> c[run_len(c, v) as int] != v,
    decreases c.len(),
{
    if c.len() != 0 && c[0] == v {
        lemma_run_len_props(c.skip(1), v);
        assert forall|i: int| 0 <= i < run_len(c, v) implies c[i] == v by {
            if i > 0 {
                assert(c.skip(1)[i - 1] == c[i]);
            }
        }
        if run_len(c, v) < c.len() && run_len(c, v) < 255 {
            assert(c.skip(1)[run_len(c, v) as int - 1] == c[run_len(c, v) as int]);
        }
    }
}

/// A nonempty channel's encoding starts with its first byte.
proof fn lemma_rle_enc_first(c: Seq<u8>)
    requires
        c.len() > 0,
    ensures
        rle_enc(c).len() > 0,
        rle_enc(c)[0] == c[0],
{
    if c.len() > 1 {
        lemma_run_len_bound(c.skip(1), c[0]);
    }
}

/// Run-length decoding undoes run-length encoding, whatever follows the
/// encoded channel in the input.
pub proof fn lemma_rle_round_trip(c: Seq<u8>, rest: Seq<u8>)
    ensures
        rle_dec(rle_enc(c) + rest, c.len()) == Some((c, rle_enc(c).len() as nat)),
    decreases c.len(),
{
    let e = rle_enc(c);
    let src = e + rest;
    if c.len() == 0 {
        assert(e =~= Seq::<u8>::empty());
        assert(src =~= rest);
        assert(rle_dec(src, 0) == Some((Seq::<u8>::empty(), 0nat)));
        assert(Seq::<u8>::empty() =~= c);
    } else if c.len() == 1 {
        assert(e =~= seq![c[0]]);
        assert(src[0] == c[0]);
        assert(seq![src[0]] =~= c);
    } else {
        let v = c[0];
        let r = run_len(c.skip(1), v);
        lemma_run_len_props(c.skip(1), v);
        if r > 0 {
            let c2 = c.skip(1 + r as int);
            let e2 = rle_enc(c2);
            assert(e =~= seq![v, v, r as u8] + e2);
            assert(src[0] == v && src[1] == v && src[2] == r as u8);
            assert(src.len() >= 3);
            assert(r <= c.len() - 1);
            lemma_rle_round_trip(c2, rest);
            assert(src.skip(3) =~= e2 + rest);
            assert(c2.len() == c.len() - 1 - r);
            let dec_inner = rle_dec(src.skip(3), (c.len() - 1 - r) as nat);
            assert(dec_inner == Some((c2, e2.len() as nat)));
            let out = seq![v] + Seq::new(r, |i: int| v) + c2;
            assert forall|i: int| 0 <= i < c.len() implies out[i] == c[i] by {
                if i == 0 {
                } else if i <= r {
                    assert(c.skip(1)[i - 1] == c[i]);
                } else {
                    assert(c.skip(1 + r as int)[i - 1 - r] == c[i]);
                }
            }
            assert(out =~= c);
            assert(rle_dec(src, c.len()) == Some((out, (3 + e2.len()) as nat)));
            assert(e.len() == 3 + e2.len());
        } else {
            let c2 = c.skip(1);
            let e2 = rle_enc(c2);
            assert(e =~= seq![v] + e2);
            assert(src[0] == v);
            lemma_rle_enc_first(c2);
            assert(src[1] == e2[0] && e2[0] == c2[0] && c2[0] == c[1]);
            assert(c[1] != v);
            lemma_rle_round_trip(c2, rest);
            assert(src.skip(1) =~= e2 + rest);
            let out = seq![v] + c2;
            assert(out =~= c);
            assert(rle_dec(src, c.len()) == Some((out, (1 + e2.len()) as nat)));
            assert(e.len() == 1 + e2.len());
        }
    }
}

/// The channels of a mode 4 row decode back, one after the other.
proof fn lemma_row4_chans_round_trip(d: Seq<u8>, w: nat, p: nat, c: nat, rest: Seq<u8>)
    requires
        c <= p,
        p > 0,
        d.len() == w * p,
    ensures
        rle_dec_chans(enc_row4_chans(d, w, p, c) + rest, w, (p - c) as nat) == Some(
            (Seq::new((p - c) as nat, |i: int| chan(d, p, (c + i) as nat, w)), enc_row4_chans(
                d,
                w,
                p,
                c,
            ).len() as nat),
        ),
    decreases p - c,
{
    let e = enc_row4_chans(d, w, p, c);
    if c >= p {
        assert(e =~= Seq::<u8>::empty());
        assert(e + rest =~= rest);
        assert(Seq::new(0, |i: int| chan(d, p, (c + i) as nat, w)) =~= Seq::<Seq<u8>>::empty());
    } else {
        let c0 = chan(d, p, c, w);
        let e0 = rle_enc(c0);
        let e1 = enc_row4_chans(d, w, p, (c + 1) as nat);
        assert(e =~= e0 + e1);
        assert(e + rest =~= e0 + (e1 + rest));
        lemma_rle_round_trip(c0, e1 + rest);
        assert(c0.len() == w);
        lemma_row4_chans_round_trip(d, w, p, (c + 1) as nat, rest);
        assert((e0 + (e1 + rest)).skip(e0.len() as int) =~= e1 + rest);
        let cs_rest = Seq::new((p - c - 1) as nat, |i: int| chan(d, p, (c + 1 + i) as nat, w));
        let cs_all = Seq::new((p - c) as nat, |i: int| chan(d, p, (c + i) as nat, w));
        assert(cs_all =~= seq![c0] + cs_rest);
    }
}

/// Weaving the channels of a row back together restores the row.
proof fn lemma_interleave_chans(d: Seq<u8>, w: nat, p: nat)
    requires
        p > 0,
        d.len() == w * p,
    ensures
        interleave(Seq::new(p, |i: int| chan(d, p, i as nat, w)), w, p) == d,
{
    let cs = Seq::new(p, |i: int| chan(d, p, i as nat, w));
    assert((w * p) as int % p as int == 0) by {
        assert(w * p == w as int * p as int) by (nonlinear_arith);
        vstd::arithmetic::div_mod::lemma_mod_multiples_basic(w as int, p as int);
    }
    assert forall|k: int| 0 <= k < w * p implies interleave(cs, w, p)[k] == d[k] by {
        lemma_index_parts(k, p as int, (w * p) as int);
        let q = k / p as int;
        let c = k % p as int;
        assert(q < w) by (nonlinear_arith)
            requires
                p > 0,
                q * p + c == k,
                0 <= c < p,
                0 <= k < w * p,
                q >= 0,
        {
        }
        assert(interleave(cs, w, p)[k] == cs[c][q]);
        assert(cs[c][q] == d[q * p as int + c]);
    }
    assert(interleave(cs, w, p) =~= d);
}

/// Mode 4 round trip over a whole row.
pub proof fn lemma_row4_round_trip(d: Seq<u8>, w: nat, p: nat, rest: Seq<u8>)
    requires
        p > 0,
        d.len() == w * p,
    ensures
        dec_row4(enc_row4(d, w, p) + rest, w, p) == Some(
            (d, enc_row4(d, w, p).len() as nat),
        ),
{
    lemma_row4_chans_round_trip(d, w, p, 0, rest);
    let cs = Seq::new(p, |i: int| chan(d, p, i as nat, w));
    assert(Seq::new((p - 0) as nat, |i: int| chan(d, p, (0 + i) as nat, w)) =~= cs);
    lemma_interleave_chans(d, w, p);
}

/// One-row round trip: decoding an encoded row in the same mode restores
/// the row and consumes exactly the encoding.
pub proof fn lemma_row_round_trip(m: u8, d: Seq<u8>, w: nat, p: nat, prev: Seq<u8>, rest: Seq<u8>)
    requires
        m <= 4,
        p > 0,
        d.len() == w * p,
        prev.len() == w * p,
    ensures
        enc_row(m, d, w, p, prev) matches Ok(e) && dec_row(m, e + rest, w, p, prev) == Ok::<
            _,
            CrxError,
        >((d, e.len() as nat)),
{
    let e = enc_row(m, d, w, p, prev).unwrap();
    if m == 4 {
        lemma_row4_round_trip(d, w, p, rest);
    } else {
        assert(e.len() == w * p);
        assert((e + rest).take((w * p) as int) =~= e);
        if m == 0 {
            lemma_row0_round_trip(d, p);
        } else if m == 1 {
            lemma_row1_round_trip(d, prev);
        } else if m == 2 {
            lemma_row2_round_trip(d, prev, p);
        } else {
            lemma_row3_round_trip(d, prev, p);
        }
    }
}

/// Encoding succeeds exactly when every row mode is in 0..=4.
pub proof fn lemma_enc_rows_ok(rows: Seq<u8>, modes: Seq<u8>, w: nat, p: nat, prev: Seq<u8>)
    requires
        forall|i: int| 0 <= i < modes.len() ==> modes[i] <= 4,
    ensures
        enc_rows(rows, modes, w, p, prev) is Ok,
    decreases modes.len(),
{
    if modes.len() > 0 {
        lemma_enc_rows_ok(rows.skip((w * p) as int), modes.skip(1), w, p, rows.take((w * p) as int));
        assert(forall|i: int|
            0 <= i < modes.skip(1).len() ==> modes.skip(1)[i] == modes[i + 1]);
    }
}

/// Multi-row round trip: decoding the concatenated encoded rows restores
/// the native bytes and the mode vector, whatever follows them.
#[verifier::rlimit(60)]
pub proof fn lemma_rows_round_trip(
    rows: Seq<u8>,
    modes: Seq<u8>,
    w: nat,
    p: nat,
    prev: Seq<u8>,
    rest: Seq<u8>,
)
    requires
        p > 0,
        rows.len() == modes.len() * (w * p),
        prev.len() == w * p,
        forall|i: int| 0 <= i < modes.len() ==> modes[i] <= 4,
    ensures
        enc_rows(rows, modes, w, p, prev) matches Ok(e) && dec_rows(
            e + rest,
            w,
            p,
            modes.len(),
            prev,
        ) == Ok::<_, CrxError>((rows, modes, e.len() as nat)),
    decreases modes.len(),
{
    lemma_enc_rows_ok(rows, modes, w, p, prev);
    let e = enc_rows(rows, modes, w, p, prev).unwrap();
    if modes.len() == 0 {
        assert(e =~= Seq::<u8>::empty());
        assert(rows =~= Seq::<u8>::empty());
        assert(modes =~= Seq::<u8>::empty());
        assert(dec_rows(e + rest, w, p, modes.len(), prev) == Ok::<_, CrxError>(
            (rows, modes, e.len() as nat),
        ));
    } else {
        let m = modes[0];
        assert(rows.len() >= w * p) by (nonlinear_arith)
            requires
                rows.len() == modes.len() * (w * p),
                modes.len() >= 1,
        {
        }
        let row = rows.take((w * p) as int);
        let rows2 = rows.skip((w * p) as int);
        let modes2 = modes.skip(1);
        assert(rows2.len() == modes2.len() * (w * p)) by (nonlinear_arith)
            requires
                rows.len() == modes.len() * (w * p),
                modes.len() >= 1,
                rows2.len() == rows.len() - w * p,
                modes2.len() == modes.len() - 1,
        {
        }
        let e0 = enc_row(m, row, w, p, prev).unwrap();
        lemma_enc_rows_ok(rows2, modes2, w, p, row);
        assert(forall|i: int| 0 <= i < modes2.len() ==> modes2[i] == modes[i + 1]);
        let e1 = enc_rows(rows2, modes2, w, p, row).unwrap();
        assert(e =~= seq![m] + e0 + e1);
        lemma_row_round_trip(m, row, w, p, prev, e1 + rest);
        lemma_rows_round_trip(rows2, modes2, w, p, row, rest);
        let src = e + rest;
        assert(e[0] == m);
        assert(src[0] == m);
        assert(src.skip(1) =~= e0 + (e1 + rest));
        assert(dec_row(m, src.skip(1), w, p, prev) == Ok::<_, CrxError>((row, e0.len() as nat)));
        assert(src.skip(1 + e0.len() as int) =~= e1 + rest);
        assert(dec_rows(src.skip(1 + e0.len() as int), w, p, (modes.len() - 1) as nat, row)
            == Ok::<_, CrxError>((rows2, modes2, e1.len() as nat)));
        assert(e.len() == 1 + e0.len() + e1.len());
        assert(row + rows2 =~= rows);
        assert(seq![m] + modes2 =~= modes);
        assert(dec_rows(src, w, p, modes.len(), prev) == Ok::<_, CrxError>(
            (rows, modes, e.len() as nat),
        ));
    }
}

/// Decode after encode restores the pixels and the row modes: re-encoding
/// a decoded image with its recorded modes and decoding again is lossless.
pub proof fn lemma_codec_round_trip(pixels: Seq<u8>, modes: Seq<u8>, w: nat, h: nat, p: nat)
    requires
        p == 3 || p == 4,
        modes.len() == h,
        pixels.len() == h * (w * p),
        forall|i: int| 0 <= i < modes.len() ==> modes[i] <= 4,
    ensures
        spec_encode_image(pixels, modes, w, p) matches Ok(e) && spec_decode_image(e, w, h, p)
            == Ok::<_, CrxError>((pixels, modes)),
{
    let native = reorder_inv(pixels, p);
    assert(pixels.len() as int % p as int == 0) by {
        assert(pixels.len() == (h * w) as int * p as int) by (nonlinear_arith)
            requires
                pixels.len() == h * (w * p),
        {
        }
        vstd::arithmetic::div_mod::lemma_mod_multiples_basic((h * w) as int, p as int);
    }
    lemma_rows_round_trip(native, modes, w, p, zero_row(w, p), Seq::empty());
    let e = enc_rows(native, modes, w, p, zero_row(w, p)).unwrap();
    assert(e + Seq::<u8>::empty() =~= e);
    lemma_reorder_inv_round_trip(pixels, p);
}

/// One clip record of a version 3 image: semantically opaque, preserved
/// verbatim on round trips.
#[derive(Debug, Clone, Copy, PartialEq, Eq, Structural)]
pub struct Clip {
    pub field_0: i32,
    pub field_4: i16,
    pub field_6: i16,
    pub field_8: i16,
    pub field_a: i16,
    pub field_c: i16,
    pub field_e: i16,
}

/// One decoded CRX image.
///
/// `data` holds the pixels in natural RGB or RGBA order, `compressed_data`
/// the raw compressed payload as last read or re-encoded, and `encode_type`
/// the per-row mode codes recorded at decode time and reused by re-encode.
#[derive(Debug)]
pub struct Crx {
    pub inner_x: i16,
    pub inner_y: i16,
    pub width: i16,
    pub height: i16,
    pub version: i16,
    pub flags: i16,
    pub bpp: i16,
    pub unknown: i16,
    pub data: Vec<u8>,
    pub compressed_data: Vec<u8>,
    pub clips: Vec<Clip>,
    pub encode_type: Vec<u8>,
}

/// A vector of `n` zero bytes.
fn zero_vec(n: usize) -> (r: Vec<u8>)
    ensures
        r@ == Seq::new(n as nat, |i: int| 0u8),
{
    let mut v: Vec<u8> = Vec::new();
    let mut i: usize = 0;
    while i < n
        invariant
            i <= n,
            v@ =~= Seq::new(i as nat, |j: int| 0u8),
        decreases n - i,
    {
        v.push(0);
        i = i + 1;
    }
    assert(v@ =~= Seq::new(n as nat, |j: int| 0u8));
    v
}

impl Crx {

/// Decode one mode 0 row taken from `src` at `sp`.
fn decode_row0(src: &Vec<u8>, sp: usize, width: usize, pixel_size: usize) -> (r: Result<
    Vec<u8>,
    CrxError,
>)
    requires
        sp <= src.len(),
        1 <= width,
        1 <= pixel_size,
        width * pixel_size <= usize::MAX,
    ensures
        match r {
            Ok(row) => {
                &&& sp + width * pixel_size <= src.len()
                &&& row@ == dec_row0(
                    src@.subrange(sp as int, sp + width * pixel_size),
                    pixel_size as nat,
                )
                &&& row@.len() == width * pixel_size
            },
            Err(e) => e == CrxError::TruncatedPayload && sp + width * pixel_size > src.len(),
        },
{
    let rowlen: usize = width * pixel_size;
    if src.len() - sp < rowlen {
        return Err(CrxError::TruncatedPayload);
    }
    let ghost s = src@.subrange(sp as int, sp + rowlen);
    let mut row: Vec<u8> = Vec::new();
    let mut k: usize = 0;
    while k < rowlen
        invariant
            k <= rowlen,
            rowlen == width * pixel_size,
            1 <= pixel_size,
            sp + rowlen <= src.len(),
            s == src@.subrange(sp as int, sp + rowlen),
            row@.len() == k,
            forall|j: int| 0 <= j < k ==> row@[j] == dec0_at(s, pixel_size as nat, j),
        decreases rowlen - k,
    {
        assert(s[k as int] == src@[sp + k]);
        let b = if k < pixel_size {
            src[sp + k]
        } else {
            src[sp + k].wrapping_add(row[k - pixel_size])
        };
        assert(b == dec0_at(s, pixel_size as nat, k as int));
        row.push(b);
        k = k + 1;
    }
    assert(row@ =~= dec_row0(s, pixel_size as nat));
    Ok(row)
}

/// Decode one mode 1 row taken from `src` at `sp`, against `prev`.
fn decode_row1(src: &Vec<u8>, sp: usize, width: usize, pixel_size: usize, prev: &Vec<u8>) -> (r:
    Result<Vec<u8>, CrxError>)
    requires
        sp <= src.len(),
        1 <= width,
        1 <= pixel_size,
        width * pixel_size <= usize::MAX,
        prev@.len() == width * pixel_size,
    ensures
        match r {
            Ok(row) => {
                &&& sp + width * pixel_size <= src.len()
                &&& row@ == dec_row1(src@.subrange(sp as int, sp + width * pixel_size), prev@)
                &&& row@.len() == width * pixel_size
            },
            Err(e) => e == CrxError::TruncatedPayload && sp + width * pixel_size > src.len(),
        },
{
    let rowlen: usize = width * pixel_size;
    if src.len() - sp < rowlen {
        return Err(CrxError::TruncatedPayload);
    }
    let ghost s = src@.subrange(sp as int, sp + rowlen);
    let mut row: Vec<u8> = Vec::new();
    let mut k: usize = 0;
    while k < rowlen
        invariant
            k <= rowlen,
            rowlen == width * pixel_size,
            sp + rowlen <= src.len(),
            s == src@.subrange(sp as int, sp + rowlen),
            prev@.len() == rowlen,
            row@.len() == k,
            forall|j: int| 0 <= j < k ==> row@[j] == wadd(s[j], prev@[j]),
        decreases rowlen - k,
    {
        assert(s[k as int] == src@[sp + k]);
        let b = src[sp + k].wrapping_add(prev[k]);
        row.push(b);
        k = k + 1;
    }
    assert(row@ =~= dec_row1(s, prev@));
    Ok(row)
}

/// Decode one mode 2 row taken from `src` at `sp`, against `prev`.
fn decode_row2(src: &Vec<u8>, sp: usize, width: usize, pixel_size: usize, prev: &Vec<u8>) -> (r:
    Result<Vec<u8>, CrxError>)
    requires
        sp <= src.len(),
        1 <= width,
        1 <= pixel_size,
        width * pixel_size <= usize::MAX,
        prev@.len() == width * pixel_size,
    ensures
        match r {
            Ok(row) => {
                &&& sp + width * pixel_size <= src.len()
                &&& row@ == dec_row2(
                    src@.subrange(sp as int, sp + width * pixel_size),
                    prev@,
                    pixel_size as nat,
                )
                &&& row@.len() == width * pixel_size
            },
            Err(e) => e == CrxError::TruncatedPayload && sp + width * pixel_size > src.len(),
        },
{
    let rowlen: usize = width * pixel_size;
    if src.len() - sp < rowlen {
        return Err(CrxError::TruncatedPayload);
    }
    let ghost s = src@.subrange(sp as int, sp + rowlen);
    let mut row: Vec<u8> = Vec::new();
    let mut k: usize = 0;
    while k < rowlen
        invariant
            k <= rowlen,
            rowlen == width * pixel_size,
            1 <= pixel_size,
            sp + rowlen <= src.len(),
            s == src@.subrange(sp as int, sp + rowlen),
            prev@.len() == rowlen,
            row@.len() == k,
            forall|j: int|
                0 <= j < k ==> row@[j] == (if j < pixel_size {
                    s[j]
                } else {
                    wadd(s[j], prev@[j])
                }),
        decreases rowlen - k,
    {
        assert(s[k as int] == src@[sp + k]);
        let b = if k < pixel_size {
            src[sp + k]
        } else {
            src[sp + k].wrapping_add(prev[k])
        };
        row.push(b);
        k = k + 1;
    }
    assert(row@ =~= dec_row2(s, prev@, pixel_size as nat));
    Ok(row)
}

/// Decode one mode 3 row taken from `src` at `sp`, against `prev`.
fn decode_row3(src: &Vec<u8>, sp: usize, width: usize, pixel_size: usize, prev: &Vec<u8>) -> (r:
    Result<Vec<u8>, CrxError>)
    requires
        sp <= src.len(),
        1 <= width,
        1 <= pixel_size,
        width * pixel_size <= usize::MAX,
        prev@.len() == width * pixel_size,
    ensures
        match r {
            Ok(row) => {
                &&& sp + width * pixel_size <= src.len()
                &&& row@ == dec_row3(
                    src@.subrange(sp as int, sp + width * pixel_size),
                    prev@,
                    pixel_size as nat,
                )
                &&& row@.len() == width * pixel_size
            },
            Err(e) => e == CrxError::TruncatedPayload && sp + width * pixel_size > src.len(),
        },
{
    let rowlen: usize = width * pixel_size;
    if src.len() - sp < rowlen {
        return Err(CrxError::TruncatedPayload);
    }
    assert(rowlen >= pixel_size) by (nonlinear_arith)
        requires
            1 <= width,
            rowlen == width * pixel_size,
    {
    }
    let ghost s = src@.subrange(sp as int, sp + rowlen);
    let mut row: Vec<u8> = Vec::new();
    let mut k: usize = 0;
    while k < rowlen
        invariant
            k <= rowlen,
            rowlen == width * pixel_size,
            1 <= pixel_size <= rowlen,
            sp + rowlen <= src.len(),
            s == src@.subrange(sp as int, sp + rowlen),
            prev@.len() == rowlen,
            row@.len() == k,
            forall|j: int|
                0 <= j < k ==> row@[j] == (if j >= rowlen - pixel_size {
                    s[j]
                } else {
                    wadd(s[j], prev@[j + pixel_size])
                }),
        decreases rowlen - k,
    {
        assert(s[k as int] == src@[sp + k]);
        let b = if k >= rowlen - pixel_size {
            src[sp + k]
        } else {
            src[sp + k].wrapping_add(prev[k + pixel_size])
        };
        row.push(b);
        k = k + 1;
    }
    assert(row@ =~= dec_row3(s, prev@, pixel_size as nat));
    Ok(row)
}

}

/// Chaining two decode continuations composes their emitted prefixes and
/// consumed counts.
proof fn lemma_rle_step_compose(
    s0: Seq<u8>,
    w0: nat,
    pre: Seq<u8>,
    d1: nat,
    s1: Seq<u8>,
    w1: nat,
    chunk: Seq<u8>,
    d2: nat,
    s2: Seq<u8>,
    w2: nat,
)
    requires
        rle_dec(s0, w0) == (match rle_dec(s1, w1) {
            Some(t) => Some::<(Seq<u8>, nat)>((pre + t.0, (d1 + t.1) as nat)),
            None => None::<(Seq<u8>, nat)>,
        }),
        rle_dec(s1, w1) == (match rle_dec(s2, w2) {
            Some(t) => Some::<(Seq<u8>, nat)>((chunk + t.0, (d2 + t.1) as nat)),
            None => None::<(Seq<u8>, nat)>,
        }),
    ensures
        rle_dec(s0, w0) == (match rle_dec(s2, w2) {
            Some(t) => Some::<(Seq<u8>, nat)>(((pre + chunk) + t.0, ((d1 + d2) + t.1) as nat)),
            None => None::<(Seq<u8>, nat)>,
        }),
{
    match rle_dec(s2, w2) {
        Some(t) => {
            assert(pre + (chunk + t.0) =~= (pre + chunk) + t.0);
        },
        None => {},
    }
}

impl Crx {

/// Decode one mode 4 channel of `width` bytes from `src` at `sp`.
fn decode_rle_channel(src: &Vec<u8>, sp: usize, width: usize) -> (r: Result<
    (Vec<u8>, usize),
    CrxError,
>)
    requires
        sp <= src.len(),
        1 <= width,
    ensures
        match r {
            Ok((ch, sp2)) => {
                &&& sp <= sp2 <= src.len()
                &&& rle_dec(src@.skip(sp as int), width as nat) == Some(
                    (ch@, (sp2 - sp) as nat),
                )
                &&& ch@.len() == width
            },
            Err(e) => e == CrxError::TruncatedPayload && rle_dec(
                src@.skip(sp as int),
                width as nat,
            ) is None,
        },
{
    let ghost s0 = src@.skip(sp as int);
    let mut out: Vec<u8> = Vec::new();
    let mut cur: usize = sp;
    let mut rem: usize = width;
    while rem > 0
        invariant
            out@.len() + rem == width,
            sp <= cur <= src.len(),
            s0 == src@.skip(sp as int),
            rle_dec(s0, width as nat) == (match rle_dec(src@.skip(cur as int), rem as nat) {
                Some(t) => Some::<(Seq<u8>, nat)>((out@ + t.0, ((cur - sp) + t.1) as nat)),
                None => None::<(Seq<u8>, nat)>,
            }),
        decreases rem,
    {
        let ghost scur = src@.skip(cur as int);
        let ghost pre = out@;
        let ghost d1 = (cur - sp) as nat;
        let ghost rem0 = rem as nat;
        if cur >= src.len() {
            assert(scur.len() == 0);
            assert(rle_dec(scur, rem as nat) is None);
            return Err(CrxError::TruncatedPayload);
        }
        let v = src[cur];
        assert(scur[0] == v);
        out.push(v);
        if rem == 1 {
            proof {
                assert(rle_dec(scur, 1) == Some::<(Seq<u8>, nat)>((seq![v], 1nat)));
                assert(rle_dec(scur, rem0) == (match rle_dec(src@.skip(cur + 1), 0nat) {
                    Some(t) => Some::<(Seq<u8>, nat)>((seq![v] + t.0, (1 + t.1) as nat)),
                    None => None::<(Seq<u8>, nat)>,
                })) by {
                    assert(seq![v] + Seq::<u8>::empty() =~= seq![v]);
                }
                lemma_rle_step_compose(
                    s0, width as nat, pre, d1, scur, rem0,
                    seq![v], 1nat, src@.skip(cur + 1), 0nat,
                );
                assert(pre + seq![v] =~= out@);
            }
            cur = cur + 1;
            rem = 0;
        } else if cur + 1 >= src.len() {
            assert(scur.len() < 2);
            assert(rle_dec(scur, rem0) is None);
            return Err(CrxError::TruncatedPayload);
        } else if src[cur + 1] == v {
            assert(scur[1] == v);
            if cur + 2 >= src.len() {
                assert(scur.len() < 3);
                assert(rle_dec(scur, rem0) is None);
                return Err(CrxError::TruncatedPayload);
            }
            let rc = src[cur + 2] as usize;
            assert(scur[2] == src@[cur + 2]);
            if rc > rem - 1 {
                assert(rle_dec(scur, rem0) is None);
                return Err(CrxError::TruncatedPayload);
            }
            let mut j: usize = 0;
            while j < rc
                invariant
                    j <= rc,
                    out@ =~= pre + seq![v] + Seq::new(j as nat, |i: int| v),
                decreases rc - j,
            {
                out.push(v);
                assert(out@ =~= pre + seq![v] + Seq::new((j + 1) as nat, |i: int| v));
                j = j + 1;
            }
            proof {
                let chunk = seq![v] + Seq::new(rc as nat, |i: int| v);
                assert(rle_dec(scur, rem0) == (match rle_dec(
                    src@.skip(cur + 3),
                    (rem0 - 1 - rc) as nat,
                ) {
                    Some(t) => Some::<(Seq<u8>, nat)>((chunk + t.0, (3 + t.1) as nat)),
                    None => None::<(Seq<u8>, nat)>,
                })) by {
                    assert(scur.skip(3) =~= src@.skip(cur + 3));
                    match rle_dec(src@.skip(cur + 3), (rem0 - 1 - rc) as nat) {
                        Some(t) => {
                            assert(seq![v] + Seq::new(rc as nat, |i: int| v) + t.0 =~= chunk
                                + t.0);
                        },
                        None => {},
                    }
                }
                lemma_rle_step_compose(
                    s0, width as nat, pre, d1, scur, rem0,
                    chunk, 3nat, src@.skip(cur + 3), (rem0 - 1 - rc) as nat,
                );
                assert(pre + chunk =~= out@);
            }
            cur = cur + 3;
            rem = rem - 1 - rc;
        } else {
            assert(scur[1] != v);
            proof {
                assert(rle_dec(scur, rem0) == (match rle_dec(
                    src@.skip(cur + 1),
                    (rem0 - 1) as nat,
                ) {
                    Some(t) => Some::<(Seq<u8>, nat)>((seq![v] + t.0, (1 + t.1) as nat)),
                    None => None::<(Seq<u8>, nat)>,
                })) by {
                    assert(scur.skip(1) =~= src@.skip(cur + 1));
                }
                lemma_rle_step_compose(
                    s0, width as nat, pre, d1, scur, rem0,
                    seq![v], 1nat, src@.skip(cur + 1), (rem0 - 1) as nat,
                );
                assert(pre + seq![v] =~= out@);
            }
            cur = cur + 1;
            rem = rem - 1;
        }
    }
    proof {
        assert(rle_dec(src@.skip(cur as int), 0nat) == Some::<(Seq<u8>, nat)>(
            (Seq::<u8>::empty(), 0nat),
        ));
        assert(out@ + Seq::<u8>::empty() =~= out@);
    }
    Ok((out, cur))
}

/// Decode one mode 4 row: each of the `pixel_size` channels in turn, woven
/// into the row at stride `pixel_size`.
fn decode_row4(src: &Vec<u8>, sp: usize, width: usize, pixel_size: usize) -> (r: Result<
    (Vec<u8>, usize),
    CrxError,
>)
    requires
        sp <= src.len(),
        1 <= width,
        1 <= pixel_size,
        width * pixel_size <= usize::MAX,
    ensures
        match r {
            Ok((row, sp2)) => {
                &&& sp <= sp2 <= src.len()
                &&& dec_row4(src@.skip(sp as int), width as nat, pixel_size as nat) == Some(
                    (row@, (sp2 - sp) as nat),
                )
                &&& row@.len() == width * pixel_size
            },
            Err(e) => e == CrxError::TruncatedPayload && dec_row4(
                src@.skip(sp as int),
                width as nat,
                pixel_size as nat,
            ) is None,
        },
{
    let ghost s0 = src@.skip(sp as int);
    let ghost w = width as nat;
    let ghost p = pixel_size as nat;
    let mut row: Vec<u8> = zero_vec(width * pixel_size);
    let mut c: usize = 0;
    let mut cur: usize = sp;
    let ghost mut done: Seq<Seq<u8>> = Seq::empty();
    while c < pixel_size
        invariant
            c <= pixel_size,
            sp <= cur <= src.len(),
            s0 == src@.skip(sp as int),
            w == width as nat,
            p == pixel_size as nat,
            1 <= width,
            1 <= pixel_size,
            width * pixel_size <= usize::MAX,
            row@.len() == width * pixel_size,
            done.len() == c,
            forall|i: int| 0 <= i < c ==> (#[trigger] done[i]).len() == width,
            rle_dec_chans(s0, w, p) == (match rle_dec_chans(
                src@.skip(cur as int),
                w,
                (p - c) as nat,
            ) {
                Some(t) => Some::<(Seq<Seq<u8>>, nat)>((done + t.0, ((cur - sp) + t.1) as nat)),
                None => None::<(Seq<Seq<u8>>, nat)>,
            }),
            forall|k: int|
                0 <= k < row@.len() && (k % (p as int)) < c ==> row@[k] == done[k % (p as int)][
                    k / (p as int)],
        decreases pixel_size - c,
    {
        let ghost scur = src@.skip(cur as int);
        let ghost done0 = done;
        let ghost d1 = (cur - sp) as nat;
        let res = Self::decode_rle_channel(src, cur, width);
        match res {
            Err(e) => {
                assert(rle_dec(scur, w) is None);
                assert(rle_dec_chans(scur, w, (p - c) as nat) is None);
                return Err(e);
            },
            Ok((ch, cur2)) => {
                // weave channel c into the row at stride pixel_size
                let mut i: usize = 0;
                while i < width
                    invariant
                        i <= width,
                        1 <= pixel_size,
                        c < pixel_size,
                        p == pixel_size as nat,
                        ch@.len() == width,
                        width * pixel_size <= usize::MAX,
                        row@.len() == width * pixel_size,
                        done0.len() == c,
                        forall|k: int|
                            0 <= k < row@.len() && (k % (p as int)) < c ==> row@[k] == done0[
                                k % (p as int)][k / (p as int)],
                        forall|k: int|
                            0 <= k < row@.len() && (k % (p as int)) == c && (k / (p as int)) < i
                                ==> row@[k] == ch@[k / (p as int)],
                    decreases width - i,
                {
                    assert(i * pixel_size + c < width * pixel_size) by (nonlinear_arith)
                        requires
                            0 <= i < width,
                            0 <= c < pixel_size,
                    {
                    }
                    let idx = i * pixel_size + c;
                    proof {
                        lemma_pixel_channel(i as int, c as int, pixel_size as int);
                    }
                    row.set(idx, ch[i]);
                    proof {
                        assert forall|k: int|
                            0 <= k < row@.len() && (k % (p as int)) == c && (k / (p as int)) < i
                                + 1 implies row@[k] == ch@[k / (p as int)] by {
                            vstd::arithmetic::div_mod::lemma_fundamental_div_mod(k, p as int);
                            vstd::arithmetic::div_mod::lemma_fundamental_div_mod(
                                idx as int,
                                p as int,
                            );
                            if k / (p as int) == i as int {
                                assert(k == (p as int) * (i as int) + c);
                                assert(idx == (p as int) * (i as int) + c);
                                assert(k == idx);
                            } else {
                                assert(k != idx);
                            }
                        }
                        assert forall|k: int|
                            0 <= k < row@.len() && (k % (p as int)) < c implies row@[k] == done0[
                            k % (p as int)][k / (p as int)] by {
                            vstd::arithmetic::div_mod::lemma_fundamental_div_mod(k, p as int);
                        }
                    }
                    i = i + 1;
                }
                proof {
                    done = done0.push(ch@);
                    let w2 = (p - c - 1) as nat;
                    assert(rle_dec_chans(scur, w, (p - c) as nat) == (match rle_dec_chans(
                        src@.skip(cur2 as int),
                        w,
                        w2,
                    ) {
                        Some(t) => Some::<(Seq<Seq<u8>>, nat)>(
                            (seq![ch@] + t.0, ((cur2 - cur) + t.1) as nat),
                        ),
                        None => None::<(Seq<Seq<u8>>, nat)>,
                    })) by {
                        assert(scur.skip((cur2 - cur) as int) =~= src@.skip(cur2 as int));
                    }
                    match rle_dec_chans(src@.skip(cur2 as int), w, w2) {
                        Some(t) => {
                            assert(done0 + (seq![ch@] + t.0) =~= done + t.0);
                        },
                        None => {},
                    }
                    assert forall|k: int|
                        0 <= k < row@.len() && (k % (p as int)) < c + 1 implies row@[k] == done[
                        k % (p as int)][k / (p as int)] by {
                        vstd::arithmetic::div_mod::lemma_fundamental_div_mod(k, p as int);
                        if k % (p as int) == c {
                            let q = k / (p as int);
                            assert(q < width) by (nonlinear_arith)
                                requires
                                    (p as int) * q + c == k,
                                    0 <= c < p,
                                    0 <= k < width * (p as int),
                                    q >= 0,
                            {
                            }
                        }
                    }
                }
                cur = cur2;
                c = c + 1;
            },
        }
    }
    proof {
        assert(rle_dec_chans(src@.skip(cur as int), w, 0nat) == Some::<(Seq<Seq<u8>>, nat)>(
            (Seq::<Seq<u8>>::empty(), 0nat),
        ));
        assert(done + Seq::<Seq<u8>>::empty() =~= done);
        assert(rle_dec_chans(s0, w, p) == Some::<(Seq<Seq<u8>>, nat)>(
            (done, (cur - sp) as nat),
        ));
        assert(row@.len() as int % p as int == 0) by {
            assert(row@.len() == width as int * pixel_size as int) by (nonlinear_arith)
                requires
                    row@.len() == width * pixel_size,
            {
            }
            vstd::arithmetic::div_mod::lemma_mod_multiples_basic(width as int, p as int);
        }
        assert forall|k: int| 0 <= k < row@.len() implies row@[k] == interleave(done, w, p)[k] by {
            lemma_index_parts(k, p as int, row@.len() as int);
        }
        assert(row@ =~= interleave(done, w, p));
    }
    Ok((row, cur))
}

}

/// Convert a native-order buffer to natural order.
fn reorder_pixels(buf: &Vec<u8>, pixel_size: usize) -> (r: Vec<u8>)
    requires
        pixel_size == 3 || pixel_size == 4,
        buf.len() as int % pixel_size as int == 0,
    ensures
        r@ == reorder(buf@, pixel_size as nat),
{
    let mut out: Vec<u8> = Vec::new();
    let mut k: usize = 0;
    while k < buf.len()
        invariant
            k <= buf.len(),
            pixel_size == 3 || pixel_size == 4,
            buf.len() as int % pixel_size as int == 0,
            out@.len() == k,
            forall|j: int| 0 <= j < k ==> out@[j] == reorder_at(buf@, pixel_size as nat, j),
        decreases buf.len() - k,
    {
        proof {
            lemma_index_parts(k as int, pixel_size as int, buf.len() as int);
        }
        let q = k / pixel_size;
        let c = k % pixel_size;
        let b = if pixel_size == 3 {
            buf[q * 3 + (2 - c)]
        } else if c == 3 {
            0xff - buf[q * 4]
        } else {
            buf[q * 4 + (3 - c)]
        };
        assert(b == reorder_at(buf@, pixel_size as nat, k as int));
        out.push(b);
        k = k + 1;
    }
    assert(out@ =~= reorder(buf@, pixel_size as nat));
    out
}

/// Convert a natural-order buffer to native order.
fn reorder_pixels_inv(buf: &Vec<u8>, pixel_size: usize) -> (r: Vec<u8>)
    requires
        pixel_size == 3 || pixel_size == 4,
        buf.len() as int % pixel_size as int == 0,
    ensures
        r@ == reorder_inv(buf@, pixel_size as nat),
{
    let mut out: Vec<u8> = Vec::new();
    let mut k: usize = 0;
    while k < buf.len()
        invariant
            k <= buf.len(),
            pixel_size == 3 || pixel_size == 4,
            buf.len() as int % pixel_size as int == 0,
            out@.len() == k,
            forall|j: int| 0 <= j < k ==> out@[j] == reorder_inv_at(buf@, pixel_size as nat, j),
        decreases buf.len() - k,
    {
        proof {
            lemma_index_parts(k as int, pixel_size as int, buf.len() as int);
        }
        let q = k / pixel_size;
        let c = k % pixel_size;
        let b = if pixel_size == 3 {
            buf[q * 3 + (2 - c)]
        } else if c == 0 {
            0xff - buf[q * 4 + 3]
        } else {
            buf[q * 4 + (3 - c)]
        };
        assert(b == reorder_inv_at(buf@, pixel_size as nat, k as int));
        out.push(b);
        k = k + 1;
    }
    assert(out@ =~= reorder_inv(buf@, pixel_size as nat));
    out
}

/// Chaining one decoded row onto a row-decode continuation.
proof fn lemma_dec_rows_compose(
    s0: Seq<u8>,
    w: nat,
    p: nat,
    h: nat,
    prev0: Seq<u8>,
    pre_native: Seq<u8>,
    pre_modes: Seq<u8>,
    d1: nat,
    s1: Seq<u8>,
    h1: nat,
    prev1: Seq<u8>,
    row: Seq<u8>,
    m: u8,
    d2: nat,
    s2: Seq<u8>,
)
    requires
        dec_rows(s0, w, p, h, prev0) == (match dec_rows(s1, w, p, h1, prev1) {
            Ok(t) => Ok::<(Seq<u8>, Seq<u8>, nat), CrxError>(
                (pre_native + t.0, pre_modes + t.1, (d1 + t.2) as nat),
            ),
            Err(e) => Err::<(Seq<u8>, Seq<u8>, nat), CrxError>(e),
        }),
        h1 >= 1,
        s1.len() > 0,
        s1[0] == m,
        dec_row(m, s1.skip(1), w, p, prev1) == Ok::<(Seq<u8>, nat), CrxError>((row, d2)),
        s2 == s1.skip(1 + d2 as int),
    ensures
        dec_rows(s0, w, p, h, prev0) == (match dec_rows(s2, w, p, (h1 - 1) as nat, row) {
            Ok(t) => Ok::<(Seq<u8>, Seq<u8>, nat), CrxError>(
                ((pre_native + row) + t.0, (pre_modes + seq![m]) + t.1, ((d1 + 1 + d2)
                    + t.2) as nat),
            ),
            Err(e) => Err::<(Seq<u8>, Seq<u8>, nat), CrxError>(e),
        }),
{
    match dec_rows(s2, w, p, (h1 - 1) as nat, row) {
        Ok(t) => {
            assert(pre_native + (row + t.0) =~= (pre_native + row) + t.0);
            assert(pre_modes + (seq![m] + t.1) =~= (pre_modes + seq![m]) + t.1);
        },
        Err(e) => {},
    }
}

impl Crx {

/// Decode a whole image from the decompressed payload `src`: one mode byte
/// and one coded row per image row, then the channel reorder.  Returns the
/// natural-order pixels and the recorded row modes.
#[verifier::rlimit(100)]
#[verifier::spinoff_prover]
pub fn decode_image(src: &Vec<u8>, width: usize, height: usize, pixel_size: usize) -> (r: Result<
    (Vec<u8>, Vec<u8>),
    CrxError,
>)
    requires
        1 <= width,
        pixel_size == 3 || pixel_size == 4,
        width * pixel_size <= usize::MAX,
    ensures
        match r {
            Ok((pix, modes)) => {
                &&& spec_decode_image(src@, width as nat, height as nat, pixel_size as nat)
                    == Ok::<_, CrxError>((pix@, modes@))
                &&& modes@.len() == height
                &&& pix@.len() == height * ((width * pixel_size) as nat)
            },
            Err(e) => spec_decode_image(src@, width as nat, height as nat, pixel_size as nat)
                == Err::<(Seq<u8>, Seq<u8>), _>(e),
        },
{
    let ghost w = width as nat;
    let ghost p = pixel_size as nat;
    let ghost h = height as nat;
    let rowlen: usize = width * pixel_size;
    let mut native: Vec<u8> = Vec::new();
    let mut modes: Vec<u8> = Vec::new();
    let mut prev: Vec<u8> = zero_vec(rowlen);
    assert(prev@ =~= zero_row(w, p));
    let mut sp: usize = 0;
    let mut y: usize = 0;
    proof {
        assert(src@.skip(0) =~= src@);
        match dec_rows(src@, w, p, h, zero_row(w, p)) {
            Ok(t) => {
                assert(Seq::<u8>::empty() + t.0 =~= t.0);
                assert(Seq::<u8>::empty() + t.1 =~= t.1);
            },
            Err(e) => {},
        }
    }
    while y < height
        invariant
            y <= height,
            sp <= src.len(),
            w == width as nat,
            p == pixel_size as nat,
            h == height as nat,
            1 <= width,
            pixel_size == 3 || pixel_size == 4,
            rowlen == width * pixel_size,
            prev@.len() == rowlen,
            native@.len() == y * (rowlen as nat),
            modes@.len() == y,
            dec_rows(src@, w, p, h, zero_row(w, p)) == (match dec_rows(
                src@.skip(sp as int),
                w,
                p,
                (h - y) as nat,
                prev@,
            ) {
                Ok(t) => Ok::<(Seq<u8>, Seq<u8>, nat), CrxError>(
                    (native@ + t.0, modes@ + t.1, ((sp as nat) + t.2) as nat),
                ),
                Err(e) => Err::<(Seq<u8>, Seq<u8>, nat), CrxError>(e),
            }),
        decreases height - y,
    {
        let ghost scur = src@.skip(sp as int);
        let ghost native0 = native@;
        let ghost modes0 = modes@;
        if sp >= src.len() {
            assert(scur.len() == 0);
            assert(dec_rows(scur, w, p, (h - y) as nat, prev@) == Err::<
                (Seq<u8>, Seq<u8>, nat),
                CrxError,
            >(CrxError::TruncatedPayload));
            return Err(CrxError::TruncatedPayload);
        }
        let m = src[sp];
        assert(scur[0] == m);
        let ghost srow = scur.skip(1);
        assert(srow =~= src@.skip(sp + 1));
        let step: Result<(Vec<u8>, usize), CrxError> = if m == 0 {
            match Self::decode_row0(src, sp + 1, width, pixel_size) {
                Ok(row) => Ok((row, rowlen)),
                Err(e) => Err(e),
            }
        } else if m == 1 {
            match Self::decode_row1(src, sp + 1, width, pixel_size, &prev) {
                Ok(row) => Ok((row, rowlen)),
                Err(e) => Err(e),
            }
        } else if m == 2 {
            match Self::decode_row2(src, sp + 1, width, pixel_size, &prev) {
                Ok(row) => Ok((row, rowlen)),
                Err(e) => Err(e),
            }
        } else if m == 3 {
            match Self::decode_row3(src, sp + 1, width, pixel_size, &prev) {
                Ok(row) => Ok((row, rowlen)),
                Err(e) => Err(e),
            }
        } else if m == 4 {
            match Self::decode_row4(src, sp + 1, width, pixel_size) {
                Ok((row, sp2)) => Ok((row, sp2 - (sp + 1))),
                Err(e) => Err(e),
            }
        } else {
            Err(CrxError::InvalidRowMode)
        };
        match step {
            Err(e) => {
                proof {
                    if m <= 3 {
                        assert(srow.len() < w * p);
                    }
                    assert(dec_row(m, srow, w, p, prev@) == Err::<(Seq<u8>, nat), CrxError>(e));
                }
                return Err(e);
            },
            Ok((row, used)) => {
                proof {
                    if m <= 3 {
                        assert(srow.take((w * p) as int) =~= src@.subrange(
                            sp + 1,
                            sp + 1 + rowlen,
                        ));
                    }
                    assert(dec_row(m, srow, w, p, prev@) == Ok::<(Seq<u8>, nat), CrxError>(
                        (row@, used as nat),
                    ));
                }
                modes.push(m);
                let mut i: usize = 0;
                while i < row.len()
                    invariant
                        i <= row.len(),
                        native@ =~= native0 + row@.subrange(0, i as int),
                    decreases row.len() - i,
                {
                    native.push(row[i]);
                    assert(native@ =~= native0 + row@.subrange(0, i + 1));
                    i = i + 1;
                }
                assert(native@ =~= native0 + row@);
                proof {
                    assert(scur.skip(1 + used as int) =~= src@.skip(sp + 1 + used));
                    assert(modes@ =~= modes0 + seq![m]);
                    lemma_dec_rows_compose(
                        src@, w, p, h, zero_row(w, p),
                        native0, modes0, sp as nat,
                        scur, (h - y) as nat, prev@,
                        row@, m, used as nat,
                        src@.skip(sp + 1 + used),
                    );
                    assert((y + 1) * (rowlen as nat) == y * (rowlen as nat) + rowlen)
                        by (nonlinear_arith);
                }
                prev = row;
                sp = sp + 1 + used;
                y = y + 1;
            },
        }
    }
    proof {
        assert(dec_rows(src@.skip(sp as int), w, p, 0nat, prev@) == Ok::<
            (Seq<u8>, Seq<u8>, nat),
            CrxError,
        >((Seq::empty(), Seq::empty(), 0nat)));
        assert(native@ + Seq::<u8>::empty() =~= native@);
        assert(modes@ + Seq::<u8>::empty() =~= modes@);
        assert(dec_rows(src@, w, p, h, zero_row(w, p)) == Ok::<
            (Seq<u8>, Seq<u8>, nat),
            CrxError,
        >((native@, modes@, sp as nat)));
        assert(native@.len() as int % pixel_size as int == 0) by {
            assert(native@.len() == (height as int * width as int) * (pixel_size as int))
                by (nonlinear_arith)
                requires
                    native@.len() == height as nat * ((width * pixel_size) as nat),
            {
            }
            vstd::arithmetic::div_mod::lemma_mod_multiples_basic(
                height as int * width as int,
                pixel_size as int,
            );
        }
    }
    let pix = reorder_pixels(&native, pixel_size);
    Ok((pix, modes))
}

}

/// A channel whose first `n` bytes all repeat `v` has a run of at least
/// `n`.
proof fn lemma_run_len_at_least(c: Seq<u8>, v: u8, n: nat)
    requires
        n <= c.len(),
        n <= 255,
        forall|i: int| 0 <= i < n ==> c[i] == v,
    ensures
        run_len(c, v) >= n,
    decreases n,
{
    if n > 0 {
        assert forall|i: int| 0 <= i < n - 1 implies c.skip(1)[i] == v by {
            assert(c.skip(1)[i] == c[i + 1]);
        }
        lemma_run_len_at_least(c.skip(1), v, (n - 1) as nat);
    }
}

/// A run count counts exactly the repeated bytes the loop saw.
proof fn lemma_run_len_char(c: Seq<u8>, v: u8, j: nat)
    requires
        j <= c.len(),
        j <= 255,
        forall|i: int| 0 <= i < j ==> c[i] == v,
        j < c.len() && j < 255 ==> c[j as int] != v,
    ensures
        run_len(c, v) == j,
    decreases j, c.len(),
{
    if c.len() == 0 || c[0] != v {
        assert(j == 0);
    } else {
        assert(j > 0) by {
            if j == 0 {
                assert(c[0int] != v);
            }
        }
        if j == 255 {
            assert forall|i: int| 0 <= i < 254 implies c.skip(1)[i] == v by {
                assert(c.skip(1)[i] == c[i + 1]);
            }
            lemma_run_len_at_least(c.skip(1), v, 254);
            lemma_run_len_bound(c.skip(1), v);
        } else {
            assert forall|i: int| 0 <= i < j - 1 implies c.skip(1)[i] == v by {
                assert(c.skip(1)[i] == c[i + 1]);
            }
            if j - 1 < c.len() - 1 && j - 1 < 255 {
                assert(c.skip(1)[j - 1] == c[j as int]);
            }
            lemma_run_len_char(c.skip(1), v, (j - 1) as nat);
        }
    }
}

/// Run-length encode one extracted channel.
fn rle_encode_vec(cv: &Vec<u8>) -> (out: Vec<u8>)
    ensures
        out@ == rle_enc(cv@),
{
    let mut out: Vec<u8> = Vec::new();
    let mut i: usize = 0;
    proof {
        assert(cv@.skip(0) =~= cv@);
        assert(Seq::<u8>::empty() + rle_enc(cv@) =~= rle_enc(cv@));
    }
    while i < cv.len()
        invariant
            i <= cv.len(),
            rle_enc(cv@) == out@ + rle_enc(cv@.skip(i as int)),
        decreases cv.len() - i,
    {
        let ghost out0 = out@;
        let ghost s = cv@.skip(i as int);
        let v = cv[i];
        assert(s[0] == v);
        out.push(v);
        if i + 1 == cv.len() {
            proof {
                assert(s.len() == 1);
                assert(rle_enc(s) =~= seq![v]);
                assert(out@ =~= out0 + rle_enc(s));
                assert(cv@.skip(cv.len() as int) =~= Seq::<u8>::empty());
                assert(out@ + rle_enc(Seq::<u8>::empty()) =~= out@);
            }
            i = i + 1;
        } else {
            let ghost tail = cv@.skip(i as int + 1);
            let mut j: usize = 0;
            while j < 255 && i + 1 + j < cv.len() && cv[i + 1 + j] == v
                invariant
                    j <= 255,
                    i + 1 + j <= cv.len(),
                    i + 1 < cv.len(),
                    tail == cv@.skip(i as int + 1),
                    forall|q: int| 0 <= q < j ==> tail[q] == v,
                decreases cv.len() - (i + 1 + j),
            {
                proof {
                    assert(tail[j as int] == cv@[i + 1 + j]);
                }
                j = j + 1;
            }
            proof {
                assert(s.skip(1) =~= tail);
                if j < tail.len() && j < 255 {
                    assert(tail[j as int] == cv@[i + 1 + j]);
                }
                lemma_run_len_char(tail, v, j as nat);
                assert(run_len(s.skip(1), v) == j);
            }
            if j > 0 {
                out.push(v);
                out.push(j as u8);
                proof {
                    assert(rle_enc(s) =~= seq![v, v, j as u8] + rle_enc(s.skip(1 + j)));
                    assert(s.skip(1 + j) =~= cv@.skip(i + 1 + j));
                    assert(out@ =~= out0 + seq![v, v, j as u8]);
                    match rle_enc(cv@.skip(i + 1 + j)) {
                        _ => {},
                    }
                    assert(out0 + (seq![v, v, j as u8] + rle_enc(cv@.skip(i + 1 + j))) =~= out@
                        + rle_enc(cv@.skip(i + 1 + j)));
                }
                i = i + 1 + j;
            } else {
                proof {
                    assert(rle_enc(s) =~= seq![v] + rle_enc(s.skip(1)));
                    assert(s.skip(1) =~= cv@.skip(i + 1));
                    assert(out@ =~= out0 + seq![v]);
                    assert(out0 + (seq![v] + rle_enc(cv@.skip(i + 1))) =~= out@ + rle_enc(
                        cv@.skip(i + 1),
                    ));
                }
                i = i + 1;
            }
        }
    }
    proof {
        assert(cv@.skip(cv.len() as int) =~= Seq::<u8>::empty());
        assert(out@ + rle_enc(Seq::<u8>::empty()) =~= out@);
    }
    out
}

impl Crx {

/// Extract channel `c` of a native-order row.
fn extract_channel(row: &Vec<u8>, c: usize, width: usize, pixel_size: usize) -> (r: Vec<u8>)
    requires
        row.len() == width * pixel_size,
        c < pixel_size,
    ensures
        r@ == chan(row@, pixel_size as nat, c as nat, width as nat),
{
    let mut v: Vec<u8> = Vec::new();
    let mut i: usize = 0;
    while i < width
        invariant
            i <= width,
            c < pixel_size,
            row.len() == width * pixel_size,
            v@.len() == i,
            forall|q: int| 0 <= q < i ==> v@[q] == row@[q * (pixel_size as int) + c],
        decreases width - i,
    {
        assert(i * pixel_size + c < width * pixel_size) by (nonlinear_arith)
            requires
                0 <= i < width,
                0 <= c < pixel_size,
        {
        }
        v.push(row[i * pixel_size + c]);
        i = i + 1;
    }
    assert(v@ =~= chan(row@, pixel_size as nat, c as nat, width as nat));
    v
}

/// Encode one row in mode 0.
fn encode_row0(row: &Vec<u8>, pixel_size: usize) -> (r: Vec<u8>)
    requires
        1 <= pixel_size,
    ensures
        r@ == enc_row0(row@, pixel_size as nat),
{
    let mut out: Vec<u8> = Vec::new();
    let mut k: usize = 0;
    while k < row.len()
        invariant
            k <= row.len(),
            1 <= pixel_size,
            out@.len() == k,
            forall|j: int|
                0 <= j < k ==> out@[j] == (if j < pixel_size {
                    row@[j]
                } else {
                    wsub(row@[j], row@[j - pixel_size])
                }),
        decreases row.len() - k,
    {
        let b = if k < pixel_size {
            row[k]
        } else {
            row[k].wrapping_sub(row[k - pixel_size])
        };
        out.push(b);
        k = k + 1;
    }
    assert(out@ =~= enc_row0(row@, pixel_size as nat));
    out
}

/// Encode one row in mode 1.
fn encode_row1(row: &Vec<u8>, prev: &Vec<u8>) -> (r: Vec<u8>)
    requires
        prev.len() == row.len(),
    ensures
        r@ == enc_row1(row@, prev@),
{
    let mut out: Vec<u8> = Vec::new();
    let mut k: usize = 0;
    while k < row.len()
        invariant
            k <= row.len(),
            prev.len() == row.len(),
            out@.len() == k,
            forall|j: int| 0 <= j < k ==> out@[j] == wsub(row@[j], prev@[j]),
        decreases row.len() - k,
    {
        out.push(row[k].wrapping_sub(prev[k]));
        k = k + 1;
    }
    assert(out@ =~= enc_row1(row@, prev@));
    out
}

/// Encode one row in mode 2.
fn encode_row2(row: &Vec<u8>, prev: &Vec<u8>, pixel_size: usize) -> (r: Vec<u8>)
    requires
        prev.len() == row.len(),
        1 <= pixel_size,
    ensures
        r@ == enc_row2(row@, prev@, pixel_size as nat),
{
    let mut out: Vec<u8> = Vec::new();
    let mut k: usize = 0;
    while k < row.len()
        invariant
            k <= row.len(),
            prev.len() == row.len(),
            1 <= pixel_size,
            out@.len() == k,
            forall|j: int|
                0 <= j < k ==> out@[j] == (if j < pixel_size {
                    row@[j]
                } else {
                    wsub(row@[j], prev@[j])
                }),
        decreases row.len() - k,
    {
        let b = if k < pixel_size {
            row[k]
        } else {
            row[k].wrapping_sub(prev[k])
        };
        out.push(b);
        k = k + 1;
    }
    assert(out@ =~= enc_row2(row@, prev@, pixel_size as nat));
    out
}

/// Encode one row in mode 3.
fn encode_row3(row: &Vec<u8>, prev: &Vec<u8>, pixel_size: usize) -> (r: Vec<u8>)
    requires
        prev.len() == row.len(),
        1 <= pixel_size <= row.len(),
    ensures
        r@ == enc_row3(row@, prev@, pixel_size as nat),
{
    let mut out: Vec<u8> = Vec::new();
    let mut k: usize = 0;
    while k < row.len()
        invariant
            k <= row.len(),
            prev.len() == row.len(),
            1 <= pixel_size <= row.len(),
            out@.len() == k,
            forall|j: int|
                0 <= j < k ==> out@[j] == (if j >= row.len() - pixel_size {
                    row@[j]
                } else {
                    wsub(row@[j], prev@[j + pixel_size])
                }),
        decreases row.len() - k,
    {
        let b = if k >= row.len() - pixel_size {
            row[k]
        } else {
            row[k].wrapping_sub(prev[k + pixel_size])
        };
        out.push(b);
        k = k + 1;
    }
    assert(out@ =~= enc_row3(row@, prev@, pixel_size as nat));
    out
}

/// Encode one row in mode 4: each channel run-length encoded in turn.
fn encode_row4(row: &Vec<u8>, width: usize, pixel_size: usize) -> (r: Vec<u8>)
    requires
        row.len() == width * pixel_size,
        1 <= pixel_size,
    ensures
        r@ == enc_row4(row@, width as nat, pixel_size as nat),
{
    let ghost w = width as nat;
    let ghost p = pixel_size as nat;
    let mut out: Vec<u8> = Vec::new();
    let mut c: usize = 0;
    while c < pixel_size
        invariant
            c <= pixel_size,
            w == width as nat,
            p == pixel_size as nat,
            row.len() == width * pixel_size,
            1 <= pixel_size,
            enc_row4(row@, w, p) == out@ + enc_row4_chans(row@, w, p, c as nat),
        decreases pixel_size - c,
    {
        let ghost out0 = out@;
        let cv = Self::extract_channel(row, c, width, pixel_size);
        let mut enc = rle_encode_vec(&cv);
        let ghost encv = enc@;
        out.append(&mut enc);
        proof {
            assert(enc_row4_chans(row@, w, p, c as nat) == rle_enc(chan(row@, p, c as nat, w))
                + enc_row4_chans(row@, w, p, (c + 1) as nat));
            assert(out@ =~= out0 + encv);
            assert(out0 + (encv + enc_row4_chans(row@, w, p, (c + 1) as nat)) =~= out@
                + enc_row4_chans(row@, w, p, (c + 1) as nat));
        }
        c = c + 1;
    }
    proof {
        assert(enc_row4_chans(row@, w, p, p) =~= Seq::<u8>::empty());
        assert(out@ + Seq::<u8>::empty() =~= out@);
    }
    out
}

/// Encode a whole image: the inverse channel reorder, then one mode byte
/// and one predictor-coded row per image row, modes taken from `row_type`.
#[verifier::rlimit(100)]
pub fn encode_image(
    pixels: &Vec<u8>,
    width: usize,
    height: usize,
    pixel_size: usize,
    row_type: &Vec<u8>,
) -> (r: Result<Vec<u8>, CrxError>)
    requires
        1 <= width,
        pixel_size == 3 || pixel_size == 4,
        width * pixel_size <= usize::MAX,
        pixels.len() == height * ((width * pixel_size) as nat),
        row_type.len() == height,
    ensures
        match r {
            Ok(out) => spec_encode_image(pixels@, row_type@, width as nat, pixel_size as nat)
                == Ok::<_, CrxError>(out@),
            Err(e) => {
                &&& spec_encode_image(pixels@, row_type@, width as nat, pixel_size as nat)
                    == Err::<Seq<u8>, _>(e)
                &&& e == CrxError::InvalidRowMode
            },
        },
{
    let ghost w = width as nat;
    let ghost p = pixel_size as nat;
    let rowlen: usize = width * pixel_size;
    proof {
        assert(pixels.len() as int % pixel_size as int == 0) by {
            assert(pixels.len() == (height as int * width as int) * (pixel_size as int))
                by (nonlinear_arith)
                requires
                    pixels.len() == height as nat * ((width * pixel_size) as nat),
            {
            }
            vstd::arithmetic::div_mod::lemma_mod_multiples_basic(
                height as int * width as int,
                pixel_size as int,
            );
        }
    }
    let native = reorder_pixels_inv(pixels, pixel_size);
    let ghost nv = native@;
    let mut out: Vec<u8> = Vec::new();
    let mut prev: Vec<u8> = zero_vec(rowlen);
    assert(prev@ =~= zero_row(w, p));
    let nlen: usize = native.len();
    assert(nv.len() == nlen as nat);
    let mut y: usize = 0;
    proof {
        assert(nv.skip(0) =~= nv);
        assert(row_type@.skip(0) =~= row_type@);
        match enc_rows(nv, row_type@, w, p, zero_row(w, p)) {
            Ok(t) => {
                assert(Seq::<u8>::empty() + t =~= t);
            },
            Err(_) => {},
        }
    }
    while y < height
        invariant
            y <= height,
            w == width as nat,
            p == pixel_size as nat,
            1 <= width,
            pixel_size == 3 || pixel_size == 4,
            rowlen == width * pixel_size,
            nv == native@,
            nv.len() == height * (rowlen as nat),
            row_type.len() == height,
            prev@.len() == rowlen,
            nv.len() <= usize::MAX,
            spec_encode_image(pixels@, row_type@, w, p) == (match enc_rows(
                nv.skip((y * (rowlen as nat)) as int),
                row_type@.skip(y as int),
                w,
                p,
                prev@,
            ) {
                Ok(t) => Ok::<Seq<u8>, CrxError>(out@ + t),
                Err(e) => Err::<Seq<u8>, CrxError>(e),
            }),
        decreases height - y,
    {
        proof {
            assert(y * (rowlen as nat) + rowlen <= height * (rowlen as nat))
                by (nonlinear_arith)
                requires
                    y < height,
                    rowlen >= 0,
            {
            }
        }
        let ghost rows_suf = nv.skip((y * (rowlen as nat)) as int);
        let ghost modes_suf = row_type@.skip(y as int);
        let ghost out0 = out@;
        let start: usize = y * rowlen;
        let m = row_type[y];
        if m > 4 {
            assert(modes_suf[0] == m);
            assert(enc_rows(rows_suf, modes_suf, w, p, prev@) == Err::<Seq<u8>, CrxError>(
                CrxError::InvalidRowMode,
            ));
            return Err(CrxError::InvalidRowMode);
        }
        let row = crate::ext::copy_exact(&native, start, rowlen);
        proof {
            assert(rows_suf.take(rowlen as int) =~= nv.subrange(start as int, start + rowlen));
        }
        out.push(m);
        let mut enc: Vec<u8> = if m == 0 {
            Self::encode_row0(&row, pixel_size)
        } else if m == 1 {
            Self::encode_row1(&row, &prev)
        } else if m == 2 {
            Self::encode_row2(&row, &prev, pixel_size)
        } else if m == 3 {
            assert(pixel_size <= row.len()) by (nonlinear_arith)
                requires
                    row.len() == width * pixel_size,
                    1 <= width,
                    1 <= pixel_size,
            {
            }
            Self::encode_row3(&row, &prev, pixel_size)
        } else {
            Self::encode_row4(&row, width, pixel_size)
        };
        let ghost encv = enc@;
        out.append(&mut enc);
        proof {
            assert(enc_row(m, row@, w, p, prev@) == Ok::<Seq<u8>, CrxError>(encv));
            assert(modes_suf[0] == m);
            assert(rows_suf.skip(rowlen as int) =~= nv.skip(((y + 1) * (rowlen as nat)) as int))
                by {
                assert((y + 1) * (rowlen as nat) == y * (rowlen as nat) + rowlen)
                    by (nonlinear_arith);
            }
            assert(modes_suf.skip(1) =~= row_type@.skip(y + 1));
            assert(out@ =~= out0 + (seq![m] + encv));
            match enc_rows(
                nv.skip(((y + 1) * (rowlen as nat)) as int),
                row_type@.skip(y + 1),
                w,
                p,
                row@,
            ) {
                Ok(t) => {
                    assert(out0 + (seq![m] + encv + t) =~= (out0 + (seq![m] + encv)) + t);
                },
                Err(_) => {},
            }
            assert((y + 1) * (rowlen as nat) == y * (rowlen as nat) + rowlen)
                by (nonlinear_arith);
            if y + 1 < height {
                assert((y + 1) * (rowlen as nat) + rowlen <= height * (rowlen as nat))
                    by (nonlinear_arith)
                    requires
                        y + 1 < height,
                        rowlen >= 0,
                {
                }
            }
        }
        prev = row;
        y = y + 1;
    }
    proof {
        assert(row_type@.skip(height as int).len() == 0);
        assert(enc_rows(
            nv.skip((height as nat * (rowlen as nat)) as int),
            row_type@.skip(height as int),
            w,
            p,
            prev@,
        ) == Ok::<Seq<u8>, CrxError>(Seq::<u8>::empty()));
        assert(out@ + Seq::<u8>::empty() =~= out@);
    }
    Ok(out)
}

/// Encode a 24-bit RGB image.
pub fn encode_image_bbp24(
    pixels: &Vec<u8>,
    width: usize,
    height: usize,
    row_type: &Vec<u8>,
) -> (r: Result<Vec<u8>, CrxError>)
    requires
        1 <= width,
        width * 3 <= usize::MAX,
        pixels.len() == height * ((width * 3) as nat),
        row_type.len() == height,
    ensures
        match r {
            Ok(out) => spec_encode_image(pixels@, row_type@, width as nat, 3) == Ok::<
                _,
                CrxError,
            >(out@),
            Err(e) => {
                &&& spec_encode_image(pixels@, row_type@, width as nat, 3) == Err::<Seq<u8>, _>(e)
                &&& e == CrxError::InvalidRowMode
            },
        },
{
    Self::encode_image(pixels, width, height, 3, row_type)
}

/// Encode a 32-bit RGBA image.
pub fn encode_image_bbp32(
    pixels: &Vec<u8>,
    width: usize,
    height: usize,
    row_type: &Vec<u8>,
) -> (r: Result<Vec<u8>, CrxError>)
    requires
        1 <= width,
        width * 4 <= usize::MAX,
        pixels.len() == height * ((width * 4) as nat),
        row_type.len() == height,
    ensures
        match r {
            Ok(out) => spec_encode_image(pixels@, row_type@, width as nat, 4) == Ok::<
                _,
                CrxError,
            >(out@),
            Err(e) => {
                &&& spec_encode_image(pixels@, row_type@, width as nat, 4) == Err::<Seq<u8>, _>(e)
                &&& e == CrxError::InvalidRowMode
            },
        },
{
    Self::encode_image(pixels, width, height, 4, row_type)
}

}

/// Drop the alpha channel of an RGBA buffer.
pub open spec fn spec_rgba_to_rgb(b: Seq<u8>) -> Seq<u8> {
    Seq::new((b.len() / 4) * 3, |k: int| b[(k / 3) * 4 + k % 3])
}

/// Append an opaque alpha channel to an RGB buffer.
pub open spec fn spec_rgb_to_rgba(b: Seq<u8>) -> Seq<u8> {
    Seq::new(
        (b.len() / 3) * 4,
        |k: int| if k % 4 == 3 {
            255u8
        } else {
            b[(k / 4) * 3 + k % 4]
        },
    )
}

impl Crx {

/// Keep the color bytes of each whole RGBA pixel, dropping alpha.
pub fn rgba_to_rgb(src: &Vec<u8>) -> (r: Vec<u8>)
    ensures
        r@ == spec_rgba_to_rgb(src@),
{
    let m: usize = src.len() / 4;
    proof {
        vstd::arithmetic::div_mod::lemma_fundamental_div_mod(src.len() as int, 4);
    }
    let n: usize = m * 3;
    let mut out: Vec<u8> = Vec::new();
    let mut k: usize = 0;
    while k < n
        invariant
            k <= n,
            m == src.len() as int / 4,
            n == m * 3,
            4 * m <= src.len(),
            out@.len() == k,
            forall|j: int| 0 <= j < k ==> out@[j] == src@[(j / 3) * 4 + j % 3],
        decreases n - k,
    {
        proof {
            vstd::arithmetic::div_mod::lemma_fundamental_div_mod(k as int, 3);
            let q = k as int / 3;
            assert(q * 4 + 4 <= 4 * m) by (nonlinear_arith)
                requires
                    q * 3 <= k,
                    k < m * 3,
                    q >= 0,
            {
            }
        }
        let q = k / 3;
        let c = k % 3;
        out.push(src[q * 4 + c]);
        k = k + 1;
    }
    assert(out@ =~= spec_rgba_to_rgb(src@));
    out
}

/// Give each whole RGB pixel an opaque alpha byte.
pub fn rgb_to_rgba(src: &Vec<u8>) -> (r: Vec<u8>)
    requires
        4 * (src.len() as int / 3) <= usize::MAX,
    ensures
        r@ == spec_rgb_to_rgba(src@),
{
    let m: usize = src.len() / 3;
    proof {
        vstd::arithmetic::div_mod::lemma_fundamental_div_mod(src.len() as int, 3);
    }
    let n: usize = m * 4;
    let mut out: Vec<u8> = Vec::new();
    let mut k: usize = 0;
    while k < n
        invariant
            k <= n,
            m == src.len() as int / 3,
            n == m * 4,
            3 * m <= src.len(),
            out@.len() == k,
            forall|j: int|
                0 <= j < k ==> out@[j] == (if j % 4 == 3 {
                    255u8
                } else {
                    src@[(j / 4) * 3 + j % 4]
                }),
        decreases n - k,
    {
        proof {
            vstd::arithmetic::div_mod::lemma_fundamental_div_mod(k as int, 4);
            let q = k as int / 4;
            assert(q * 3 + 3 <= 3 * m) by (nonlinear_arith)
                requires
                    q * 4 <= k,
                    k < m * 4,
                    q >= 0,
            {
            }
        }
        let q = k / 4;
        let c = k % 4;
        let b = if c == 3 {
            255
        } else {
            src[q * 3 + c]
        };
        out.push(b);
        k = k + 1;
    }
    assert(out@ =~= spec_rgb_to_rgba(src@));
    out
}

}

/// The mathematical value of a [`Crx`]: the same fields with sequences in
/// place of vectors.
pub struct CrxModel {
    pub inner_x: i16,
    pub inner_y: i16,
    pub width: i16,
    pub height: i16,
    pub version: i16,
    pub flags: i16,
    pub bpp: i16,
    pub unknown: i16,
    pub data: Seq<u8>,
    pub compressed_data: Seq<u8>,
    pub clips: Seq<Clip>,
    pub encode_type: Seq<u8>,
}

impl View for Crx {
    type V = CrxModel;

    open spec fn view(&self) -> CrxModel {
        CrxModel {
            inner_x: self.inner_x,
            inner_y: self.inner_y,
            width: self.width,
            height: self.height,
            version: self.version,
            flags: self.flags,
            bpp: self.bpp,
            unknown: self.unknown,
            data: self.data@,
            compressed_data: self.compressed_data@,
            clips: self.clips@,
            encode_type: self.encode_type@,
        }
    }
}

/// The low nibble of the flags word.
pub open spec fn low_nibble(flags: i16) -> u16 {
    as_u16(flags) % 16
}

/// Whether the flags word carries the explicit payload-size bit.
pub open spec fn flag_has_size(flags: i16) -> bool {
    (as_u16(flags) / 16) % 2 == 1
}

/// The flags word with the explicit payload-size bit set.
pub open spec fn or_size_flag(flags: i16) -> i16 {
    if flag_has_size(flags) {
        flags
    } else {
        as_i16((as_u16(flags) + 16) as u16)
    }
}

impl Crx {
    /// Bytes per pixel: 3 for RGB, 4 for RGBA.
    pub open spec fn spec_pixel_size(&self) -> nat {
        if self.bpp == 0 {
            3
        } else {
            4
        }
    }

    /// A structurally sound image: validated header words, one recorded
    /// mode per row, each mode in 0..=4, and a full pixel buffer.
    pub open spec fn wf(&self) -> bool {
        &&& 0 < self.width
        &&& 0 < self.height
        &&& self.version == 2 || self.version == 3
        &&& low_nibble(self.flags) <= 1
        &&& self.bpp == 0 || self.bpp == 1
        &&& self.encode_type.len() == self.height
        &&& forall|i: int| 0 <= i < self.encode_type.len() ==> self.encode_type[i] <= 4
        &&& self.data.len() == (self.height as nat) * ((self.width as nat)
            * self.spec_pixel_size())
        &&& self.version == 2 ==> self.clips.len() == 0
    }
}

/// The unsigned 16-bit word at offset `p` of `d`, little-endian.
pub open spec fn s_u16(d: Seq<u8>, p: int) -> u16 {
    le16(d[p], d[p + 1])
}

/// The signed 16-bit word at offset `p` of `d`, little-endian.
pub open spec fn s_i16(d: Seq<u8>, p: int) -> i16 {
    as_i16(s_u16(d, p))
}

/// The unsigned 32-bit word at offset `p` of `d`, little-endian.
pub open spec fn s_u32(d: Seq<u8>, p: int) -> u32 {
    le32(d[p], d[p + 1], d[p + 2], d[p + 3])
}

/// The signed 32-bit word at offset `p` of `d`, little-endian.
pub open spec fn s_i32(d: Seq<u8>, p: int) -> i32 {
    as_i32(s_u32(d, p))
}

/// The clip record stored at offset `pos` of `d`.
pub open spec fn spec_clip(d: Seq<u8>, pos: int) -> Clip {
    Clip {
        field_0: s_i32(d, pos),
        field_4: s_i16(d, pos + 4),
        field_6: s_i16(d, pos + 6),
        field_8: s_i16(d, pos + 8),
        field_a: s_i16(d, pos + 10),
        field_c: s_i16(d, pos + 12),
        field_e: s_i16(d, pos + 14),
    }
}

/// The `n` clip records stored from offset `pos` of `d`.
pub open spec fn spec_clips(d: Seq<u8>, pos: int, n: nat) -> Seq<Clip> {
    Seq::new(n, |i: int| spec_clip(d, pos + 16 * i))
}

/// Whether a payload selects the Zstandard decoder by its first four bytes.
pub open spec fn is_zstd(payload: Seq<u8>) -> bool {
    payload.len() >= 4 && payload[0] == 0x28u8 && payload[1] == 0xb5u8 && payload[2] == 0x2fu8
        && payload[3] == 0xfdu8
}

/// What a payload decompresses to: a Zstandard frame when its first four
/// bytes say so, a raw deflate stream otherwise.
pub open spec fn spec_decompress(payload: Seq<u8>) -> Option<Seq<u8>> {
    if is_zstd(payload) {
        zstd_unzip(payload)
    } else {
        inflate_of(payload)
    }
}

/// Parse one CRX image from the byte stream `d`: magic, the eight header
/// words and their validation, the clip table of a version 3 image, the
/// payload, and the decoded pixels.
pub open spec fn spec_read_crx(d: Seq<u8>) -> Result<CrxModel, CrxError> {
    if d.len() < 4 {
        Err(CrxError::UnexpectedEof)
    } else if s_i32(d, 0) != MAGIC {
        Err(CrxError::InvalidMagic)
    } else if d.len() < 20 {
        Err(CrxError::UnexpectedEof)
    } else {
        let width = s_i16(d, 8);
        let height = s_i16(d, 10);
        let version = s_i16(d, 12);
        let flags = s_i16(d, 14);
        let bpp = s_i16(d, 16);
        if version != 2 && version != 3 {
            Err(CrxError::UnsupportedVersion)
        } else if low_nibble(flags) > 1 {
            Err(CrxError::UnsupportedFlags)
        } else if bpp != 0 && bpp != 1 {
            Err(CrxError::UnsupportedBpp)
        } else if width <= 0 || height <= 0 {
            Err(CrxError::InvalidDimensions)
        } else {
            let ps: nat = if bpp == 0 {
                3
            } else {
                4
            };
            let ncl: nat = if version >= 3 {
                if d.len() < 24 || s_i32(d, 20) < 0 {
                    0
                } else {
                    s_i32(d, 20) as nat
                }
            } else {
                0
            };
            if version >= 3 && d.len() < 24 {
                Err(CrxError::UnexpectedEof)
            } else if version >= 3 && d.len() < 24 + 16 * ncl {
                Err(CrxError::UnexpectedEof)
            } else {
                let q: int = if version >= 3 {
                    24 + 16 * (ncl as int)
                } else {
                    20
                };
                if (width as nat) * (height as nat) * ps > usize::MAX {
                    Err(CrxError::InvalidDimensions)
                } else if !flag_has_size(flags) {
                    spec_read_crx_payload(d.subrange(q, d.len() as int), width, height, ps,
                        s_i16(d, 4), s_i16(d, 6), version, flags, bpp, s_i16(d, 18),
                        spec_clips(d, 24, ncl))
                } else if d.len() < q + 4 {
                    Err(CrxError::UnexpectedEof)
                } else if d.len() < q + 4 + s_u32(d, q) {
                    Err(CrxError::UnexpectedEof)
                } else {
                    spec_read_crx_payload(d.subrange(q + 4, q + 4 + s_u32(d, q)), width,
                        height, ps, s_i16(d, 4), s_i16(d, 6), version, flags, bpp, s_i16(d, 18),
                        spec_clips(d, 24, ncl))
                }
            }
        }
    }
}

/// The tail of [`spec_read_crx`]: decompress the payload and decode the
/// rows.
pub open spec fn spec_read_crx_payload(
    payload: Seq<u8>,
    width: i16,
    height: i16,
    ps: nat,
    inner_x: i16,
    inner_y: i16,
    version: i16,
    flags: i16,
    bpp: i16,
    unknown: i16,
    clips: Seq<Clip>,
) -> Result<CrxModel, CrxError> {
    match spec_decompress(payload) {
        None => Err(CrxError::DecompressionFailed),
        Some(adata) => match spec_decode_image(adata, width as nat, height as nat, ps) {
            Err(e) => Err(e),
            Ok((pix, modes)) => Ok(
                CrxModel {
                    inner_x,
                    inner_y,
                    width,
                    height,
                    version,
                    flags,
                    bpp,
                    unknown,
                    data: pix,
                    compressed_data: payload,
                    clips,
                    encode_type: modes,
                },
            ),
        },
    }
}

/// Compressor dispatch is metamorphic: two payloads that decompress to
/// the same bytes — one a Zstandard frame, the other a deflate stream,
/// say — parse to the same image, pixels, row modes and header words
/// alike; only the raw payload kept in `compressed_data` differs.
pub proof fn lemma_dispatch_metamorphic(
    p1: Seq<u8>,
    p2: Seq<u8>,
    width: i16,
    height: i16,
    ps: nat,
    inner_x: i16,
    inner_y: i16,
    version: i16,
    flags: i16,
    bpp: i16,
    unknown: i16,
    clips: Seq<Clip>,
)
    requires
        spec_decompress(p1) == spec_decompress(p2),
    ensures
        ({
            let r1 = spec_read_crx_payload(p1, width, height, ps, inner_x, inner_y, version,
                flags, bpp, unknown, clips);
            let r2 = spec_read_crx_payload(p2, width, height, ps, inner_x, inner_y, version,
                flags, bpp, unknown, clips);
            &&& (r1 is Ok <==> r2 is Ok)
            &&& r1 is Err ==> r1 == r2
            &&& r1 is Ok && r2 is Ok ==> {
                let m1 = r1->Ok_0;
                let m2 = r2->Ok_0;
                &&& m1.data == m2.data
                &&& m1.encode_type == m2.encode_type
                &&& m1.inner_x == m2.inner_x && m1.inner_y == m2.inner_y
                &&& m1.width == m2.width && m1.height == m2.height
                &&& m1.version == m2.version && m1.flags == m2.flags
                &&& m1.bpp == m2.bpp && m1.unknown == m2.unknown
                &&& m1.clips == m2.clips
            }
        }),
{
}

/// The bytes of one serialized clip record.
pub open spec fn spec_clip_bytes(c: Clip) -> Seq<u8> {
    i32_le(c.field_0) + i16_le(c.field_4) + i16_le(c.field_6) + i16_le(c.field_8) + i16_le(
        c.field_a,
    ) + i16_le(c.field_c) + i16_le(c.field_e)
}

/// The bytes of a serialized clip table.
pub open spec fn spec_clips_bytes(cs: Seq<Clip>) -> Seq<u8>
    decreases cs.len(),
{
    if cs.len() == 0 {
        Seq::empty()
    } else {
        spec_clip_bytes(cs[0]) + spec_clips_bytes(cs.skip(1))
    }
}

/// The bytes that serializing an image writes: header with the size bit
/// forced on, the clip table of a version 3 image, then the payload length
/// and the payload.
pub open spec fn spec_write_crx(c: CrxModel) -> Seq<u8> {
    i32_le(MAGIC) + i16_le(c.inner_x) + i16_le(c.inner_y) + i16_le(c.width) + i16_le(c.height)
        + i16_le(c.version) + i16_le(or_size_flag(c.flags)) + i16_le(c.bpp) + i16_le(c.unknown)
        + (if c.version >= 3 {
        i32_le(c.clips.len() as i32) + spec_clips_bytes(c.clips)
    } else {
        Seq::empty()
    }) + i32_le(c.compressed_data.len() as i32) + c.compressed_data
}

/// A stream that ends inside its clip table parses to an end-of-file
/// error.
proof fn lemma_read_eof_in_clips(d: Seq<u8>)
    requires
        d.len() >= 24,
        s_i32(d, 0) == MAGIC,
        s_i16(d, 12) == 3,
        low_nibble(s_i16(d, 14)) <= 1,
        s_i16(d, 16) == 0 || s_i16(d, 16) == 1,
        s_i16(d, 8) > 0,
        s_i16(d, 10) > 0,
        d.len() < 24 + 16 * (if s_i32(d, 20) < 0 {
            0int
        } else {
            s_i32(d, 20) as int
        }),
    ensures
        spec_read_crx(d) == Err::<CrxModel, CrxError>(CrxError::UnexpectedEof),
{
}

/// Read one 16-byte clip record.
fn read_clip(file: &mut MemReader) -> (r: Result<Clip, CrxError>)
    requires
        old(file).wf(),
    ensures
        final(file).wf(),
        final(file).data == old(file).data,
        match r {
            Ok(c) => {
                &&& old(file).pos + 16 <= old(file).data.len()
                &&& c == spec_clip(old(file).data@, old(file).pos as int)
                &&& final(file).pos == old(file).pos + 16
            },
            Err(e) => {
                &&& e == CrxError::UnexpectedEof
                &&& old(file).pos + 16 > old(file).data.len()
            },
        },
{
    let field_0 = match file.read_i32() {
        Ok(v) => v,
        Err(_) => {
            return Err(CrxError::UnexpectedEof);
        },
    };
    let field_4 = match file.read_i16() {
        Ok(v) => v,
        Err(_) => {
            return Err(CrxError::UnexpectedEof);
        },
    };
    let field_6 = match file.read_i16() {
        Ok(v) => v,
        Err(_) => {
            return Err(CrxError::UnexpectedEof);
        },
    };
    let field_8 = match file.read_i16() {
        Ok(v) => v,
        Err(_) => {
            return Err(CrxError::UnexpectedEof);
        },
    };
    let field_a = match file.read_i16() {
        Ok(v) => v,
        Err(_) => {
            return Err(CrxError::UnexpectedEof);
        },
    };
    let field_c = match file.read_i16() {
        Ok(v) => v,
        Err(_) => {
            return Err(CrxError::UnexpectedEof);
        },
    };
    let field_e = match file.read_i16() {
        Ok(v) => v,
        Err(_) => {
            return Err(CrxError::UnexpectedEof);
        },
    };
    Ok(Clip { field_0, field_4, field_6, field_8, field_a, field_c, field_e })
}

impl Crx {

/// Read one image from the byte stream under `file`'s cursor: parse and
/// validate the header, read the clip table and the compressed payload,
/// decompress it, and decode the rows.
#[verifier::rlimit(100)]
#[verifier::spinoff_prover]
pub fn read_from(file: &mut MemReader) -> (r: Result<Crx, CrxError>)
    requires
        old(file).wf(),
    ensures
        final(file).wf(),
        final(file).data == old(file).data,
        match r {
            Ok(crx) => {
                &&& spec_read_crx(old(file).data@.skip(old(file).pos as int)) == Ok::<
                    _,
                    CrxError,
                >(crx@)
                &&& crx.wf()
            },
            Err(e) => spec_read_crx(old(file).data@.skip(old(file).pos as int)) == Err::<
                CrxModel,
                _,
            >(e),
        },
{
    let ghost p0 = old(file).pos as int;
    let ghost d = old(file).data@.skip(p0);
    let magic = match file.read_i32() {
        Ok(v) => v,
        Err(_) => {
            return Err(CrxError::UnexpectedEof);
        },
    };
    assert(magic == s_i32(d, 0));
    if magic != MAGIC {
        return Err(CrxError::InvalidMagic);
    }
    let inner_x = match file.read_i16() {
        Ok(v) => v,
        Err(_) => {
            return Err(CrxError::UnexpectedEof);
        },
    };
    let inner_y = match file.read_i16() {
        Ok(v) => v,
        Err(_) => {
            return Err(CrxError::UnexpectedEof);
        },
    };
    let width = match file.read_i16() {
        Ok(v) => v,
        Err(_) => {
            return Err(CrxError::UnexpectedEof);
        },
    };
    let height = match file.read_i16() {
        Ok(v) => v,
        Err(_) => {
            return Err(CrxError::UnexpectedEof);
        },
    };
    let version = match file.read_i16() {
        Ok(v) => v,
        Err(_) => {
            return Err(CrxError::UnexpectedEof);
        },
    };
    let flags = match file.read_i16() {
        Ok(v) => v,
        Err(_) => {
            return Err(CrxError::UnexpectedEof);
        },
    };
    let bpp = match file.read_i16() {
        Ok(v) => v,
        Err(_) => {
            return Err(CrxError::UnexpectedEof);
        },
    };
    let unknown = match file.read_i16() {
        Ok(v) => v,
        Err(_) => {
            return Err(CrxError::UnexpectedEof);
        },
    };
    assert(inner_x == s_i16(d, 4) && inner_y == s_i16(d, 6) && width == s_i16(d, 8) && height
        == s_i16(d, 10) && version == s_i16(d, 12) && flags == s_i16(d, 14) && bpp == s_i16(
        d,
        16,
    ) && unknown == s_i16(d, 18));
    if version != 2 && version != 3 {
        return Err(CrxError::UnsupportedVersion);
    }
    let uflags: u16 = if flags >= 0 {
        flags as u16
    } else {
        (flags as i32 + 0x10000) as u16
    };
    assert(uflags == as_u16(flags));
    if uflags % 16 > 1 {
        return Err(CrxError::UnsupportedFlags);
    }
    if bpp != 0 && bpp != 1 {
        return Err(CrxError::UnsupportedBpp);
    }
    if width <= 0 || height <= 0 {
        return Err(CrxError::InvalidDimensions);
    }
    let pixel_size: usize = if bpp == 0 {
        3
    } else {
        4
    };
    let ghost ps = pixel_size as nat;
    let mut clips: Vec<Clip> = Vec::new();
    let ghost ncl: nat = if version >= 3 {
        if d.len() < 24 || s_i32(d, 20) < 0 {
            0
        } else {
            s_i32(d, 20) as nat
        }
    } else {
        0
    };
    if version >= 3 {
        let clip_count = match file.read_i32() {
            Ok(v) => v,
            Err(_) => {
                return Err(CrxError::UnexpectedEof);
            },
        };
        assert(clip_count == s_i32(d, 20));
        let mut i: i32 = 0;
        while i < clip_count
            invariant
                0 <= i,
                clip_count > 0 ==> i <= clip_count,
                clip_count <= 0 ==> i == 0,
                file.wf(),
                file.data == old(file).data,
                d == old(file).data@.skip(p0),
                p0 == old(file).pos as int,
                0 <= p0 <= old(file).data.len(),
                d.len() == old(file).data.len() - p0,
                file.pos == p0 + 24 + 16 * i,
                d.len() >= 24,
                s_i32(d, 0) == MAGIC,
                s_i16(d, 12) == 3,
                low_nibble(s_i16(d, 14)) <= 1,
                s_i16(d, 16) == 0 || s_i16(d, 16) == 1,
                s_i16(d, 8) > 0,
                s_i16(d, 10) > 0,
                clip_count == s_i32(d, 20),
                clip_count >= 0 ==> ncl == clip_count as nat,
                clip_count < 0 ==> ncl == 0,
                clips@.len() == i,
                forall|j: int| 0 <= j < i ==> clips@[j] == spec_clip(d, 24 + 16 * j),
            decreases clip_count - i,
        {
            let c = match read_clip(file) {
                Ok(c) => c,
                Err(_) => {
                    proof {
                        assert(d.len() < 24 + 16 * (i as int) + 16);
                        lemma_read_eof_in_clips(d);
                    }
                    return Err(CrxError::UnexpectedEof);
                },
            };
            proof {
                assert(c == spec_clip(d, 24 + 16 * (i as int)));
            }
            clips.push(c);
            i = i + 1;
        }
    }
    assert(clips@ =~= spec_clips(d, 24, ncl));
    let ghost q: int = if version >= 3 {
        24 + 16 * (ncl as int)
    } else {
        20
    };
    assert(file.pos == p0 + q);
    proof {
        assert(0 < (width as int) * (height as int) <= 0x4000_0000) by (nonlinear_arith)
            requires
                0 < width <= 0x7FFF,
                0 < height <= 0x7FFF,
        {
        }
        assert((width as int) * (height as int) * (pixel_size as int) <= 0x10_0000_0000)
            by (nonlinear_arith)
            requires
                0 < (width as int) * (height as int) <= 0x4000_0000,
                0 < pixel_size <= 4,
        {
        }
    }
    let wide: u64 = (width as u64) * (height as u64) * (pixel_size as u64);
    if wide > usize::MAX as u64 {
        return Err(CrxError::InvalidDimensions);
    }
    assert((width as nat) * (height as nat) * ps <= usize::MAX);
    let has_size = (uflags / 16) % 2 == 1;
    let compressed_data: Vec<u8> = if !has_size {
        let n = file.remaining();
        match file.read_exact(n) {
            Ok(v) => v,
            Err(_) => {
                assert(false);
                return Err(CrxError::UnexpectedEof);
            },
        }
    } else {
        let psize_i = match file.read_i32() {
            Ok(v) => v,
            Err(_) => {
                return Err(CrxError::UnexpectedEof);
            },
        };
        let psize_u: u32 = if psize_i >= 0 {
            psize_i as u32
        } else {
            (psize_i as i64 + 0x1_0000_0000) as u32
        };
        assert(psize_u == as_u32(psize_i) && psize_u == s_u32(d, q)) by {
            crate::ext::lemma_le32_round_trip(s_u32(d, q));
        }
        match file.read_exact(psize_u as usize) {
            Ok(v) => v,
            Err(_) => {
                return Err(CrxError::UnexpectedEof);
            },
        }
    };
    proof {
        if !has_size {
            assert(compressed_data@ =~= d.subrange(q, d.len() as int));
        } else {
            assert(compressed_data@ =~= d.subrange(q + 4, q + 4 + s_u32(d, q)));
        }
    }
    let is_z = compressed_data.len() >= 4 && compressed_data[0] == 0x28 && compressed_data[1]
        == 0xb5 && compressed_data[2] == 0x2f && compressed_data[3] == 0xfd;
    assert(is_z == is_zstd(compressed_data@));
    let adata = if is_z {
        match crate::utils::decompress_data(&compressed_data) {
            Ok(v) => v,
            Err(e) => {
                return Err(e);
            },
        }
    } else {
        match crate::utils::inflate_data(&compressed_data) {
            Ok(v) => v,
            Err(e) => {
                return Err(e);
            },
        }
    };
    assert(spec_decompress(compressed_data@) == Some(adata@));
    let w_us: usize = width as usize;
    let h_us: usize = height as usize;
    let (data, encode_type) = match Self::decode_image(&adata, w_us, h_us, pixel_size) {
        Ok(t) => t,
        Err(e) => {
            return Err(e);
        },
    };
    let crx = Crx {
        inner_x,
        inner_y,
        width,
        height,
        version,
        flags,
        bpp,
        unknown,
        data,
        compressed_data,
        clips,
        encode_type,
    };
    proof {
        match dec_rows(adata@, width as nat, pixel_size as nat, height as nat, zero_row(
            width as nat,
            pixel_size as nat,
        )) {
            Ok(t) => {
                lemma_dec_rows_modes_valid(adata@, width as nat, pixel_size as nat,
                    height as nat, zero_row(width as nat, pixel_size as nat));
            },
            Err(_) => {},
        }
        assert(crx.wf());
        assert(spec_read_crx(d) == Ok::<_, CrxError>(crx@));
    }
    Ok(crx)
}

}

impl Crx {

/// Serialize the image: the header with the explicit-size bit forced on,
/// the clip table of a version 3 image, then the payload length and the
/// raw compressed payload.
#[verifier::rlimit(100)]
#[verifier::spinoff_prover]
pub fn write_to(&self, f: &mut MemWriter)
    requires
        self.clips@.len() <= 0x7fff_ffff,
        self.compressed_data@.len() <= 0x7fff_ffff,
    ensures
        final(f).data@ == old(f).data@ + spec_write_crx(self@),
{
    let ghost start = f.data@;
    f.write_i32(MAGIC);
    f.write_i16(self.inner_x);
    f.write_i16(self.inner_y);
    f.write_i16(self.width);
    f.write_i16(self.height);
    f.write_i16(self.version);
    let uf: u16 = if self.flags >= 0 {
        self.flags as u16
    } else {
        (self.flags as i32 + 0x10000) as u16
    };
    assert(uf == as_u16(self.flags));
    let uf2: u16 = if (uf / 16) % 2 == 1 {
        uf
    } else {
        uf + 16
    };
    let nf: i16 = if uf2 < 0x8000 {
        uf2 as i16
    } else {
        (uf2 as i32 - 0x10000) as i16
    };
    proof {
        assert(nf == as_i16(uf2));
        assert(as_i16(as_u16(self.flags)) == self.flags);
        assert(nf == or_size_flag(self.flags));
    }
    f.write_i16(nf);
    f.write_i16(self.bpp);
    f.write_i16(self.unknown);
    let ghost head = start + i32_le(MAGIC) + i16_le(self.inner_x) + i16_le(self.inner_y)
        + i16_le(self.width) + i16_le(self.height) + i16_le(self.version) + i16_le(
        or_size_flag(self.flags),
    ) + i16_le(self.bpp) + i16_le(self.unknown);
    assert(f.data@ =~= head);
    if self.version >= 3 {
        f.write_i32(self.clips.len() as i32);
        let ghost base = f.data@;
        let mut i: usize = 0;
        proof {
            assert(self.clips@.skip(0) =~= self.clips@);
        }
        while i < self.clips.len()
            invariant
                i <= self.clips@.len(),
                base + spec_clips_bytes(self.clips@) =~= f.data@ + spec_clips_bytes(
                    self.clips@.skip(i as int),
                ),
            decreases self.clips@.len() - i,
        {
            let ghost before = f.data@;
            let c = self.clips[i];
            f.write_i32(c.field_0);
            f.write_i16(c.field_4);
            f.write_i16(c.field_6);
            f.write_i16(c.field_8);
            f.write_i16(c.field_a);
            f.write_i16(c.field_c);
            f.write_i16(c.field_e);
            proof {
                assert(f.data@ =~= before + spec_clip_bytes(c));
                let suf = self.clips@.skip(i as int);
                assert(suf[0] == self.clips@[i as int]);
                assert(suf.skip(1) =~= self.clips@.skip(i + 1));
                assert(spec_clips_bytes(suf) == spec_clip_bytes(c) + spec_clips_bytes(
                    self.clips@.skip(i + 1),
                ));
                assert(before + (spec_clip_bytes(c) + spec_clips_bytes(self.clips@.skip(i + 1)))
                    =~= f.data@ + spec_clips_bytes(self.clips@.skip(i + 1)));
            }
            i = i + 1;
        }
        proof {
            assert(spec_clips_bytes(self.clips@.skip(self.clips@.len() as int))
                =~= Seq::<u8>::empty());
            assert(f.data@ + Seq::<u8>::empty() =~= f.data@);
            assert(f.data@ =~= base + spec_clips_bytes(self.clips@));
        }
    }
    f.write_i32(self.compressed_data.len() as i32);
    f.write_all(&self.compressed_data);
    assert(f.data@ =~= start + spec_write_crx(self@));
}

}

/// How imported pixels are fitted to the origin's pixel format: alpha is
/// dropped for an RGB origin and an opaque alpha is added for an RGBA one.
pub open spec fn spec_import_convert(pixels: Seq<u8>, bpp: i16, channels: u8) -> Seq<u8> {
    if bpp == 0 && channels == 4 {
        spec_rgba_to_rgb(pixels)
    } else if bpp == 1 && channels == 3 {
        spec_rgb_to_rgba(pixels)
    } else {
        pixels
    }
}

/// Whether imported pixel properties are accepted against an origin image.
pub open spec fn spec_import_ok(c: CrxModel, width: u32, height: u32, bit_depth: u8, channels: u8) -> bool {
    &&& width == c.width as u32
    &&& height == c.height as u32
    &&& bit_depth == 8
    &&& channels == 3 || channels == 4
}

/// Which error an import with the given properties is rejected with.
pub open spec fn spec_import_error(c: CrxModel, width: u32, height: u32, bit_depth: u8, channels: u8) -> CrxError {
    if width != c.width as u32 || height != c.height as u32 || bit_depth != 8 {
        CrxError::DimensionMismatch
    } else {
        CrxError::ColorTypeUnsupported
    }
}

impl Crx {

/// Replace the pixels and the compressed payload from an imported decoded
/// image, re-encoding with the row modes recorded at decode time.  The
/// image is rejected, and left untouched, when the dimensions or the bit
/// depth disagree with it or the pixel format is neither RGB nor RGBA.
#[verifier::rlimit(100)]
pub fn import_pixels(
    &mut self,
    width: u32,
    height: u32,
    bit_depth: u8,
    channels: u8,
    pixels: &Vec<u8>,
) -> (r: Result<(), CrxError>)
    requires
        old(self).wf(),
        (channels == 3 || channels == 4) && width == old(self).width as u32 && height == old(
            self,
        ).height as u32 && bit_depth == 8 ==> pixels.len() == (width as nat) * (height as nat)
            * (channels as nat),
    ensures
        final(self).wf(),
        r is Ok <==> spec_import_ok(old(self)@, width, height, bit_depth, channels),
        match r {
            Ok(()) => {
                &&& final(self).data@ == spec_import_convert(pixels@, old(self).bpp, channels)
                &&& spec_encode_image(
                    spec_import_convert(pixels@, old(self).bpp, channels),
                    old(self).encode_type@,
                    old(self).width as nat,
                    old(self).spec_pixel_size(),
                ) matches Ok(enc) && final(self).compressed_data@ == zstd_zip(enc)
                    && zstd_unzip(final(self).compressed_data@) == Some(enc)
                &&& is_zstd(final(self).compressed_data@)
                &&& final(self).inner_x == old(self).inner_x
                &&& final(self).inner_y == old(self).inner_y
                &&& final(self).width == old(self).width
                &&& final(self).height == old(self).height
                &&& final(self).version == old(self).version
                &&& final(self).flags == old(self).flags
                &&& final(self).bpp == old(self).bpp
                &&& final(self).unknown == old(self).unknown
                &&& final(self).clips == old(self).clips
                &&& final(self).encode_type == old(self).encode_type
            },
            Err(e) => {
                &&& *final(self) == *old(self)
                &&& e == spec_import_error(old(self)@, width, height, bit_depth, channels)
            },
        },
{
    if width != self.width as u32 {
        return Err(CrxError::DimensionMismatch);
    }
    if height != self.height as u32 {
        return Err(CrxError::DimensionMismatch);
    }
    if bit_depth != 8 {
        return Err(CrxError::DimensionMismatch);
    }
    if channels != 3 && channels != 4 {
        return Err(CrxError::ColorTypeUnsupported);
    }
    let w: usize = self.width as usize;
    let h: usize = self.height as usize;
    let ps: usize = if self.bpp == 0 {
        3
    } else {
        4
    };
    proof {
        assert(pixels.len() == ((w as int) * (h as int)) * (channels as int))
            by (nonlinear_arith)
            requires
                pixels.len() == (w as nat) * (h as nat) * (channels as nat),
        {
        }
        assert(0 <= (w as int) * (h as int) <= 0x3FFF_0001) by (nonlinear_arith)
            requires
                0 < w <= 0x7FFF,
                0 < h <= 0x7FFF,
        {
        }
        assert(w * ps <= usize::MAX) by (nonlinear_arith)
            requires
                0 < w <= 0x7FFF,
                0 < ps <= 4,
        {
        }
    }
    let converted: Vec<u8> = if self.bpp == 0 && channels == 4 {
        let cv = Self::rgba_to_rgb(pixels);
        proof {
            vstd::arithmetic::div_mod::lemma_div_by_multiple(
                (w as int) * (h as int),
                4,
            );
            assert(cv@.len() == ((w as int) * (h as int)) * 3);
        }
        cv
    } else if self.bpp == 1 && channels == 3 {
        proof {
            vstd::arithmetic::div_mod::lemma_div_by_multiple(
                (w as int) * (h as int),
                3,
            );
            assert(4 * (pixels.len() as int / 3) <= usize::MAX) by (nonlinear_arith)
                requires
                    pixels.len() as int / 3 == (w as int) * (h as int),
                    0 <= (w as int) * (h as int) <= 0x3FFF_0001,
            {
            }
        }
        let cv = Self::rgb_to_rgba(pixels);
        proof {
            assert(cv@.len() == ((w as int) * (h as int)) * 4);
        }
        cv
    } else {
        let cv = crate::ext::copy_exact(pixels, 0, pixels.len());
        proof {
            assert(cv@ =~= pixels@);
            assert(cv@.len() == ((w as int) * (h as int)) * (ps as int));
        }
        cv
    };
    proof {
        assert(converted@ == spec_import_convert(pixels@, self.bpp, channels));
        assert(converted@.len() == (h as nat) * ((w * ps) as nat)) by (nonlinear_arith)
            requires
                converted@.len() == ((w as int) * (h as int)) * (ps as int),
        {
        }
    }
    let enc = match Self::encode_image(&converted, w, h, ps, &self.encode_type) {
        Ok(e) => e,
        Err(_) => {
            proof {
                lemma_enc_rows_ok(
                    reorder_inv(converted@, ps as nat),
                    self.encode_type@,
                    w as nat,
                    ps as nat,
                    zero_row(w as nat, ps as nat),
                );
                assert(false);
            }
            return Err(CrxError::InvalidRowMode);
        },
    };
    let compressed = crate::utils::compress_data(&enc);
    self.data = converted;
    self.compressed_data = compressed;
    Ok(())
}

}

/// Every row mode a successful decode records is in 0..=4.
pub proof fn lemma_dec_rows_modes_valid(src: Seq<u8>, w: nat, p: nat, h: nat, prev: Seq<u8>)
    requires
        dec_rows(src, w, p, h, prev) is Ok,
    ensures
        forall|i: int|
            0 <= i < dec_rows(src, w, p, h, prev).unwrap().1.len() ==> dec_rows(
                src,
                w,
                p,
                h,
                prev,
            ).unwrap().1[i] <= 4,
        dec_rows(src, w, p, h, prev).unwrap().1.len() == h,
    decreases h,
{
    if h > 0 {
        let m = src[0];
        let step = dec_row(m, src.skip(1), w, p, prev);
        let row = step.unwrap().0;
        let used = step.unwrap().1;
        lemma_dec_rows_modes_valid(src.skip(1 + used as int), w, p, (h - 1) as nat, row);
        let inner = dec_rows(src.skip(1 + used as int), w, p, (h - 1) as nat, row);
        let modes = dec_rows(src, w, p, h, prev).unwrap().1;
        assert(modes == seq![m] + inner.unwrap().1);
        assert forall|i: int| 0 <= i < modes.len() implies modes[i] <= 4 by {
            if i > 0 {
                assert(modes[i] == inner.unwrap().1[i - 1]);
            }
        }
    }
}

} // verus!

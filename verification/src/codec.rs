//! The tile codec: quantise, predict, palette-pack, entropy-code, and
//! the reverse path.
//!
//! Encoding is deterministic. Decoding a frame produced by
//! `encode_tile` restores the quantised heights exactly; heights on the
//! quantisation lattice (a whole multiple of the height resolution
//! above the water line) come back bit for bit.

use vstd::prelude::*;

use crate::error::TileError;
use crate::frame::frame_len_at;
use crate::palette::{palette, unpalette, unpalette_spec};
use crate::predict::{
    lemma_unpredict_inverts, predict, predicted_grid, residuals_clear_water, unpredict,
    unpredicted_grid,
};
use crate::quant::{
    lemma_quant_round_trip, map_heights, quantized_grid, unmap_grid, unmapped_grid,
};

verus! {

/// The zstd compression level used for tile frames.
pub const FRAME_LEVEL: i32 = 22;

/// The single zstd frame the entropy coder emits for a payload at a
/// given level, with the settings fixed by this codec: no magic bytes,
/// no checksum, no content size, window log 24, long-distance matching.
pub uninterp spec fn zstd_frame(data: Seq<u8>, level: int) -> Seq<u8>;

/// The byte string starts with the frame of `d` at `level`.
pub open spec fn is_frame_prefix(bytes: Seq<u8>, d: Seq<u8>, level: int) -> bool {
    zstd_frame(d, level).len() <= bytes.len() && bytes.subrange(
        0,
        zstd_frame(d, level).len() as int,
    ) == zstd_frame(d, level)
}

/// Relies on zstd's stream encoder: with a fixed level and fixed frame
/// parameters (magic bytes, checksum and content size suppressed,
/// window log 24, long-distance matching, pledged source size) the
/// frame emitted for a payload is a function of the payload and level
/// alone. Compression into a vector with valid parameters does not
/// fail (allocation failure aborts), so the result is always `Some`.
/// An emitted frame is well-formed in the outer framing this crate's
/// walker parses -- a headerless frame of raw, run-length and
/// compressed blocks ending at a last-block flag, no checksum -- so
/// walking it, with any bytes appended, measures exactly its length.
#[verifier::external_body]
fn compress_frame(data: &Vec<u8>, level: i32) -> (r: Option<Vec<u8>>)
    requires
        1 <= level <= 22,
    ensures
        r is Some,
        r matches Some(f) ==> f@ == zstd_frame(data@, level as int),
        r matches Some(f) ==> f@.len() as int == frame_len_at(f@, 0)->Ok_0 && frame_len_at(
            f@,
            0,
        ) is Ok,
{
    let mut enc = match zstd::stream::write::Encoder::new(Vec::new(), level) {
        Ok(e) => e,
        Err(_) => return None,
    };
    if enc.set_pledged_src_size(Some(data.len() as u64)).is_err() { return None; }
    if enc.include_magicbytes(false).is_err() { return None; }
    if enc.include_checksum(false).is_err() { return None; }
    if enc.include_contentsize(false).is_err() { return None; }
    if enc.window_log(24).is_err() { return None; }
    if enc.long_distance_matching(true).is_err() { return None; }
    if std::io::Write::write_all(&mut enc, data).is_err() { return None; }
    enc.finish().ok()
}

/// Relies on zstd's stream decoder in single-frame mode: a frame that
/// `compress_frame` emitted decompresses back to exactly its payload
/// and consumes exactly the frame's bytes. zstd frames are
/// self-delimiting (the final block carries a last-block flag), so no
/// complete frame is a strict prefix of another and the consumed
/// length is well defined. Decoding succeeds only on a well-formed
/// frame, whose outer framing this crate's walker accepts with the
/// same consumed length; every failure is mapped to `CorruptFrame`.
#[verifier::external_body]
fn decompress_frame(frame: &[u8], cap: usize) -> (r: Result<(Vec<u8>, usize), TileError>)
    ensures
        r matches Ok(p) ==> forall|d: Seq<u8>, level: int|
            #[trigger] is_frame_prefix(frame@, d, level) ==> p.0@ == d && p.1 == zstd_frame(
                d,
                level,
            ).len(),
        r is Err ==> !(exists|d: Seq<u8>, level: int| #[trigger] is_frame_prefix(frame@, d, level)),
        r matches Ok(p) ==> p.1 as int == frame_len_at(frame@, 0)->Ok_0 && frame_len_at(
            frame@,
            0,
        ) is Ok,
        r matches Err(e) ==> e == TileError::CorruptFrame,
{
    let dec = match zstd::stream::read::Decoder::with_buffer(frame) {
        Ok(d) => d,
        Err(_) => return Err(TileError::CorruptFrame),
    };
    let mut dec = dec.single_frame();
    if dec.include_magicbytes(false).is_err() { return Err(TileError::CorruptFrame); }
    if dec.window_log_max(24).is_err() { return Err(TileError::CorruptFrame); }
    let mut out = Vec::with_capacity(cap);
    if std::io::Read::read_to_end(&mut dec, &mut out).is_err() {
        return Err(TileError::CorruptFrame);
    }
    let rest = dec.finish();
    Ok((out, frame.len() - rest.len()))
}

/// What a decompressed payload decodes to: un-palette, un-predict,
/// un-quantise.
pub open spec fn decode_payload_spec(p: Seq<u8>, res: int, hres: int) -> Result<
    Seq<i16>,
    TileError,
> {
    match unpalette_spec(p, res) {
        Ok(q) => Ok(unmapped_grid(unpredicted_grid(q, res), hres)),
        Err(e) => Err(e),
    }
}

/// A grid the codec stores losslessly: every height sits on the
/// quantisation lattice and no residual collides with the water
/// sentinel.
pub open spec fn encodable(h: Seq<i16>, res: int, hres: int) -> bool {
    &&& 2 <= res
    &&& 1 <= hres
    &&& h.len() == res * res
    &&& forall|i: int|
        0 <= i < h.len() ==> -500 <= #[trigger] h[i] as int && (h[i] + 500) % hres == 0
    &&& residuals_clear_water(quantized_grid(h, hres), res)
}

/// Codec round-trip: running the decode stages over the encode stages
/// of an encodable grid restores the grid exactly. Together with the
/// contracts of `encode_tile` and `decode_tile` this says
/// decode(encode(x)) == x for every encodable x.
pub proof fn lemma_codec_round_trip(h: Seq<i16>, res: int, hres: int)
    requires
        encodable(h, res, hres),
    ensures
        unmapped_grid(
            unpredicted_grid(predicted_grid(quantized_grid(h, hres), res), res),
            hres,
        ) == h,
        unmapped_grid(quantized_grid(h, hres), hres) == h,
{
    let q = quantized_grid(h, hres);
    lemma_unpredict_inverts(q, res);
    assert forall|i: int| 0 <= i < h.len() implies unmapped_grid(q, hres)[i] == h[i] by {
        lemma_quant_round_trip(h[i] as int, hres);
    }
    assert(unmapped_grid(q, hres) =~= h);
}

/// Encodes a grid of signed-metre heights into one compressed frame.
/// On success the frame decompresses to a payload whose decode is the
/// quantisation-rounded grid; a grid whose residuals collide with the
/// water sentinel is refused as `CorruptResidual`.
pub fn encode_tile(heights: &Vec<i16>, res: u16, hres: u16) -> (r: Result<Vec<u8>, TileError>)
    requires
        2 <= res,
        1 <= hres,
        heights@.len() == res as int * res as int,
        res as int * res as int * 2 + 2 <= usize::MAX,
        forall|i: int| 0 <= i < heights@.len() ==> -500 <= #[trigger] heights@[i] as int,
    ensures
        r is Ok <==> residuals_clear_water(quantized_grid(heights@, hres as int), res as int),
        r matches Err(e) ==> e == TileError::CorruptResidual,
        r matches Ok(f) ==> exists|p: Seq<u8>|
            f@ == #[trigger] zstd_frame(p, FRAME_LEVEL as int) && decode_payload_spec(
                p,
                res as int,
                hres as int,
            ) == Ok::<Seq<i16>, TileError>(
                unmapped_grid(quantized_grid(heights@, hres as int), hres as int),
            ) && frame_len_at(zstd_frame(p, FRAME_LEVEL as int), 0) == Ok::<int, TileError>(
                zstd_frame(p, FRAME_LEVEL as int).len() as int,
            ),
{
    let q = map_heights(heights, hres);
    let resid = match predict(&q, res as usize) {
        Ok(x) => x,
        Err(e) => {
            return Err(e);
        },
    };
    let packed = palette(&resid, res as usize);
    match compress_frame(&packed, FRAME_LEVEL) {
        Some(f) => {
            proof {
                let p = packed@;
                lemma_unpredict_inverts(q@, res as int);
                assert(f@ == zstd_frame(p, FRAME_LEVEL as int));
                assert(decode_payload_spec(p, res as int, hres as int) == Ok::<
                    Seq<i16>,
                    TileError,
                >(unmapped_grid(quantized_grid(heights@, hres as int), hres as int)));
            }
            Ok(f)
        },
        None => {
            // The compressor promises a frame.
            proof {
                assert(false);
            }
            Err(TileError::CorruptResidual)
        },
    }
}

/// Decodes one compressed tile frame lying at the start of `frame`
/// (tail bytes beyond the frame are ignored) into heights, also
/// returning the frame's byte length.
pub fn decode_tile(frame: &[u8], res: u16, hres: u16) -> (r: Result<(Vec<i16>, usize), TileError>)
    requires
        2 <= res,
        1 <= hres,
        res as int * res as int * 2 + 2 <= usize::MAX,
    ensures
        forall|p: Seq<u8>, level: int|
            #[trigger] is_frame_prefix(frame@, p, level) ==> (match decode_payload_spec(
                p,
                res as int,
                hres as int,
            ) {
                Ok(s) => r matches Ok(t) && t.0@ == s && t.1 == zstd_frame(p, level).len(),
                Err(e) => r matches Err(e2) && e2 == e,
            }),
        frame_len_at(frame@, 0) is Err ==> r == Err::<(Vec<i16>, usize), TileError>(
            TileError::CorruptFrame,
        ),
{
    let cap = (res as usize) * (res as usize) * 2;
    let (payload, size) = match decompress_frame(frame, cap) {
        Ok(x) => x,
        Err(e) => {
            return Err(e);
        },
    };
    let mut q = match unpalette(&payload, res as usize) {
        Ok(x) => x,
        Err(e) => {
            return Err(e);
        },
    };
    proof {
        vstd::arithmetic::mul::lemma_mul_inequality(2, res as int, res as int);
    }
    unpredict(&mut q, res as usize);
    let heights = unmap_grid(&q, hres);
    Ok((heights, size))
}

} // verus!

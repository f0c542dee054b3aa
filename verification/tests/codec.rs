//! Codec round trips and per-tile error surfaces.

use std::io::Write;

use terrain::codec::{decode_tile, encode_tile};
use terrain::error::TileError;

fn round_trip(heights: &Vec<i16>, res: u16, hres: u16) {
    let frame = encode_tile(heights, res, hres).unwrap();
    let (decoded, size) = decode_tile(&frame, res, hres).unwrap();
    assert_eq!(&decoded, heights);
    assert_eq!(size, frame.len());
}

#[test]
fn round_trip_exact_on_lattice() {
    for &(res, hres) in &[(32u16, 1u16), (32, 5), (32, 50), (256, 1), (64, 5)] {
        let n = res as usize * res as usize;
        let mut heights = vec![0i16; n];
        for i in 0..n {
            // Heights on the quantisation lattice, water sprinkled in.
            let q = (i % 97) as i16;
            heights[i] = if i % 13 == 0 {
                -500
            } else {
                q * hres as i16 - 500
            };
        }
        round_trip(&heights, res, hres);
    }
}

#[test]
fn round_trip_wide_value_spread() {
    // More than 256 distinct residuals forces a raw two-byte shape.
    let res = 64u16;
    let n = 64 * 64;
    let mut heights = vec![0i16; n];
    let mut v: i64 = 1;
    for i in 0..n {
        v = (v * 75) % 65537;
        heights[i] = ((v % 9000) + 500) as i16;
    }
    round_trip(&heights, res, 1);
}

#[test]
fn quantisation_rounds_to_nearest() {
    // -499 m at 50 m per quantum rounds onto the water line.
    let frame = encode_tile(&vec![-499i16; 4], 2, 50).unwrap();
    let (decoded, _) = decode_tile(&frame, 2, 50).unwrap();
    assert!(decoded.iter().all(|&h| h == -500));
    // 1540 m rounds to quantum 41, decoding as 1550 m.
    let frame = encode_tile(&vec![1540i16; 4], 2, 50).unwrap();
    let (decoded, _) = decode_tile(&frame, 2, 50).unwrap();
    assert!(decoded.iter().all(|&h| h == 1550));
}

#[test]
fn residual_collision_is_refused() {
    // Quanta (8000, 1000, ...): the second residual is exactly the
    // bias below its predictor, which would decode as water.
    let heights = vec![7500i16, 500, -500, -500];
    assert_eq!(encode_tile(&heights, 2, 1).unwrap_err(), TileError::CorruptResidual);
}

#[test]
fn garbage_frame_is_corrupt() {
    assert_eq!(
        decode_tile(&[0x55, 0xaa, 0x01, 0x02, 0x03], 32, 1).unwrap_err(),
        TileError::CorruptFrame
    );
}

fn compress_payload(payload: &[u8]) -> Vec<u8> {
    let mut enc = zstd::stream::write::Encoder::new(Vec::new(), 22).unwrap();
    enc.set_pledged_src_size(Some(payload.len() as u64)).unwrap();
    enc.include_magicbytes(false).unwrap();
    enc.include_checksum(false).unwrap();
    enc.include_contentsize(false).unwrap();
    enc.window_log(24).unwrap();
    enc.long_distance_matching(true).unwrap();
    enc.write_all(payload).unwrap();
    enc.finish().unwrap()
}

#[test]
fn palette_index_out_of_range_is_corrupt() {
    // A one-entry palette whose index bytes point past it.
    let payload: Vec<u8> = vec![0, 7, 0, 3, 0, 2, 2, 2];
    let frame = compress_payload(&payload);
    assert_eq!(decode_tile(&frame, 2, 1).unwrap_err(), TileError::CorruptPalette);
}

#[test]
fn mismatched_payload_length_is_corrupt() {
    // Neither raw shape nor a consistent palette shape.
    let payload: Vec<u8> = vec![9, 1, 4, 1, 5, 9, 2, 6, 5, 3, 5];
    let frame = compress_payload(&payload);
    assert_eq!(decode_tile(&frame, 2, 1).unwrap_err(), TileError::CorruptFrame);
}

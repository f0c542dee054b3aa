//! Reading the older container versions with raw two-byte tiles.

use std::io::Write;

use terrain::legacy::LegacyDataset;
use terrain::LoadError;

fn compress_payload(payload: &[u8]) -> Vec<u8> {
    let mut enc = zstd::stream::write::Encoder::new(Vec::new(), 19).unwrap();
    enc.include_magicbytes(false).unwrap();
    enc.include_checksum(false).unwrap();
    enc.write_all(payload).unwrap();
    enc.finish().unwrap()
}

/// Builds a legacy container holding one tile at (0, 0).
fn legacy_container(version: u16, res: u16, hres: u16, quanta: &[u16]) -> Vec<u8> {
    let table_offset: usize = if version == 3 { 11 } else { 13 };
    let dict_offset = table_offset + 64800 * 8;
    let data_offset = dict_offset + 8;
    let mut bytes = vec![0u8; data_offset];
    bytes[0..5].copy_from_slice(&[115, 117, 115, 115, 121]);
    bytes[5..7].copy_from_slice(&version.to_le_bytes());
    bytes[7..9].copy_from_slice(&res.to_le_bytes());
    bytes[9..11].copy_from_slice(&hres.to_le_bytes());
    // Offset of the tile at (0, 0), absolute; an empty dictionary.
    let index = terrain::map_lat_lon_to_index(0, 0);
    let entry = table_offset + index * 8;
    bytes[entry..entry + 8].copy_from_slice(&(data_offset as u64).to_le_bytes());
    let mut raw = Vec::new();
    for &q in quanta {
        raw.extend_from_slice(&q.to_le_bytes());
    }
    bytes.extend_from_slice(&compress_payload(&raw));
    bytes
}

#[test]
fn legacy_versions_read_raw_tiles() {
    for &version in &[3u16, 4u16] {
        let quanta: Vec<u16> = (0..16).map(|i| 100 + i as u16).collect();
        let bytes = legacy_container(version, 4, 5, &quanta);
        let ds = LegacyDataset::load(&bytes).unwrap();
        assert_eq!(ds.metadata().version, version);
        assert!(ds.tile_exists(0, 0));
        assert!(!ds.tile_exists(1, 1));
        let tile = ds.get_tile(0, 0).unwrap().unwrap();
        let expected: Vec<i16> = quanta.iter().map(|&q| (q * 5) as i16 - 500).collect();
        assert_eq!(tile, expected);
        assert!(ds.get_tile(1, 1).is_none());
    }
}

#[test]
fn legacy_load_rejects_other_versions() {
    let bytes = legacy_container(3, 4, 5, &[0; 16]);
    let mut v6 = bytes;
    v6[5..7].copy_from_slice(&6u16.to_le_bytes());
    match LegacyDataset::load(&v6) {
        Err(LoadError::UnsupportedFormatVersion) => {},
        _ => panic!("expected an unsupported version"),
    }
}

/// Builds a version-5 container holding one length-prefixed image
/// frame at (2, 3).
fn v5_container(delta: bool, frame_body: &[u8]) -> Vec<u8> {
    let table_offset: usize = 12;
    let data_offset = table_offset + 64800 * 8;
    let mut bytes = vec![0u8; data_offset];
    bytes[0..5].copy_from_slice(&[115, 117, 115, 115, 121]);
    bytes[5..7].copy_from_slice(&5u16.to_le_bytes());
    bytes[7..9].copy_from_slice(&4u16.to_le_bytes());
    bytes[9..11].copy_from_slice(&3u16.to_le_bytes());
    bytes[11] = if delta { 1 } else { 0 };
    let index = terrain::map_lat_lon_to_index(2, 3);
    let entry = table_offset + index * 8;
    bytes[entry..entry + 8].copy_from_slice(&(data_offset as u64).to_le_bytes());
    let mut frame = vec![0u8; 8];
    frame[4..8].copy_from_slice(&(frame_body.len() as u32).to_le_bytes());
    frame.extend_from_slice(frame_body);
    bytes.extend_from_slice(&frame);
    bytes
}

#[test]
fn v5_container_loads_and_hands_out_frames() {
    let body: Vec<u8> = (0..24).collect();
    let bytes = v5_container(true, &body);
    let ds = LegacyDataset::load(&bytes).unwrap();
    assert_eq!(ds.metadata().version, 5);
    assert!(ds.delta_compressed());
    assert!(ds.tile_exists(2, 3));
    assert_eq!(ds.tile_count(), 1);
    let frame = ds.get_raw_tile_data(2, 3).unwrap().unwrap();
    assert_eq!(frame.len(), 8 + body.len());
    assert_eq!(&frame[8..], &body[..]);
    assert!(ds.get_raw_tile_data(4, 4).is_none());
    // The image decode itself happens at the caller's edge.
    assert!(ds.get_tile(2, 3).unwrap().is_err());
}

#[test]
fn v5_payload_mapping() {
    // Two-byte quanta 10, 20, 30, 40 at 3 m per quantum.
    let mut b = Vec::new();
    for q in [10u16, 20, 30, 40] {
        b.extend_from_slice(&q.to_le_bytes());
    }
    let plain = terrain::legacy::decode_v5_payload(&b, 4, 3, false);
    assert_eq!(plain, vec![-470, -440, -410, -380]);
    // Delta compression sums the mapped samples.
    let summed = terrain::legacy::decode_v5_payload(&b, 4, 3, true);
    assert_eq!(summed, vec![-470, -910, -1320, -1700]);
}

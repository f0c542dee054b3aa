//! Container scenarios: building, reopening, appending, orphans.

use terrain::layout::{TileMetadata, DATA_START, FORMAT_VERSION};
use terrain::quant::WATER_HEIGHT;
use terrain::{Dataset, DatasetBuilder, LoadError};

fn meta(resolution: u16, height_resolution: u16) -> TileMetadata {
    TileMetadata { version: FORMAT_VERSION, resolution, height_resolution }
}

#[test]
fn single_water_tile() {
    let mut b = DatasetBuilder::new(meta(512, 50));
    let heights = vec![WATER_HEIGHT; 512 * 512];
    b.add_tile(0, 0, heights).unwrap();
    let bytes = b.finish();
    let ds = Dataset::load(&bytes).unwrap();
    assert_eq!(ds.tile_count(), 1);
    assert!(ds.tile_exists(0, 0));
    let tile = ds.get_tile(0, 0).unwrap().unwrap();
    assert_eq!(tile.len(), 262144);
    assert!(tile.iter().all(|&h| h == WATER_HEIGHT));
}

#[test]
fn ramp_round_trip_and_compression() {
    let mut b = DatasetBuilder::new(meta(256, 1));
    let mut heights = vec![0i16; 256 * 256];
    for y in 0..256i32 {
        for x in 0..256i32 {
            heights[(y * 256 + x) as usize] = (x - 500 + y) as i16;
        }
    }
    b.add_tile(0, 0, heights.clone()).unwrap();
    let bytes = b.finish();
    let ds = Dataset::load(&bytes).unwrap();
    let (tile, size) = ds.get_tile_and_compressed_size(0, 0).unwrap().unwrap();
    assert_eq!(tile, heights);
    // Far below a tenth of the 64 KiB of raw samples.
    assert!(size < 6554, "compressed ramp is {} bytes", size);
}

#[test]
fn append_to_existing_container() {
    let mut b = DatasetBuilder::new(meta(512, 50));
    b.add_tile(0, 0, vec![-500i16; 512 * 512]).unwrap();
    let bytes = b.finish();

    let ds = Dataset::load(&bytes).unwrap();
    let mut b2 = DatasetBuilder::from_dataset(ds);
    b2.add_tile(10, 20, vec![1000i16; 512 * 512]).unwrap();
    let bytes2 = b2.finish();

    let ds2 = Dataset::load(&bytes2).unwrap();
    assert_eq!(ds2.tile_count(), 2);
    assert!(ds2.tile_exists(0, 0));
    assert!(ds2.tile_exists(10, 20));
    let a = ds2.get_tile(0, 0).unwrap().unwrap();
    assert!(a.iter().all(|&h| h == -500));
    let b_tile = ds2.get_tile(10, 20).unwrap().unwrap();
    assert!(b_tile.iter().all(|&h| h == 1000));
    assert_eq!(ds2.enumerate_orphans().unwrap(), vec![]);
}

#[test]
fn copied_tile_reads_back() {
    let mut b = DatasetBuilder::new(meta(64, 1));
    b.add_tile(3, 4, vec![777i16; 64 * 64]).unwrap();
    let src = Dataset::load(&b.finish()).unwrap();

    let mut dst = DatasetBuilder::new(meta(64, 1));
    dst.add_tile_from_dataset(3, 4, &src).unwrap();
    // A cell the source lacks changes nothing.
    dst.add_tile_from_dataset(5, 6, &src).unwrap();
    let ds = Dataset::load(&dst.finish()).unwrap();
    assert_eq!(ds.tile_count(), 1);
    let tile = ds.get_tile(3, 4).unwrap().unwrap();
    assert!(tile.iter().all(|&h| h == 777));
}

#[test]
fn orphan_detection() {
    let mut b = DatasetBuilder::new(meta(64, 1));
    b.add_tile(0, 0, vec![123i16; 64 * 64]).unwrap();
    b.add_tile(1, 1, vec![-500i16; 64 * 64]).unwrap();
    let mut bytes = b.finish();

    let ds = Dataset::load(&bytes).unwrap();
    assert_eq!(ds.enumerate_orphans().unwrap(), vec![]);
    let a_bytes = ds.get_raw_tile_data(0, 0).unwrap().unwrap();
    let a_index = terrain::map_lat_lon_to_index(0, 0);

    // Zero tile A's offset-table entry and reopen.
    let a_entry = 12 + a_index * 8;
    let a_offset = u64::from_le_bytes(bytes[a_entry..a_entry + 8].try_into().unwrap());
    for k in 0..8 {
        bytes[a_entry + k] = 0;
    }
    let ds2 = Dataset::load(&bytes).unwrap();
    assert!(!ds2.tile_exists(0, 0));
    let orphans = ds2.enumerate_orphans().unwrap();
    assert_eq!(orphans, vec![(a_offset, a_bytes.len() as u64)]);
}

fn load_error(bytes: &Vec<u8>) -> LoadError {
    match Dataset::load(bytes) {
        Ok(_) => panic!("expected a load error"),
        Err(e) => e,
    }
}

#[test]
fn load_rejects_bad_headers() {
    assert_eq!(load_error(&vec![1, 2, 3]), LoadError::InvalidFileSize);

    let mut b = DatasetBuilder::new(meta(64, 1));
    b.add_tile(0, 0, vec![0i16; 64 * 64]).unwrap();
    let good = b.finish();

    let mut bad_magic = good.clone();
    bad_magic[0] = 0;
    assert_eq!(load_error(&bad_magic), LoadError::InvalidMagic);

    let mut bad_version = good.clone();
    bad_version[5] = 99;
    assert_eq!(load_error(&bad_version), LoadError::UnsupportedFormatVersion);

    let truncated = good[..DATA_START - 1].to_vec();
    assert_eq!(load_error(&truncated), LoadError::InvalidFileSize);
}

#[test]
fn overwrite_orphans_previous_payload() {
    let mut b = DatasetBuilder::new(meta(64, 1));
    b.add_tile(2, 2, vec![5i16; 64 * 64]).unwrap();
    b.add_tile(2, 2, vec![9i16; 64 * 64]).unwrap();
    let ds = Dataset::load(&b.finish()).unwrap();
    assert_eq!(ds.tile_count(), 1);
    let tile = ds.get_tile(2, 2).unwrap().unwrap();
    assert!(tile.iter().all(|&h| h == 9));
    // The superseded first frame is reported as one orphan.
    assert_eq!(ds.enumerate_orphans().unwrap().len(), 1);
}

//! Atlas admission, level-of-detail switching, and driver behaviour.

use terrain::coords::CELL_COUNT;
use terrain::layout::{TileMetadata, FORMAT_VERSION};
use terrain::tile_cache::{Atlas, TileCache, TileOffset, UploadStatus};
use terrain::{Dataset, DatasetBuilder};

fn dataset_with_tiles(res: u16, cells: &[(i16, i16)]) -> Dataset {
    let mut b = DatasetBuilder::new(TileMetadata {
        version: FORMAT_VERSION,
        resolution: res,
        height_resolution: 1,
    });
    for &(lat, lon) in cells {
        b.add_tile(lat, lon, vec![-500i16; res as usize * res as usize]).unwrap();
    }
    Dataset::load(&b.finish()).unwrap()
}

#[test]
fn atlas_fills_then_refuses() {
    let mut atlas = Atlas::new(2048, 2048, 2048, 1024);
    let mut slots = Vec::new();
    for _ in 0..4 {
        let s = atlas.alloc_slot().unwrap();
        assert!(!slots.contains(&s));
        slots.push(s);
    }
    assert_eq!(
        slots,
        vec![
            TileOffset { x: 0, y: 0 },
            TileOffset { x: 1024, y: 0 },
            TileOffset { x: 0, y: 1024 },
            TileOffset { x: 1024, y: 1024 },
        ]
    );
    assert_eq!(atlas.alloc_slot(), None);
    // A returned slot is handed out again before the cursor moves.
    atlas.return_tile(slots[2]);
    assert_eq!(atlas.alloc_slot(), Some(slots[2]));
}

#[test]
fn atlas_growth_doubles_and_clamps() {
    let mut atlas = Atlas::new(2048, 2048, 4096, 1024);
    assert!(atlas.try_grow());
    assert_eq!((atlas.width, atlas.height), (4096, 4096));
    assert!(!atlas.try_grow());
}

#[test]
fn pressure_reports_full_then_resized() {
    let cells: Vec<(i16, i16)> = (0..5).map(|i| terrain::map_index_to_lat_lon(i)).collect();
    let mut used = vec![0u32; CELL_COUNT];
    for i in 0..5 {
        used[i] = 1;
    }

    // Clamped at 2048: four slots fill, the fifth admission fails.
    let ds = dataset_with_tiles(1024, &cells);
    let mut cache = TileCache::new(vec![ds], 2048, 2048, 2048);
    let (status, uploads) = cache.populate_tiles(&used, 1000, 10000);
    assert_eq!(status, UploadStatus::AtlasFull);
    assert_eq!(uploads.len(), 4);

    // With room to double, the same pressure resizes instead.
    let ds = dataset_with_tiles(1024, &cells);
    let mut cache = TileCache::new(vec![ds], 2048, 2048, 4096);
    let (status, uploads) = cache.populate_tiles(&used, 1000, 10000);
    assert_eq!(status, UploadStatus::Resized);
    assert_eq!(uploads.len(), 0);
    assert_eq!((cache.atlas.width, cache.atlas.height), (4096, 4096));
    let unloaded = TileOffset { x: 0, y: cache.atlas.height };
    assert!(cache.tiles.iter().all(|&t| t == unloaded));

    // The frame after the resize admits all five tiles.
    let (status, uploads) = cache.populate_tiles(&used, 1000, 10000);
    assert_eq!(status, UploadStatus::Uploads);
    assert_eq!(uploads.len(), 5);
}

#[test]
fn lod_switch_clears_and_reuses_slots() {
    let hi = dataset_with_tiles(1024, &[(45, 10)]);
    let lo = dataset_with_tiles(256, &[(45, 10)]);
    let mut cache = TileCache::new(vec![lo, hi], 4096, 4096, 4096);
    let idx = terrain::map_lat_lon_to_index(45, 10);
    let mut used = vec![0u32; CELL_COUNT];
    used[idx] = 1;

    // A narrow angle selects the high-resolution dataset.
    let (status, uploads) = cache.populate_tiles(&used, 1000, 10000);
    assert_eq!(status, UploadStatus::Uploads);
    assert_eq!(cache.curr_dataset, 1);
    assert_eq!(uploads.len(), 1);
    let unloaded = TileOffset { x: 0, y: cache.atlas.height };
    let not_found = TileOffset { x: cache.atlas.width, y: 0 };
    assert!(cache.tiles[idx] != unloaded && cache.tiles[idx] != not_found);

    // A wide angle switches down: residency clears, and the admission
    // lands in the reset bump allocator's first slot.
    let (status, uploads) = cache.populate_tiles(&used, 1000, 425573);
    assert_eq!(status, UploadStatus::Uploads);
    assert_eq!(cache.curr_dataset, 0);
    assert_eq!(uploads.len(), 1);
    assert_eq!(cache.tiles[idx], TileOffset { x: 0, y: 0 });
}

#[test]
fn missing_tiles_are_sticky_not_found() {
    let ds = dataset_with_tiles(64, &[(0, 0)]);
    let mut cache = TileCache::new(vec![ds], 1024, 1024, 1024);
    let present = terrain::map_lat_lon_to_index(0, 0);
    let absent = terrain::map_lat_lon_to_index(5, 5);
    let mut used = vec![0u32; CELL_COUNT];
    used[present] = 1;
    used[absent] = 1;

    let (status, _) = cache.populate_tiles(&used, 1000, 10000);
    assert_eq!(status, UploadStatus::Uploads);
    let not_found = TileOffset { x: cache.atlas.width, y: 0 };
    assert_eq!(cache.tiles[absent], not_found);

    // The next frame does not retry the missing tile.
    let (status, uploads) = cache.populate_tiles(&used, 1000, 10000);
    assert_eq!(status, UploadStatus::NoUploads);
    assert_eq!(uploads.len(), 0);
}

#[test]
fn stable_mask_reaches_steady_state() {
    let cells: Vec<(i16, i16)> = (100..104).map(|i| terrain::map_index_to_lat_lon(i)).collect();
    let ds = dataset_with_tiles(64, &cells);
    let mut cache = TileCache::new(vec![ds], 1024, 1024, 1024);
    let mut used = vec![0u32; CELL_COUNT];
    for i in 100..104 {
        used[i] = 1;
    }

    let (s1, u1) = cache.populate_tiles(&used, 1000, 10000);
    assert_eq!(s1, UploadStatus::Uploads);
    assert_eq!(u1.len(), 4);
    let after_first = cache.tiles.clone();

    // The mask is stable: the second frame settles, the third is a
    // no-op on identical residency.
    let (s2, u2) = cache.populate_tiles(&used, 1000, 10000);
    assert_eq!(s2, UploadStatus::NoUploads);
    assert_eq!(u2.len(), 0);
    assert_eq!(cache.tiles, after_first);

    let (s3, u3) = cache.populate_tiles(&used, 1000, 10000);
    assert_eq!(s3, UploadStatus::NoUploads);
    assert_eq!(u3.len(), 0);
    assert_eq!(cache.tiles, after_first);

    // Dropping a cell from the mask frees its slot.
    used[100] = 0;
    let (s4, _) = cache.populate_tiles(&used, 1000, 10000);
    assert_eq!(s4, UploadStatus::NoUploads);
    let unloaded = TileOffset { x: 0, y: cache.atlas.height };
    assert_eq!(cache.tiles[100], unloaded);
}

#[test]
fn eviction_feeds_admission_under_pressure() {
    // Two slots, three cells; the mask moves off one cell and onto a
    // new one: the freed slot is collected and reused.
    let cells: Vec<(i16, i16)> = (0..3).map(|i| terrain::map_index_to_lat_lon(i)).collect();
    let ds = dataset_with_tiles(512, &cells);
    let mut cache = TileCache::new(vec![ds], 1024, 512, 1024);
    let mut used = vec![0u32; CELL_COUNT];
    used[0] = 1;
    used[1] = 1;
    let (s1, _) = cache.populate_tiles(&used, 1000, 10000);
    assert_eq!(s1, UploadStatus::Uploads);

    used[0] = 0;
    used[2] = 1;
    let (s2, u2) = cache.populate_tiles(&used, 1000, 10000);
    assert_eq!(s2, UploadStatus::Uploads);
    assert_eq!(u2.len(), 1);
    let unloaded = TileOffset { x: 0, y: cache.atlas.height };
    assert_eq!(cache.tiles[0], unloaded);
    assert!(cache.tiles[2] != unloaded);
}

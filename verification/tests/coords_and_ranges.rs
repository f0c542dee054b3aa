//! Cell indexing, display ranges and tile file names.

use terrain::{map_index_to_lat_lon, map_lat_lon_to_index, GeoTile, Range};

#[test]
fn cell_index_round_trips_everywhere() {
    let mut seen = vec![false; 64800];
    for lat in -90i16..90 {
        for lon in -180i16..180 {
            let index = map_lat_lon_to_index(lat, lon);
            assert!(index < 64800);
            assert!(!seen[index], "index {} hit twice", index);
            seen[index] = true;
            assert_eq!(map_index_to_lat_lon(index), (lat, lon));
        }
    }
    assert!(seen.iter().all(|&s| s));
}

#[test]
fn cell_index_formula() {
    assert_eq!(map_lat_lon_to_index(-90, -180), 0);
    assert_eq!(map_lat_lon_to_index(0, 0), 90 * 360 + 180);
    assert_eq!(map_lat_lon_to_index(89, 179), 64799);
}

#[test]
fn range_tables() {
    assert_eq!(Range::Nm2.vertical_tiles_loaded(), 2);
    assert_eq!(Range::Nm20.vertical_tiles_loaded(), 2);
    assert_eq!(Range::Nm40.vertical_tiles_loaded(), 3);
    assert_eq!(Range::Nm80.vertical_tiles_loaded(), 4);
    assert_eq!(Range::Nm160.vertical_tiles_loaded(), 7);
    assert_eq!(Range::Nm320.vertical_tiles_loaded(), 14);
    assert_eq!(Range::Nm640.vertical_tiles_loaded(), 26);
    assert_eq!(Range::Nm40.to_str(), "40 nm");
    assert_eq!(Range::Nm2.vertical_microradians(), 1294);
    assert_eq!(Range::Nm640.vertical_microdegrees(), 24383557);
}

#[test]
fn tile_file_names() {
    assert_eq!(GeoTile::get_file_name_for_coordinates(45, 10), "N45E10.geo");
    assert_eq!(GeoTile::get_file_name_for_coordinates(-12, -120), "S12W120.geo");
    assert_eq!(GeoTile::get_file_name_for_coordinates(0, 0), "N0E0.geo");
    assert_eq!(GeoTile::get_file_name_for_coordinates(-90, 179), "S90E179.geo");
}

#[test]
fn tile_file_names_parse_back() {
    for &(lat, lon) in &[(45i16, 10i16), (-12, -120), (0, 0), (-90, 179), (89, -1)] {
        let name = GeoTile::get_file_name_for_coordinates(lat, lon);
        assert_eq!(GeoTile::get_coordinates_from_file_name(&name), Some((lat, lon)));
    }
    // Only canonical names are accepted.
    assert_eq!(GeoTile::get_coordinates_from_file_name("N05E10.geo"), None);
    assert_eq!(GeoTile::get_coordinates_from_file_name("X5E10.geo"), None);
    assert_eq!(GeoTile::get_coordinates_from_file_name("N95E10.geo"), None);
    assert_eq!(GeoTile::get_coordinates_from_file_name("N5E10.geox"), None);
    assert_eq!(GeoTile::get_coordinates_from_file_name(""), None);
}

//! Cell indexing: the bijection between integer-degree coordinates and
//! offsets into the 64,800-entry tile table.

use vstd::prelude::*;
use vstd::arithmetic::div_mod::lemma_fundamental_div_mod_converse;

verus! {

/// Number of one-degree cells covering the Earth.
pub const CELL_COUNT: usize = 64800;

/// A latitude names the cell spanning [lat, lat + 1) degrees north.
pub open spec fn valid_lat(lat: int) -> bool {
    -90 <= lat < 90
}

/// A longitude names the cell spanning [lon, lon + 1) degrees east.
pub open spec fn valid_lon(lon: int) -> bool {
    -180 <= lon < 180
}

/// Row-major index of the cell at (lat, lon); the row is the latitude band.
pub open spec fn cell_index(lat: int, lon: int) -> int {
    (lat + 90) * 360 + (lon + 180)
}

/// Maps a cell's coordinates to its index in the tile table.
pub fn map_lat_lon_to_index(lat: i16, lon: i16) -> (index: usize)
    requires
        valid_lat(lat as int),
        valid_lon(lon as int),
    ensures
        index == cell_index(lat as int, lon as int),
        index < CELL_COUNT,
{
    let lat_band: usize = (lat + 90) as usize;
    let lon_band: usize = (lon + 180) as usize;
    lat_band * 360 + lon_band
}

/// Maps a tile-table index back to the cell's coordinates.
pub fn map_index_to_lat_lon(index: usize) -> (r: (i16, i16))
    requires
        index < CELL_COUNT,
    ensures
        r.0 == index as int / 360 - 90,
        r.1 == index as int % 360 - 180,
        valid_lat(r.0 as int),
        valid_lon(r.1 as int),
        cell_index(r.0 as int, r.1 as int) == index,
{
    let lat = (index / 360) as i16 - 90;
    let lon = (index % 360) as i16 - 180;
    proof {
        lemma_cell_index_covers(index as int);
    }
    (lat, lon)
}

/// Every valid cell has an index in [0, CELL_COUNT), and the index
/// determines the coordinates again: the cell mapping loses nothing.
pub proof fn lemma_cell_index_round_trip(lat: int, lon: int)
    requires
        valid_lat(lat),
        valid_lon(lon),
    ensures
        0 <= cell_index(lat, lon) < CELL_COUNT,
        cell_index(lat, lon) / 360 == lat + 90,
        cell_index(lat, lon) % 360 == lon + 180,
{
    lemma_fundamental_div_mod_converse(cell_index(lat, lon), 360, lat + 90, lon + 180);
}

/// Distinct valid cells get distinct indices.
pub proof fn lemma_cell_index_injective(lat1: int, lon1: int, lat2: int, lon2: int)
    requires
        valid_lat(lat1),
        valid_lon(lon1),
        valid_lat(lat2),
        valid_lon(lon2),
        cell_index(lat1, lon1) == cell_index(lat2, lon2),
    ensures
        lat1 == lat2,
        lon1 == lon2,
{
    lemma_cell_index_round_trip(lat1, lon1);
    lemma_cell_index_round_trip(lat2, lon2);
}

/// Every index in [0, CELL_COUNT) names a valid cell: the indices cover
/// the whole table.
pub proof fn lemma_cell_index_covers(index: int)
    requires
        0 <= index < CELL_COUNT,
    ensures
        valid_lat(index / 360 - 90),
        valid_lon(index % 360 - 180),
        cell_index(index / 360 - 90, index % 360 - 180) == index,
{
    lemma_fundamental_div_mod_converse(index, 360, index / 360, index % 360);
}

} // verus!

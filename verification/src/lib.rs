//! Storage and streaming engine for a global terrain heightmap.
//!
//! The world is split into 360 x 180 one-degree cells. A single-file
//! container maps each cell to a compressed tile of square elevation
//! grids; a codec shrinks each grid by quantisation, two-dimensional
//! prediction and palette packing before handing the bytes to an
//! entropy coder; a bounded texture atlas model admits and evicts
//! decoded tiles on demand for a rasteriser.

use vstd::prelude::*;

pub mod builder;
pub mod codec;
pub mod coords;
pub mod dataset;
pub mod error;
pub mod geotile;
pub mod frame;
pub mod layout;
pub mod legacy;
pub mod palette;
pub mod predict;
pub mod quant;
pub mod range;
pub mod tile_cache;
pub mod wrap;

pub use builder::DatasetBuilder;
pub use coords::{map_index_to_lat_lon, map_lat_lon_to_index};
pub use dataset::Dataset;
pub use error::{LoadError, TileError};
pub use geotile::GeoTile;
pub use layout::{TileMetadata, FORMAT_VERSION};
pub use legacy::LegacyDataset;
pub use range::Range;
pub use tile_cache::{TileCache, TileOffset, UploadStatus};

verus! {

} // verus!

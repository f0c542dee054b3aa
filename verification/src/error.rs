//! Error kinds surfaced by the container and the tile codec.

use vstd::prelude::*;

verus! {

/// A container file that cannot be opened at all.
#[derive(Copy, Clone, Debug, PartialEq, Eq, Structural)]
pub enum LoadError {
    /// The header, offset table or dictionary region is truncated.
    InvalidFileSize,
    /// The magic bytes at the start of the file do not match.
    InvalidMagic,
    /// The version field names no known format version.
    UnsupportedFormatVersion,
}

/// A per-tile codec failure; the containing container stays usable for
/// other tiles.
#[derive(Copy, Clone, Debug, PartialEq, Eq, Structural)]
pub enum TileError {
    /// The entropy-coded frame is malformed.
    CorruptFrame,
    /// A palette index exceeds the stored palette, or the palette
    /// section does not match the payload length.
    CorruptPalette,
    /// A residual collides with the water sentinel, so the grid cannot
    /// be stored losslessly.
    CorruptResidual,
}

impl LoadError {
    /// A short description, in place of a `Display` impl.
    pub fn describe(&self) -> (r: &'static str)
    {
        match self {
            LoadError::InvalidFileSize => "invalid file size",
            LoadError::InvalidMagic => "invalid magic number",
            LoadError::UnsupportedFormatVersion => "unknown format version",
        }
    }
}

impl TileError {
    /// A short description, in place of a `Display` impl.
    pub fn describe(&self) -> (r: &'static str)
    {
        match self {
            TileError::CorruptFrame => "corrupt entropy frame",
            TileError::CorruptPalette => "corrupt palette",
            TileError::CorruptResidual => "residual out of range",
        }
    }
}

} // verus!

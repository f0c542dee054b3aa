//! The single-file container layout.
//!
//! A container starts with a 12-byte header (5 magic bytes, version,
//! tile resolution and height resolution as 16-bit little-endian
//! words, one flag byte), followed by the 64,800-entry offset table
//! (one 64-bit little-endian word per cell, row-major), followed by
//! the payload region of concatenated compressed tile frames. Offsets
//! in the table are absolute file offsets; 0 marks an absent tile.

use vstd::prelude::*;

use crate::coords::CELL_COUNT;
use vstd::arithmetic::div_mod::lemma_fundamental_div_mod;

verus! {

/// The format version this library writes.
pub const FORMAT_VERSION: u16 = 6;

/// Where the offset table starts.
pub const TILE_MAP_OFFSET: usize = 12;

/// Where the payload region starts: header plus offset table.
pub const DATA_START: usize = 12 + 64800 * 8;

/// Fixed per-container metadata.
#[derive(Copy, Clone, Debug, PartialEq, Eq, Structural)]
pub struct TileMetadata {
    /// The file format version.
    pub version: u16,
    /// The length of the side of the square tile.
    pub resolution: u16,
    /// The multiplier for the raw stored values, in metres per quantum.
    pub height_resolution: u16,
}

/// Metadata the codec can work under on this machine: a tile has at
/// least two samples a side, a positive height quantum, and a grid
/// that fits in addressable memory.
pub open spec fn meta_usable(m: TileMetadata) -> bool {
    &&& 2 <= m.resolution
    &&& 1 <= m.height_resolution
    &&& m.resolution as int * m.resolution as int * 2 + 2 <= usize::MAX
}

/// The abstract contents of a container: its metadata, offset table
/// and payload region.
pub ghost struct ContainerModel {
    pub metadata: TileMetadata,
    pub tile_map: Seq<u64>,
    pub payload: Seq<u8>,
}

impl ContainerModel {
    /// A well-formed container: a full offset table and the version
    /// this library writes.
    pub open spec fn wf(self) -> bool {
        &&& self.tile_map.len() == CELL_COUNT
        &&& self.metadata.version == FORMAT_VERSION
    }
}

/// The five magic bytes opening every heightmap container.
pub open spec fn magic_seq() -> Seq<u8> {
    seq![115u8, 117u8, 115u8, 115u8, 121u8]
}

/// 256 to the k-th power, for the byte weights of a 64-bit word.
pub open spec fn byte_weight(k: int) -> int {
    if k == 0 {
        1
    } else if k == 1 {
        0x100
    } else if k == 2 {
        0x10000
    } else if k == 3 {
        0x1000000
    } else if k == 4 {
        0x100000000
    } else if k == 5 {
        0x10000000000
    } else if k == 6 {
        0x1000000000000
    } else {
        0x100000000000000
    }
}

/// Byte k of the 64-bit little-endian encoding of v.
pub open spec fn u64_byte(v: u64, k: int) -> u8 {
    ((v as int / byte_weight(k)) % 256) as u8
}

/// The 64-bit little-endian value stored at byte offset i.
pub open spec fn le64_at(b: Seq<u8>, i: int) -> u64 {
    (b[i] + 0x100 * b[i + 1] + 0x10000 * b[i + 2] + 0x1000000 * b[i + 3] + 0x100000000 * b[i + 4]
        + 0x10000000000 * b[i + 5] + 0x1000000000000 * b[i + 6] + 0x100000000000000 * b[i
        + 7]) as u64
}

/// The 2-byte little-endian encoding of a 16-bit word.
pub open spec fn le16_bytes(v: u16) -> Seq<u8> {
    seq![(v as int % 256) as u8, (v as int / 256) as u8]
}

/// The 8-byte little-endian encoding of a 64-bit word.
pub open spec fn le64_bytes(v: u64) -> Seq<u8> {
    Seq::new(8, |k: int| u64_byte(v, k))
}

/// The 12-byte container header.
pub open spec fn header_bytes(m: TileMetadata) -> Seq<u8> {
    magic_seq() + le16_bytes(m.version) + le16_bytes(m.resolution) + le16_bytes(
        m.height_resolution,
    ) + seq![0u8]
}

/// The offset table serialised as bytes.
pub open spec fn table_bytes(tm: Seq<u64>) -> Seq<u8> {
    Seq::new(tm.len() * 8, |i: int| u64_byte(tm[i / 8], i % 8))
}

/// The whole container file as bytes.
pub open spec fn file_bytes(c: ContainerModel) -> Seq<u8> {
    header_bytes(c.metadata) + table_bytes(c.tile_map) + c.payload
}

/// Reading back the little-endian bytes of a 64-bit word gives the
/// word.
pub proof fn lemma_le64_roundtrip(v: u64)
    ensures
        forall|k: int| 0 <= k < 8 ==> #[trigger] le64_bytes(v)[k] == u64_byte(v, k),
        (u64_byte(v, 0) + 0x100 * u64_byte(v, 1) + 0x10000 * u64_byte(v, 2) + 0x1000000
            * u64_byte(v, 3) + 0x100000000 * u64_byte(v, 4) + 0x10000000000 * u64_byte(v, 5)
            + 0x1000000000000 * u64_byte(v, 6) + 0x100000000000000 * u64_byte(v, 7)) == v as int,
{
    let x = v as int;
    lemma_fundamental_div_mod(x, 256);
    lemma_fundamental_div_mod(x / 0x100, 256);
    lemma_fundamental_div_mod(x / 0x10000, 256);
    lemma_fundamental_div_mod(x / 0x1000000, 256);
    lemma_fundamental_div_mod(x / 0x100000000, 256);
    lemma_fundamental_div_mod(x / 0x10000000000, 256);
    lemma_fundamental_div_mod(x / 0x1000000000000, 256);
    assert(x / 0x100 / 256 == x / 0x10000) by {
        vstd::arithmetic::div_mod::lemma_div_denominator(x, 0x100, 256);
    }
    assert(x / 0x10000 / 256 == x / 0x1000000) by {
        vstd::arithmetic::div_mod::lemma_div_denominator(x, 0x10000, 256);
    }
    assert(x / 0x1000000 / 256 == x / 0x100000000) by {
        vstd::arithmetic::div_mod::lemma_div_denominator(x, 0x1000000, 256);
    }
    assert(x / 0x100000000 / 256 == x / 0x10000000000) by {
        vstd::arithmetic::div_mod::lemma_div_denominator(x, 0x100000000, 256);
    }
    assert(x / 0x10000000000 / 256 == x / 0x1000000000000) by {
        vstd::arithmetic::div_mod::lemma_div_denominator(x, 0x10000000000, 256);
    }
    assert(x / 0x1000000000000 / 256 == x / 0x100000000000000) by {
        vstd::arithmetic::div_mod::lemma_div_denominator(x, 0x1000000000000, 256);
    }
    assert(x / 0x100000000000000 % 256 == x / 0x100000000000000) by {
        assert(x / 0x100000000000000 < 256) by {
            vstd::arithmetic::div_mod::lemma_multiply_divide_lt(x, 0x100000000000000, 256);
        }
        assert(0 <= x / 0x100000000000000) by {
            vstd::arithmetic::div_mod::lemma_div_pos_is_pos(x, 0x100000000000000);
        }
        vstd::arithmetic::div_mod::lemma_small_mod(
            (x / 0x100000000000000) as nat,
            256,
        );
    }
}

/// Reads the 64-bit little-endian value at byte offset i.
pub fn read_le64(d: &Vec<u8>, i: usize) -> (r: u64)
    requires
        i + 8 <= d@.len(),
    ensures
        r == le64_at(d@, i as int),
{
    let l = d.len();
    (d[i] as u64) + 0x100 * (d[i + 1] as u64) + 0x10000 * (d[i + 2] as u64) + 0x1000000 * (d[i
        + 3] as u64) + 0x100000000 * (d[i + 4] as u64) + 0x10000000000 * (d[i + 5] as u64)
        + 0x1000000000000 * (d[i + 6] as u64) + 0x100000000000000 * (d[i + 7] as u64)
}

/// Appends the 8-byte little-endian encoding of a 64-bit word.
pub fn push_le64(out: &mut Vec<u8>, v: u64)
    ensures
        final(out)@ == old(out)@ + le64_bytes(v),
{
    proof {
        lemma_le64_roundtrip(v);
    }
    out.push((v % 0x100) as u8);
    out.push((v / 0x100 % 0x100) as u8);
    out.push((v / 0x10000 % 0x100) as u8);
    out.push((v / 0x1000000 % 0x100) as u8);
    out.push((v / 0x100000000 % 0x100) as u8);
    out.push((v / 0x10000000000 % 0x100) as u8);
    out.push((v / 0x1000000000000 % 0x100) as u8);
    out.push((v / 0x100000000000000 % 0x100) as u8);
    proof {
        assert(out@ =~= old(out)@ + le64_bytes(v));
    }
}

/// The bytes of a 64-bit word read back as a word: the table entries
/// round-trip through their byte encoding.
pub proof fn lemma_le64_at_of_bytes(b: Seq<u8>, i: int, v: u64)
    requires
        0 <= i,
        i + 8 <= b.len(),
        forall|k: int| 0 <= k < 8 ==> b[i + k] == #[trigger] u64_byte(v, k),
    ensures
        le64_at(b, i) == v,
{
    lemma_le64_roundtrip(v);
    assert(b[i] == u64_byte(v, 0));
    assert(b[i + 1] == u64_byte(v, 1));
    assert(b[i + 2] == u64_byte(v, 2));
    assert(b[i + 3] == u64_byte(v, 3));
    assert(b[i + 4] == u64_byte(v, 4));
    assert(b[i + 5] == u64_byte(v, 5));
    assert(b[i + 6] == u64_byte(v, 6));
    assert(b[i + 7] == u64_byte(v, 7));
}

} // verus!

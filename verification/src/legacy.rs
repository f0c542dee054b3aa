//! Readers for the older container versions.
//!
//! Version 3 and version 4 containers differ from the current layout
//! in their header width and in carrying a length-prefixed compression
//! dictionary between the offset table and the payload region. Their
//! tiles skip prediction and palette packing: each decompresses to one
//! little-endian 16-bit quantum per sample. Version 5 shares the
//! current header and table layout but stores each tile as a
//! length-prefixed lossless image frame; its image decode happens at
//! the caller's edge, while the header, table, frame slicing and the
//! post-decode mapping are all here. All three are readable only; new
//! writes always use the current version.

use vstd::prelude::*;

use crate::coords::{cell_index, map_lat_lon_to_index, valid_lat, valid_lon, CELL_COUNT};
use crate::error::{LoadError, TileError};
use crate::layout::{le64_at, read_le64, TileMetadata};
use crate::palette::{le16, read_le16};
use crate::quant::{unmap_cell, unmap_height};

verus! {

/// Where the offset table of a version-3 container starts.
pub const VER3_TILE_MAP_OFFSET: usize = 11;

/// Where the offset table of a version-4 container starts.
pub const VER4_TILE_MAP_OFFSET: usize = 13;

/// The abstract contents of a legacy container. Offsets in the table
/// are absolute; the payload region starts at `data_offset`, past the
/// dictionary.
pub ghost struct LegacyModel {
    pub metadata: TileMetadata,
    pub tile_map: Seq<u64>,
    pub payload: Seq<u8>,
    pub data_offset: int,
    pub delta_compressed: bool,
}

/// Where the offset table of a version-5 container starts.
pub const VER5_TILE_MAP_OFFSET: usize = 12;

/// The offset-table position for a legacy version, or 0 for a version
/// no loader handles.
pub open spec fn legacy_table_offset(version: u16) -> int {
    if version == 3 {
        11
    } else if version == 4 {
        13
    } else if version == 5 {
        12
    } else {
        0
    }
}

/// Whether a legacy version carries a length-prefixed dictionary
/// between the offset table and the payload.
pub open spec fn legacy_has_dict(version: u16) -> bool {
    version == 3 || version == 4
}

/// What loading a legacy container's bytes yields.
pub open spec fn load_legacy_spec(bytes: Seq<u8>) -> Result<LegacyModel, LoadError> {
    if bytes.len() < 7 {
        Err(LoadError::InvalidFileSize)
    } else if bytes.subrange(0, 5) != crate::layout::magic_seq() {
        Err(LoadError::InvalidMagic)
    } else if le16(bytes, 5) != 3 && le16(bytes, 5) != 4 && le16(bytes, 5) != 5 {
        Err(LoadError::UnsupportedFormatVersion)
    } else {
        let version = le16(bytes, 5);
        let table = legacy_table_offset(version);
        let dict_off = table + CELL_COUNT * 8;
        if bytes.len() < dict_off + 8 {
            Err(LoadError::InvalidFileSize)
        } else {
            let dict_size: int = if legacy_has_dict(version) {
                le64_at(bytes, dict_off) as int + 8
            } else {
                0
            };
            let data_offset = dict_off + dict_size;
            if bytes.len() < data_offset {
                Err(LoadError::InvalidFileSize)
            } else {
                Ok(
                    LegacyModel {
                        metadata: TileMetadata {
                            version,
                            resolution: le16(bytes, 7),
                            height_resolution: le16(bytes, 9),
                        },
                        tile_map: Seq::new(
                            CELL_COUNT as nat,
                            |i: int| le64_at(bytes, table + 8 * i),
                        ),
                        payload: bytes.skip(data_offset),
                        data_offset: data_offset,
                        delta_compressed: version == 5 && bytes[11] != 0,
                    },
                )
            }
        }
    }
}

/// The heights a raw two-byte tile payload decodes to.
pub open spec fn legacy_decode_spec(b: Seq<u8>, n: int, hres: int) -> Seq<i16> {
    Seq::new(n as nat, |i: int| unmap_cell(le16(b, 2 * i) as int, hres) as i16)
}

/// The byte stream the dictionary-less single-frame zstd decoder
/// yields for a buffer, cut short where decoding fails or the frame
/// ends: a function of the buffer alone for this decoder build and
/// these fixed settings.
pub uninterp spec fn zstd_plain_stream(frame: Seq<u8>) -> Seq<u8>;

/// Relies on zstd's stream decoder in single-frame mode, without a
/// dictionary: reading n bytes hands out exactly the first n bytes of
/// the stream the decoder yields for this buffer, and fails exactly
/// when the stream falls short of n -- as it does for frames written
/// with dictionaries this reader does not carry.
#[verifier::external_body]
fn decompress_exact(frame: &[u8], n: usize) -> (r: Result<Vec<u8>, TileError>)
    requires
        1 <= n,
    ensures
        r matches Ok(b) ==> b@ == zstd_plain_stream(frame@).subrange(0, n as int) && n
            <= zstd_plain_stream(frame@).len(),
        r is Err ==> zstd_plain_stream(frame@).len() < n,
        r matches Err(e) ==> e == TileError::CorruptFrame,
{
    let dec = match zstd::stream::read::Decoder::with_buffer(frame) {
        Ok(d) => d,
        Err(_) => return Err(TileError::CorruptFrame),
    };
    let mut dec = dec.single_frame();
    if dec.include_magicbytes(false).is_err() { return Err(TileError::CorruptFrame); }
    if dec.window_log_max(27).is_err() { return Err(TileError::CorruptFrame); }
    let mut out = vec![0u8; n];
    if std::io::Read::read_exact(&mut dec, &mut out).is_err() {
        return Err(TileError::CorruptFrame);
    }
    Ok(out)
}

/// Decodes a raw two-byte tile payload: one little-endian quantum per
/// sample, un-quantised.
pub fn decode_legacy_payload(b: &Vec<u8>, n: usize, hres: u16) -> (r: Vec<i16>)
    requires
        1 <= hres,
        b@.len() == 2 * n,
    ensures
        r@ == legacy_decode_spec(b@, n as int, hres as int),
{
    let l = b.len();
    let mut out: Vec<i16> = Vec::new();
    let mut i: usize = 0;
    while i < n
        invariant
            b@.len() == 2 * n,
            2 * n <= usize::MAX,
            1 <= hres,
            i <= n,
            out@.len() == i,
            forall|k: int|
                0 <= k < i ==> out@[k] == legacy_decode_spec(b@, n as int, hres as int)[k],
        decreases n - i,
    {
        let q = read_le16(b, 2 * i);
        let h = unmap_height(q, hres);
        out.push(h);
        i += 1;
    }
    proof {
        assert(out@ =~= legacy_decode_spec(b@, n as int, hres as int));
    }
    out
}

/// A read-only view of one legacy container.
pub struct LegacyDataset {
    metadata: TileMetadata,
    tile_map: Vec<u64>,
    data: Vec<u8>,
    data_offset: usize,
    delta_compressed: bool,
}

impl View for LegacyDataset {
    type V = LegacyModel;

    closed spec fn view(&self) -> LegacyModel {
        LegacyModel {
            metadata: self.metadata,
            tile_map: self.tile_map@,
            payload: self.data@,
            data_offset: self.data_offset as int,
            delta_compressed: self.delta_compressed,
        }
    }
}

impl LegacyDataset {
    /// Parses a version-3 or version-4 container out of its file bytes.
    pub fn load(bytes: &Vec<u8>) -> (r: Result<LegacyDataset, LoadError>)
        ensures
            r matches Ok(ds) ==> load_legacy_spec(bytes@) == Ok::<LegacyModel, LoadError>(ds@)
                && ds@.tile_map.len() == CELL_COUNT,
            r matches Err(e) ==> load_legacy_spec(bytes@) == Err::<LegacyModel, LoadError>(e),
    {
        let len = bytes.len();
        if len < 7 {
            return Err(LoadError::InvalidFileSize);
        }
        if bytes[0] != 115 || bytes[1] != 117 || bytes[2] != 115 || bytes[3] != 115 || bytes[4]
            != 121 {
            proof {
                assert(bytes@.subrange(0, 5) != crate::layout::magic_seq());
            }
            return Err(LoadError::InvalidMagic);
        }
        proof {
            assert(bytes@.subrange(0, 5) =~= crate::layout::magic_seq());
        }
        let version = read_le16(bytes, 5);
        if version != 3 && version != 4 && version != 5 {
            return Err(LoadError::UnsupportedFormatVersion);
        }
        let table: usize = if version == 3 {
            VER3_TILE_MAP_OFFSET
        } else if version == 4 {
            VER4_TILE_MAP_OFFSET
        } else {
            VER5_TILE_MAP_OFFSET
        };
        let dict_off = table + CELL_COUNT * 8;
        if len < dict_off + 8 {
            return Err(LoadError::InvalidFileSize);
        }
        let dict_size: u64 = if version == 5 {
            0
        } else {
            let d = read_le64(bytes, dict_off);
            if d > (len as u64) || (len as u64) - d < (dict_off + 8) as u64 {
                return Err(LoadError::InvalidFileSize);
            }
            d + 8
        };
        let data_offset = dict_off + (dict_size as usize);
        if data_offset > len {
            return Err(LoadError::InvalidFileSize);
        }
        let resolution = read_le16(bytes, 7);
        let height_resolution = read_le16(bytes, 9);
        let metadata = TileMetadata { version, resolution, height_resolution };
        let mut tile_map: Vec<u64> = Vec::new();
        let mut i: usize = 0;
        while i < CELL_COUNT
            invariant
                bytes@.len() == len,
                table + CELL_COUNT * 8 + 8 <= len,
                table == 11 || table == 12 || table == 13,
                i <= CELL_COUNT,
                tile_map@.len() == i,
                forall|k: int| 0 <= k < i ==> tile_map@[k] == le64_at(bytes@, table + 8 * k),
            decreases CELL_COUNT - i,
        {
            let entry = read_le64(bytes, table + 8 * i);
            tile_map.push(entry);
            i += 1;
        }
        let mut data: Vec<u8> = Vec::new();
        let mut j: usize = data_offset;
        while j < len
            invariant
                bytes@.len() == len,
                data_offset <= j <= len,
                data@.len() == j - data_offset,
                forall|k: int| 0 <= k < j - data_offset ==> data@[k] == bytes@[data_offset + k],
            decreases len - j,
        {
            let b = bytes[j];
            data.push(b);
            j += 1;
        }
        let delta_compressed = version == 5 && bytes[11] != 0;
        let ds = LegacyDataset { metadata, tile_map, data, data_offset, delta_compressed };
        proof {
            assert(ds@.tile_map =~= load_legacy_spec(bytes@)->Ok_0.tile_map);
            assert(ds@.payload =~= bytes@.skip(data_offset as int));
        }
        Ok(ds)
    }

    /// The container's fixed metadata.
    pub fn metadata(&self) -> (m: TileMetadata)
        ensures
            m == self@.metadata,
    {
        self.metadata
    }

    /// Whether the cell at (lat, lon) holds a tile.
    pub fn tile_exists(&self, lat: i16, lon: i16) -> (r: bool)
        requires
            self@.tile_map.len() == CELL_COUNT,
            valid_lat(lat as int),
            valid_lon(lon as int),
        ensures
            r == (self@.tile_map[cell_index(lat as int, lon as int)] != 0),
    {
        let index = map_lat_lon_to_index(lat, lon);
        self.tile_map[index] != 0
    }

    /// How many cells hold a tile.
    pub fn tile_count(&self) -> (r: usize)
        requires
            self@.tile_map.len() == CELL_COUNT,
        ensures
            r == crate::dataset::count_nonzero(self@.tile_map),
    {
        let mut count: usize = 0;
        let mut i: usize = 0;
        let n = self.tile_map.len();
        while i < n
            invariant
                n == self@.tile_map.len(),
                i <= n,
                count <= i,
                count == crate::dataset::count_nonzero(self@.tile_map.subrange(0, i as int)),
            decreases n - i,
        {
            proof {
                assert(self@.tile_map.subrange(0, i as int + 1).drop_last() =~= self@
                    .tile_map
                    .subrange(0, i as int));
            }
            if self.tile_map[i] != 0 {
                count += 1;
            }
            i += 1;
        }
        proof {
            assert(self@.tile_map.subrange(0, n as int) =~= self@.tile_map);
        }
        count
    }

    /// Decodes the tile at (lat, lon): one raw quantum per sample,
    /// un-quantised. `None` when the cell holds no tile.
    pub fn get_tile(&self, lat: i16, lon: i16) -> (r: Option<Result<Vec<i16>, TileError>>)
        requires
            self@.tile_map.len() == CELL_COUNT,
            valid_lat(lat as int),
            valid_lon(lon as int),
        ensures
            r is None <==> self@.tile_map[cell_index(lat as int, lon as int)] == 0,
            ({
                let off = self@.tile_map[cell_index(lat as int, lon as int)] as int;
                let res = self@.metadata.resolution as int;
                let hres = self@.metadata.height_resolution as int;
                let n = res * res;
                let usable = 1 <= res && 1 <= hres && 2 * n <= usize::MAX;
                let in_range = self@.data_offset <= off && off - self@.data_offset
                    <= self@.payload.len();
                &&& (off != 0 && self@.metadata.version == 5 ==> r == Some(
                    Err::<Vec<i16>, TileError>(TileError::CorruptFrame),
                ))
                &&& (off != 0 && self@.metadata.version != 5 && !(usable && in_range) ==> r
                    == Some(Err::<Vec<i16>, TileError>(TileError::CorruptFrame)))
                &&& (off != 0 && self@.metadata.version != 5 && usable && in_range ==> ({
                    let stream = zstd_plain_stream(self@.payload.skip(off - self@.data_offset));
                    if 2 * n <= stream.len() {
                        r matches Some(rr) && rr matches Ok(v) && v@ == legacy_decode_spec(
                            stream.subrange(0, 2 * n),
                            n,
                            hres,
                        )
                    } else {
                        r == Some(Err::<Vec<i16>, TileError>(TileError::CorruptFrame))
                    }
                }))
            }),
    {
        let index = map_lat_lon_to_index(lat, lon);
        let off = self.tile_map[index];
        if off == 0 {
            return None;
        }
        if self.metadata.version == 5 {
            // Version-5 tiles are image frames; their decode happens at
            // the caller's edge over `get_raw_tile_data`, with
            // `decode_v5_payload` mapping the decoded texels back.
            return Some(Err(TileError::CorruptFrame));
        }
        let res = self.metadata.resolution;
        let hres = self.metadata.height_resolution;
        if res < 1 || hres < 1 {
            return Some(Err(TileError::CorruptFrame));
        }
        proof {
            assert((res as int) * (res as int) <= 65535 * 65535) by (nonlinear_arith)
                requires
                    0 <= res as int <= 65535,
            ;
            assert(1 <= (res as int) * (res as int)) by (nonlinear_arith)
                requires
                    1 <= res as int,
            ;
        }
        if (res as u64) * (res as u64) * 2 > usize::MAX as u64 {
            return Some(Err(TileError::CorruptFrame));
        }
        if off < self.data_offset as u64 || off - (self.data_offset as u64)
            > self.data.len() as u64 {
            return Some(Err(TileError::CorruptFrame));
        }
        let start = (off - self.data_offset as u64) as usize;
        let frame = vstd::slice::slice_subrange(self.data.as_slice(), start, self.data.len());
        proof {
            assert(frame@ =~= self@.payload.skip(off as int - self@.data_offset));
        }
        let n = (res as usize) * (res as usize);
        let payload = match decompress_exact(frame, 2 * n) {
            Ok(b) => b,
            Err(e) => {
                return Some(Err(e));
            },
        };
        let out = decode_legacy_payload(&payload, n, hres);
        proof {
            assert(n as int == (res as int) * (res as int));
            assert(out@ == legacy_decode_spec(
                zstd_plain_stream(self@.payload.skip(off as int - self@.data_offset)).subrange(
                    0,
                    2 * ((res as int) * (res as int)),
                ),
                (res as int) * (res as int),
                hres as int,
            ));
        }
        Some(Ok(out))
    }
}


/// The 32-bit little-endian value stored at byte offset i.
pub open spec fn le32_at(b: Seq<u8>, i: int) -> int {
    b[i] + 0x100 * b[i + 1] + 0x10000 * b[i + 2] + 0x1000000 * b[i + 3]
}

/// A value wrapped into a signed 16-bit word.
pub open spec fn wrap_i16(x: int) -> i16 {
    let m = x % 0x10000;
    if m > 32767 {
        (m - 0x10000) as i16
    } else {
        m as i16
    }
}

/// The i-th sample of a delta-compressed tile: the wrapped running
/// sum of the mapped samples up to i.
pub open spec fn delta_summed(m: Seq<i16>, i: int) -> i16
    decreases i,
{
    if i <= 0 {
        m[0]
    } else {
        wrap_i16(delta_summed(m, i - 1) + m[i])
    }
}

/// Wrapping signed 16-bit addition.
fn wrap_add_i16(a: i16, b: i16) -> (r: i16)
    ensures
        r == wrap_i16(a + b),
{
    proof {
        vstd::arithmetic::div_mod::lemma_mod_add_multiples_vanish(a + b + 0x10000, 0x10000);
        vstd::arithmetic::div_mod::lemma_mod_add_multiples_vanish(a + b, 0x10000);
    }
    let m: i32 = ((a as i32) + (b as i32) + 0x20000) % 0x10000;
    if m > 32767 {
        (m - 0x10000) as i16
    } else {
        m as i16
    }
}

/// Maps a decoded version-5 image payload back to heights: one
/// little-endian quantum per sample, un-quantised, and, for a
/// delta-compressed container, the wrapped running sum of those
/// samples.
pub fn decode_v5_payload(b: &Vec<u8>, n: usize, hres: u16, delta_compressed: bool) -> (r: Vec<
    i16,
>)
    requires
        1 <= hres,
        1 <= n,
        b@.len() == 2 * n,
    ensures
        !delta_compressed ==> r@ == legacy_decode_spec(b@, n as int, hres as int),
        delta_compressed ==> r@.len() == n && forall|i: int|
            0 <= i < n ==> r@[i] == delta_summed(
                legacy_decode_spec(b@, n as int, hres as int),
                i,
            ),
{
    let mapped = decode_legacy_payload(b, n, hres);
    if !delta_compressed {
        return mapped;
    }
    let ghost m = mapped@;
    let mut out: Vec<i16> = Vec::new();
    out.push(mapped[0]);
    let mut i: usize = 1;
    while i < n
        invariant
            m == mapped@,
            m.len() == n,
            1 <= i <= n,
            out@.len() == i,
            forall|k: int| 0 <= k < i ==> out@[k] == delta_summed(m, k),
        decreases n - i,
    {
        let prev = out[i - 1];
        let next = wrap_add_i16(prev, mapped[i]);
        out.push(next);
        proof {
            assert(out@[i as int] == wrap_i16(delta_summed(m, i as int - 1) + m[i as int]));
            assert(out@[i as int] == delta_summed(m, i as int));
        }
        i += 1;
    }
    out
}

impl LegacyDataset {
    /// The stored image frame of the tile at (lat, lon) in a
    /// version-5 container: the frame's byte length is its stored
    /// 32-bit length field plus the eight prefix bytes. The caller
    /// decodes the image and maps it back with `decode_v5_payload`.
    pub fn get_raw_tile_data(&self, lat: i16, lon: i16) -> (r: Option<Result<Vec<u8>, TileError>>)
        requires
            self@.tile_map.len() == CELL_COUNT,
            self@.metadata.version == 5,
            valid_lat(lat as int),
            valid_lon(lon as int),
        ensures
            r is None <==> self@.tile_map[cell_index(lat as int, lon as int)] == 0,
            ({
                let off = self@.tile_map[cell_index(lat as int, lon as int)] as int;
                let start = off - self@.data_offset;
                let ok = self@.data_offset <= off && start + 8 <= self@.payload.len() && start
                    + le32_at(self@.payload, start + 4) + 8 <= self@.payload.len();
                &&& (off != 0 && ok ==> (r matches Some(rr) && rr matches Ok(v) && v@
                    == self@.payload.subrange(
                    start,
                    start + le32_at(self@.payload, start + 4) + 8,
                )))
                &&& (off != 0 && !ok ==> r == Some(
                    Err::<Vec<u8>, TileError>(TileError::CorruptFrame),
                ))
            }),
    {
        let index = map_lat_lon_to_index(lat, lon);
        let off = self.tile_map[index];
        if off == 0 {
            return None;
        }
        let dlen = self.data.len();
        if off < self.data_offset as u64 || off - (self.data_offset as u64) > dlen as u64 {
            return Some(Err(TileError::CorruptFrame));
        }
        let start = (off - self.data_offset as u64) as usize;
        if dlen - start < 8 {
            return Some(Err(TileError::CorruptFrame));
        }
        let flen64: u64 = (self.data[start + 4] as u64) + 0x100 * (self.data[start
            + 5] as u64) + 0x10000 * (self.data[start + 6] as u64) + 0x1000000 * (self.data[start
            + 7] as u64) + 8;
        if flen64 > (dlen - start) as u64 {
            return Some(Err(TileError::CorruptFrame));
        }
        let flen = flen64 as usize;
        let mut out: Vec<u8> = Vec::new();
        let mut k: usize = 0;
        while k < flen
            invariant
                dlen == self@.payload.len(),
                start + flen <= dlen,
                k <= flen,
                out@.len() == k,
                forall|j: int| 0 <= j < k ==> out@[j] == self@.payload[start + j],
            decreases flen - k,
        {
            let bbyte = self.data[start + k];
            out.push(bbyte);
            k += 1;
        }
        proof {
            assert(out@ =~= self@.payload.subrange(
                off as int - self@.data_offset,
                off as int - self@.data_offset + le32_at(
                    self@.payload,
                    off as int - self@.data_offset + 4,
                ) + 8,
            ));
        }
        Some(Ok(out))
    }

    /// Whether this container's tiles are delta-compressed.
    pub fn delta_compressed(&self) -> (r: bool)
        ensures
            r == self@.delta_compressed,
    {
        self.delta_compressed
    }
}

} // verus!

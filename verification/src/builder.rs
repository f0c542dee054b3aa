//! The container writer: builds a container in memory, appending each
//! encoded tile to the payload region and recording its absolute file
//! offset in the table. `flush` and `finish` serialise the whole
//! container; the caller writes the bytes out. The on-disk image is
//! consistent after any completed flush: tiles appended since the last
//! written-out flush are orphaned, never corrupting prior state.

use vstd::prelude::*;

use crate::codec::{
    decode_payload_spec, encode_tile, zstd_frame, FRAME_LEVEL,
};
use crate::coords::{cell_index, map_lat_lon_to_index, valid_lat, valid_lon, CELL_COUNT};
use crate::dataset::{load_spec, Dataset};
use crate::error::TileError;
use crate::layout::{
    file_bytes, header_bytes, le64_bytes, lemma_le64_at_of_bytes, meta_usable, push_le64,
    table_bytes, ContainerModel, TileMetadata, DATA_START, FORMAT_VERSION,
};
use crate::palette::{le16, push_le16};
use crate::predict::residuals_clear_water;
use crate::quant::{quantized_grid, unmapped_grid};
use vstd::pervasive::VecAdditionalExecFns;

verus! {

/// Builds one container, tile by tile.
pub struct DatasetBuilder {
    metadata: TileMetadata,
    tile_map: Vec<u64>,
    data: Vec<u8>,
}

impl View for DatasetBuilder {
    type V = ContainerModel;

    closed spec fn view(&self) -> ContainerModel {
        ContainerModel {
            metadata: self.metadata,
            tile_map: self.tile_map@,
            payload: self.data@,
        }
    }
}

impl DatasetBuilder {
    /// Starts an empty container with the given metadata.
    pub fn new(metadata: TileMetadata) -> (r: DatasetBuilder)
        requires
            metadata.version == FORMAT_VERSION,
        ensures
            r@.metadata == metadata,
            r@.tile_map == Seq::new(CELL_COUNT as nat, |i: int| 0u64),
            r@.payload == Seq::<u8>::empty(),
            r@.wf(),
    {
        let mut tile_map: Vec<u64> = Vec::new();
        let mut i: usize = 0;
        while i < CELL_COUNT
            invariant
                i <= CELL_COUNT,
                tile_map@.len() == i,
                forall|k: int| 0 <= k < i ==> tile_map@[k] == 0u64,
            decreases CELL_COUNT - i,
        {
            tile_map.push(0);
            i += 1;
        }
        let r = DatasetBuilder { metadata, tile_map, data: Vec::new() };
        proof {
            assert(r@.tile_map =~= Seq::new(CELL_COUNT as nat, |i: int| 0u64));
        }
        r
    }

    /// Reopens a loaded container for append; the reader's state
    /// carries over unchanged.
    pub fn from_dataset(dataset: Dataset) -> (r: DatasetBuilder)
        ensures
            r@ == dataset@,
    {
        let (metadata, tile_map, data) = dataset.into_parts();
        DatasetBuilder { metadata, tile_map, data }
    }

    /// The container's fixed metadata.
    pub fn metadata(&self) -> (m: TileMetadata)
        ensures
            m == self@.metadata,
    {
        self.metadata
    }

    /// Whether the cell at (lat, lon) already holds a tile.
    pub fn tile_exists(&self, lat: i16, lon: i16) -> (r: bool)
        requires
            self@.wf(),
            valid_lat(lat as int),
            valid_lon(lon as int),
        ensures
            r == (self@.tile_map[cell_index(lat as int, lon as int)] != 0),
    {
        let index = map_lat_lon_to_index(lat, lon);
        self.tile_map[index] != 0
    }

    /// Encodes a grid of heights and appends it as the tile of
    /// (lat, lon), recording its absolute offset. Re-adding a cell
    /// silently supersedes the old tile, whose bytes become orphaned.
    pub fn add_tile(&mut self, lat: i16, lon: i16, data: Vec<i16>) -> (r: Result<(), TileError>)
        requires
            old(self)@.wf(),
            meta_usable(old(self)@.metadata),
            valid_lat(lat as int),
            valid_lon(lon as int),
            data@.len() == old(self)@.metadata.resolution as int
                * old(self)@.metadata.resolution as int,
            forall|i: int| 0 <= i < data@.len() ==> -500 <= #[trigger] data@[i] as int,
        ensures
            final(self)@.metadata == old(self)@.metadata,
            final(self)@.wf(),
            r is Ok <==> residuals_clear_water(
                quantized_grid(data@, old(self)@.metadata.height_resolution as int),
                old(self)@.metadata.resolution as int,
            ) && DATA_START + old(self)@.payload.len() < usize::MAX,
            r is Ok ==> ({
                let off = DATA_START + old(self)@.payload.len();
                &&& final(self)@.tile_map == old(self)@.tile_map.update(
                    cell_index(lat as int, lon as int),
                    off as u64,
                )
                &&& exists|p: Seq<u8>|
                    final(self)@.payload == old(self)@.payload + #[trigger] zstd_frame(
                        p,
                        FRAME_LEVEL as int,
                    ) && decode_payload_spec(
                        p,
                        old(self)@.metadata.resolution as int,
                        old(self)@.metadata.height_resolution as int,
                    ) == Ok::<Seq<i16>, TileError>(
                        unmapped_grid(
                            quantized_grid(data@, old(self)@.metadata.height_resolution as int),
                            old(self)@.metadata.height_resolution as int,
                        ),
                    ) && crate::frame::frame_len_at(zstd_frame(p, FRAME_LEVEL as int), 0)
                        == Ok::<int, TileError>(zstd_frame(p, FRAME_LEVEL as int).len() as int)
            }),
            r matches Err(e) ==> final(self)@ == old(self)@ && (e == TileError::CorruptResidual
                || e == TileError::CorruptFrame),
            (r matches Err(e) && e == TileError::CorruptResidual) <==> !residuals_clear_water(
                quantized_grid(data@, old(self)@.metadata.height_resolution as int),
                old(self)@.metadata.resolution as int,
            ),
    {
        let res = self.metadata.resolution;
        let hres = self.metadata.height_resolution;
        let frame = match encode_tile(&data, res, hres) {
            Ok(f) => f,
            Err(e) => {
                return Err(e);
            },
        };
        if self.data.len() >= usize::MAX - DATA_START {
            // The payload region has outgrown what an offset can
            // address on this machine.
            return Err(TileError::CorruptFrame);
        }
        let index = map_lat_lon_to_index(lat, lon);
        let offset: u64 = (DATA_START + self.data.len()) as u64;
        self.tile_map.set(index, offset);
        let mut k: usize = 0;
        let flen = frame.len();
        let ghost pre = self.data@;
        while k < flen
            invariant
                flen == frame@.len(),
                k <= flen,
                pre == old(self)@.payload,
                self@.metadata == old(self)@.metadata,
                self@.tile_map == old(self)@.tile_map.update(
                    cell_index(lat as int, lon as int),
                    (DATA_START + old(self)@.payload.len()) as u64,
                ),
                old(self)@.tile_map.len() == CELL_COUNT,
                self.data@.len() == pre.len() + k,
                self.data@ == pre + frame@.subrange(0, k as int),
            decreases flen - k,
        {
            let b = frame[k];
            self.data.push(b);
            proof {
                assert(pre + frame@.subrange(0, k as int) + seq![frame@[k as int]] =~= pre
                    + frame@.subrange(0, k as int + 1));
            }
            k += 1;
        }
        proof {
            assert(self.data@ =~= pre + frame@);
        }
        Ok(())
    }

    /// Serialises the container: header, offset table, payload.
    pub fn flush(&self) -> (r: Vec<u8>)
        requires
            self@.wf(),
        ensures
            r@ == file_bytes(self@),
    {
        let mut out: Vec<u8> = Vec::new();
        out.push(115);
        out.push(117);
        out.push(115);
        out.push(115);
        out.push(121);
        push_le16(&mut out, self.metadata.version);
        push_le16(&mut out, self.metadata.resolution);
        push_le16(&mut out, self.metadata.height_resolution);
        out.push(0);
        proof {
            assert(out@ =~= header_bytes(self@.metadata));
        }
        let mut i: usize = 0;
        let n = self.tile_map.len();
        while i < n
            invariant
                n == self@.tile_map.len(),
                n == CELL_COUNT,
                i <= n,
                out@ == header_bytes(self@.metadata) + table_bytes(
                    self@.tile_map.subrange(0, i as int),
                ),
            decreases n - i,
        {
            let entry = self.tile_map[i];
            push_le64(&mut out, entry);
            proof {
                let tm = self@.tile_map;
                let small = table_bytes(tm.subrange(0, i as int));
                let big = table_bytes(tm.subrange(0, i as int + 1));
                assert forall|j: int| 0 <= j < big.len() implies big[j] == (small + le64_bytes(
                    tm[i as int],
                ))[j] by {
                    vstd::arithmetic::div_mod::lemma_fundamental_div_mod(j, 8);
                    if j < small.len() {
                        assert(j / 8 < i) by {
                            vstd::arithmetic::div_mod::lemma_multiply_divide_lt(j, 8, i as int);
                        }
                    } else {
                        assert(j / 8 == i && j % 8 == j - 8 * i) by {
                            vstd::arithmetic::div_mod::lemma_fundamental_div_mod_converse(
                                j,
                                8,
                                i as int,
                                j - 8 * i,
                            );
                        }
                    }
                }
                assert(big =~= small + le64_bytes(tm[i as int]));
            }
            i += 1;
        }
        proof {
            assert(self@.tile_map.subrange(0, n as int) =~= self@.tile_map);
        }
        let mut j: usize = 0;
        let plen = self.data.len();
        let ghost pre = out@;
        while j < plen
            invariant
                plen == self@.payload.len(),
                j <= plen,
                out@ == pre + self@.payload.subrange(0, j as int),
            decreases plen - j,
        {
            let b = self.data[j];
            out.push(b);
            proof {
                assert(pre + self@.payload.subrange(0, j as int) + seq![self@.payload[j as int]]
                    =~= pre + self@.payload.subrange(0, j as int + 1));
            }
            j += 1;
        }
        proof {
            assert(self@.payload.subrange(0, plen as int) =~= self@.payload);
            assert(out@ =~= file_bytes(self@));
        }
        out
    }


    /// Copies the compressed tile of (lat, lon) byte for byte from a
    /// compatible reader, skipping the decode-encode round trip. The
    /// metadata must match exactly; a cell the source lacks leaves the
    /// builder unchanged.
    pub fn add_tile_from_dataset(&mut self, lat: i16, lon: i16, other: &Dataset) -> (r: Result<
        (),
        TileError,
    >)
        requires
            old(self)@.wf(),
            other@.wf(),
            old(self)@.metadata == other@.metadata,
            valid_lat(lat as int),
            valid_lon(lon as int),
        ensures
            final(self)@.metadata == old(self)@.metadata,
            final(self)@.wf(),
            ({
                let idx = cell_index(lat as int, lon as int);
                let src = other@.tile_map[idx] as int;
                &&& (r is Ok <==> src == 0 || (DATA_START <= src && src - DATA_START
                    <= other@.payload.len() && crate::frame::frame_len_at(
                    other@.payload,
                    src - DATA_START,
                ) is Ok && DATA_START + old(self)@.payload.len() < usize::MAX))
                &&& (src == 0 ==> r is Ok && final(self)@ == old(self)@)
                &&& (r is Ok && src != 0 ==> ({
                    let start = src - DATA_START;
                    let flen = crate::frame::frame_len_at(other@.payload, start)->Ok_0;
                    &&& crate::frame::frame_len_at(other@.payload, start) is Ok
                    &&& final(self)@.payload == old(self)@.payload + other@.payload.subrange(
                        start,
                        start + flen,
                    )
                    &&& final(self)@.tile_map == old(self)@.tile_map.update(
                        idx,
                        (DATA_START + old(self)@.payload.len()) as u64,
                    )
                }))
                &&& (r is Err ==> final(self)@ == old(self)@)
            }),
    {
        let bytes = match other.get_raw_tile_data(lat, lon) {
            None => {
                return Ok(());
            },
            Some(Err(e)) => {
                return Err(e);
            },
            Some(Ok(b)) => b,
        };
        if self.data.len() >= usize::MAX - DATA_START {
            // The payload region has outgrown what an offset can
            // address on this machine.
            return Err(TileError::CorruptFrame);
        }
        let index = map_lat_lon_to_index(lat, lon);
        let offset: u64 = (DATA_START + self.data.len()) as u64;
        self.tile_map.set(index, offset);
        let mut k: usize = 0;
        let flen = bytes.len();
        let ghost pre = self.data@;
        while k < flen
            invariant
                flen == bytes@.len(),
                k <= flen,
                pre == old(self)@.payload,
                self@.metadata == old(self)@.metadata,
                self@.tile_map == old(self)@.tile_map.update(
                    cell_index(lat as int, lon as int),
                    (DATA_START + old(self)@.payload.len()) as u64,
                ),
                old(self)@.tile_map.len() == CELL_COUNT,
                self.data@.len() == pre.len() + k,
                self.data@ == pre + bytes@.subrange(0, k as int),
            decreases flen - k,
        {
            let b = bytes[k];
            self.data.push(b);
            proof {
                assert(pre + bytes@.subrange(0, k as int) + seq![bytes@[k as int]] =~= pre
                    + bytes@.subrange(0, k as int + 1));
            }
            k += 1;
        }
        proof {
            assert(self.data@ =~= pre + bytes@);
        }
        Ok(())
    }

    /// Serialises the container one last time and drops the builder.
    pub fn finish(self) -> (r: Vec<u8>)
        requires
            self@.wf(),
        ensures
            r@ == file_bytes(self@),
    {
        self.flush()
    }
}

/// Serialising a well-formed container and loading the bytes back
/// restores the container exactly: nothing is lost between a builder's
/// flush and a reader opening the file.
pub proof fn lemma_container_file_round_trip(c: ContainerModel)
    requires
        c.wf(),
    ensures
        load_spec(file_bytes(c)) == Ok::<ContainerModel, crate::error::LoadError>(c),
{
    let b = file_bytes(c);
    let hdr = header_bytes(c.metadata);
    let tb = table_bytes(c.tile_map);
    assert(hdr.len() == 12);
    assert(tb.len() == CELL_COUNT * 8);
    assert(b.len() == DATA_START + c.payload.len());
    assert(b.subrange(0, 5) =~= crate::layout::magic_seq());
    assert(le16(b, 5) == c.metadata.version) by {
        vstd::arithmetic::div_mod::lemma_fundamental_div_mod(c.metadata.version as int, 256);
    }
    assert(le16(b, 7) == c.metadata.resolution) by {
        vstd::arithmetic::div_mod::lemma_fundamental_div_mod(c.metadata.resolution as int, 256);
    }
    assert(le16(b, 9) == c.metadata.height_resolution) by {
        vstd::arithmetic::div_mod::lemma_fundamental_div_mod(
            c.metadata.height_resolution as int,
            256,
        );
    }
    let m = load_spec(b)->Ok_0;
    assert forall|i: int| 0 <= i < CELL_COUNT implies m.tile_map[i] == c.tile_map[i] by {
        assert forall|k: int| 0 <= k < 8 implies b[12 + 8 * i + k] == #[trigger] crate::layout::u64_byte(
            c.tile_map[i],
            k,
        ) by {
            assert(tb[8 * i + k] == crate::layout::u64_byte(
                c.tile_map[(8 * i + k) / 8],
                (8 * i + k) % 8,
            ));
            assert((8 * i + k) / 8 == i && (8 * i + k) % 8 == k) by {
                vstd::arithmetic::div_mod::lemma_fundamental_div_mod_converse(8 * i + k, 8, i, k);
            }
        }
        lemma_le64_at_of_bytes(b, 12 + 8 * i, c.tile_map[i]);
    }
    assert(m.tile_map =~= c.tile_map);
    assert(m.payload =~= c.payload);
    assert(m.metadata == c.metadata);
}


/// A frame appended at the end of the payload is exactly what the
/// reader sees at its recorded offset.
pub proof fn lemma_tile_frame_readable(prefix: Seq<u8>, p: Seq<u8>, level: int, suffix: Seq<u8>)
    ensures
        crate::codec::is_frame_prefix(
            (prefix + zstd_frame(p, level) + suffix).skip(prefix.len() as int),
            p,
            level,
        ),
{
    let payload = prefix + zstd_frame(p, level) + suffix;
    let tail = payload.skip(prefix.len() as int);
    assert(tail.subrange(0, zstd_frame(p, level).len() as int) =~= zstd_frame(p, level));
}

/// Container round trip. A container holding, at some cell, the offset
/// of a frame lying whole in its payload serialises and loads back
/// unchanged, and the reader sees exactly that frame at the cell's
/// offset. Together with the ensures of `add_tile` (which appends such
/// a frame and records such an offset), `flush`, `load` and
/// `get_tile`, a tile built and flushed is read back as the grid the
/// builder stored; a cell never written keeps entry 0, which
/// `tile_exists` and `get_tile` report as absent.
pub proof fn lemma_container_round_trip(
    c: ContainerModel,
    lat: int,
    lon: int,
    prefix: Seq<u8>,
    p: Seq<u8>,
    suffix: Seq<u8>,
)
    requires
        c.wf(),
        valid_lat(lat),
        valid_lon(lon),
        c.payload == prefix + zstd_frame(p, FRAME_LEVEL as int) + suffix,
        c.tile_map[cell_index(lat, lon)] as int == DATA_START + prefix.len(),
        crate::frame::frame_len_at(zstd_frame(p, FRAME_LEVEL as int), 0) == Ok::<
            int,
            TileError,
        >(zstd_frame(p, FRAME_LEVEL as int).len() as int),
    ensures
        load_spec(file_bytes(c)) == Ok::<ContainerModel, crate::error::LoadError>(c),
        DATA_START <= c.tile_map[cell_index(lat, lon)] as int,
        c.tile_map[cell_index(lat, lon)] as int - DATA_START <= c.payload.len(),
        crate::codec::is_frame_prefix(
            c.payload.skip(c.tile_map[cell_index(lat, lon)] as int - DATA_START),
            p,
            FRAME_LEVEL as int,
        ),
        crate::frame::frame_len_at(c.payload, c.tile_map[cell_index(lat, lon)] as int
            - DATA_START) == Ok::<int, TileError>(zstd_frame(p, FRAME_LEVEL as int).len() as int),
{
    crate::coords::lemma_cell_index_round_trip(lat, lon);
    lemma_container_file_round_trip(c);
    lemma_tile_frame_readable(prefix, p, FRAME_LEVEL as int, suffix);
    let fr = zstd_frame(p, FRAME_LEVEL as int);
    assert(c.payload.subrange(prefix.len() as int, prefix.len() as int + fr.len() as int) =~= fr);
    crate::frame::lemma_frame_len_embed(fr, c.payload, prefix.len() as int);
}

/// Offset-table invariant: writing one in-payload offset keeps every
/// non-zero entry at or past the payload region's start, so after any
/// run of `add_tile` calls from `new` every non-zero entry points into
/// the payload.
pub proof fn lemma_offset_entries_stay_past_header(tm: Seq<u64>, idx: int, off: u64)
    requires
        forall|j: int| 0 <= j < tm.len() ==> (#[trigger] tm[j] != 0 ==> DATA_START <= tm[j]),
        DATA_START as u64 <= off,
        0 <= idx < tm.len(),
    ensures
        forall|j: int|
            0 <= j < tm.len() ==> (#[trigger] tm.update(idx, off)[j] != 0 ==> DATA_START
                <= tm.update(idx, off)[j]),
{
}

} // verus!

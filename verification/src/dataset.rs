//! The container reader: parses the header and offset table out of a
//! container's bytes and serves decoded tiles out of the payload
//! region. A reader never mutates; the caller maps or reads the file
//! and hands the bytes over.

use vstd::prelude::*;

use crate::codec::{decode_payload_spec, decode_tile, is_frame_prefix, zstd_frame};
use crate::coords::{map_lat_lon_to_index, valid_lat, valid_lon, cell_index, CELL_COUNT};
use crate::error::{LoadError, TileError};
use crate::frame::{frame_len_at, frame_length, lemma_frame_len_bounds};
use crate::layout::{
    le64_at, meta_usable, read_le64, ContainerModel, TileMetadata, DATA_START, FORMAT_VERSION,
};
use crate::palette::{le16, read_le16};

verus! {

/// What loading a container's bytes yields: the parsed model, or why
/// the bytes are not a readable container.
pub open spec fn load_spec(bytes: Seq<u8>) -> Result<ContainerModel, LoadError> {
    if bytes.len() < 7 {
        Err(LoadError::InvalidFileSize)
    } else if bytes.subrange(0, 5) != crate::layout::magic_seq() {
        Err(LoadError::InvalidMagic)
    } else if le16(bytes, 5) != FORMAT_VERSION {
        Err(LoadError::UnsupportedFormatVersion)
    } else if bytes.len() < DATA_START {
        Err(LoadError::InvalidFileSize)
    } else {
        Ok(
            ContainerModel {
                metadata: TileMetadata {
                    version: FORMAT_VERSION,
                    resolution: le16(bytes, 7),
                    height_resolution: le16(bytes, 9),
                },
                tile_map: Seq::new(CELL_COUNT as nat, |i: int| le64_at(bytes, 12 + 8 * i)),
                payload: bytes.skip(DATA_START as int),
            },
        )
    }
}

/// How many offset-table entries are non-zero.
pub open spec fn count_nonzero(s: Seq<u64>) -> int
    decreases s.len(),
{
    if s.len() == 0 {
        0
    } else {
        count_nonzero(s.drop_last()) + (if s.last() != 0 {
            1int
        } else {
            0
        })
    }
}

/// A read-only view of one container.
pub struct Dataset {
    metadata: TileMetadata,
    tile_map: Vec<u64>,
    data: Vec<u8>,
}

impl View for Dataset {
    type V = ContainerModel;

    closed spec fn view(&self) -> ContainerModel {
        ContainerModel {
            metadata: self.metadata,
            tile_map: self.tile_map@,
            payload: self.data@,
        }
    }
}

impl Dataset {
    /// Parses a container out of its file bytes.
    pub fn load(bytes: &Vec<u8>) -> (r: Result<Dataset, LoadError>)
        ensures
            r matches Ok(ds) ==> load_spec(bytes@) == Ok::<ContainerModel, LoadError>(ds@)
                && ds@.wf(),
            r matches Err(e) ==> load_spec(bytes@) == Err::<ContainerModel, LoadError>(e),
    {
        let len = bytes.len();
        if len < 7 {
            return Err(LoadError::InvalidFileSize);
        }
        if bytes[0] != 115 || bytes[1] != 117 || bytes[2] != 115 || bytes[3] != 115 || bytes[4]
            != 121 {
            proof {
                assert(bytes@.subrange(0, 5) != crate::layout::magic_seq());
            }
            return Err(LoadError::InvalidMagic);
        }
        proof {
            assert(bytes@.subrange(0, 5) =~= crate::layout::magic_seq());
        }
        let version = read_le16(bytes, 5);
        if version != FORMAT_VERSION {
            return Err(LoadError::UnsupportedFormatVersion);
        }
        if len < DATA_START {
            return Err(LoadError::InvalidFileSize);
        }
        let resolution = read_le16(bytes, 7);
        let height_resolution = read_le16(bytes, 9);
        let metadata = TileMetadata { version, resolution, height_resolution };
        let mut tile_map: Vec<u64> = Vec::new();
        let mut i: usize = 0;
        while i < CELL_COUNT
            invariant
                bytes@.len() == len,
                DATA_START <= len,
                i <= CELL_COUNT,
                tile_map@.len() == i,
                forall|k: int| 0 <= k < i ==> tile_map@[k] == le64_at(bytes@, 12 + 8 * k),
            decreases CELL_COUNT - i,
        {
            let entry = read_le64(bytes, 12 + 8 * i);
            tile_map.push(entry);
            i += 1;
        }
        let mut data: Vec<u8> = Vec::new();
        let mut j: usize = DATA_START;
        while j < len
            invariant
                bytes@.len() == len,
                DATA_START <= j <= len,
                data@.len() == j - DATA_START,
                forall|k: int| 0 <= k < j - DATA_START ==> data@[k] == bytes@[DATA_START + k],
            decreases len - j,
        {
            let b = bytes[j];
            data.push(b);
            j += 1;
        }
        let ds = Dataset { metadata, tile_map, data };
        proof {
            assert(ds@.tile_map =~= load_spec(bytes@)->Ok_0.tile_map);
            assert(ds@.payload =~= bytes@.skip(DATA_START as int));
        }
        Ok(ds)
    }

    /// Dissolves the reader into its parts, for reopening the same
    /// container as a builder.
    pub fn into_parts(self) -> (r: (TileMetadata, Vec<u64>, Vec<u8>))
        ensures
            r.0 == self@.metadata,
            r.1@ == self@.tile_map,
            r.2@ == self@.payload,
    {
        (self.metadata, self.tile_map, self.data)
    }

    /// The container's fixed metadata.
    pub fn metadata(&self) -> (m: TileMetadata)
        ensures
            m == self@.metadata,
    {
        self.metadata
    }

    /// Whether the cell at (lat, lon) holds a tile.
    pub fn tile_exists(&self, lat: i16, lon: i16) -> (r: bool)
        requires
            self@.wf(),
            valid_lat(lat as int),
            valid_lon(lon as int),
        ensures
            r == (self@.tile_map[cell_index(lat as int, lon as int)] != 0),
    {
        let index = map_lat_lon_to_index(lat, lon);
        self.tile_map[index] != 0
    }

    /// How many cells hold a tile.
    pub fn tile_count(&self) -> (r: usize)
        requires
            self@.wf(),
        ensures
            r == count_nonzero(self@.tile_map),
    {
        let mut count: usize = 0;
        let mut i: usize = 0;
        let n = self.tile_map.len();
        while i < n
            invariant
                n == self@.tile_map.len(),
                i <= n,
                count <= i,
                count == count_nonzero(self@.tile_map.subrange(0, i as int)),
            decreases n - i,
        {
            proof {
                assert(self@.tile_map.subrange(0, i as int + 1).drop_last() =~= self@
                    .tile_map
                    .subrange(0, i as int));
            }
            if self.tile_map[i] != 0 {
                count += 1;
            }
            i += 1;
        }
        proof {
            assert(self@.tile_map.subrange(0, n as int) =~= self@.tile_map);
        }
        count
    }

    /// Decodes the tile at (lat, lon), also returning its compressed
    /// frame length. `None` when the cell holds no tile; a per-tile
    /// error leaves the rest of the container usable.
    pub fn get_tile_and_compressed_size(&self, lat: i16, lon: i16) -> (r: Option<
        Result<(Vec<i16>, usize), TileError>,
    >)
        requires
            self@.wf(),
            valid_lat(lat as int),
            valid_lon(lon as int),
        ensures
            ({
                let off = self@.tile_map[cell_index(lat as int, lon as int)] as int;
                &&& (r is None <==> off == 0)
                &&& (off != 0 && meta_usable(self@.metadata) && DATA_START <= off && off
                    - DATA_START <= self@.payload.len()) ==> (r matches Some(rr)
                    && (crate::frame::frame_len_at(self@.payload.skip(off - DATA_START), 0)
                        is Err ==> rr == Err::<(Vec<i16>, usize), TileError>(
                        TileError::CorruptFrame,
                    ))
                    && forall|p: Seq<u8>, level: int|
                        #[trigger] is_frame_prefix(
                            self@.payload.skip(off - DATA_START),
                            p,
                            level,
                        ) ==> (match decode_payload_spec(
                            p,
                            self@.metadata.resolution as int,
                            self@.metadata.height_resolution as int,
                        ) {
                            Ok(s) => rr matches Ok(t) && t.0@ == s && t.1 == zstd_frame(
                                p,
                                level,
                            ).len(),
                            Err(e) => rr matches Err(e2) && e2 == e,
                        }))
                &&& (off != 0 && !(meta_usable(self@.metadata) && DATA_START <= off && off
                    - DATA_START <= self@.payload.len())) ==> r == Some(
                    Err::<(Vec<i16>, usize), TileError>(TileError::CorruptFrame),
                )
            }),
    {
        let index = map_lat_lon_to_index(lat, lon);
        let off = self.tile_map[index];
        if off == 0 {
            return None;
        }
        let res = self.metadata.resolution;
        let hres = self.metadata.height_resolution;
        if res < 2 || hres < 1 {
            return Some(Err(TileError::CorruptFrame));
        }
        proof {
            assert((res as int) * (res as int) <= 65535 * 65535) by (nonlinear_arith)
                requires
                    0 <= res as int <= 65535,
            ;
        }
        if (res as u64) * (res as u64) * 2 + 2 > usize::MAX as u64 {
            return Some(Err(TileError::CorruptFrame));
        }
        if off < DATA_START as u64 || off - (DATA_START as u64) > self.data.len() as u64 {
            return Some(Err(TileError::CorruptFrame));
        }
        let start = (off - DATA_START as u64) as usize;
        let frame = vstd::slice::slice_subrange(self.data.as_slice(), start, self.data.len());
        proof {
            assert(frame@ =~= self@.payload.skip(off as int - DATA_START));
        }
        Some(decode_tile(frame, res, hres))
    }

    /// Decodes the tile at (lat, lon) into its grid of heights.
    pub fn get_tile(&self, lat: i16, lon: i16) -> (r: Option<Result<Vec<i16>, TileError>>)
        requires
            self@.wf(),
            valid_lat(lat as int),
            valid_lon(lon as int),
        ensures
            ({
                let off = self@.tile_map[cell_index(lat as int, lon as int)] as int;
                &&& (r is None <==> off == 0)
                &&& (off != 0 && meta_usable(self@.metadata) && DATA_START <= off && off
                    - DATA_START <= self@.payload.len()) ==> (r matches Some(rr)
                    && forall|p: Seq<u8>, level: int|
                        #[trigger] is_frame_prefix(
                            self@.payload.skip(off - DATA_START),
                            p,
                            level,
                        ) ==> (match decode_payload_spec(
                            p,
                            self@.metadata.resolution as int,
                            self@.metadata.height_resolution as int,
                        ) {
                            Ok(s) => rr matches Ok(t) && t@ == s,
                            Err(e) => rr matches Err(e2) && e2 == e,
                        }))
            }),
    {
        match self.get_tile_and_compressed_size(lat, lon) {
            None => None,
            Some(Ok((tile, _size))) => Some(Ok(tile)),
            Some(Err(e)) => Some(Err(e)),
        }
    }

    /// The compressed frame bytes of the tile at (lat, lon), located
    /// by walking the frame's own length header.
    pub fn get_raw_tile_data(&self, lat: i16, lon: i16) -> (r: Option<Result<Vec<u8>, TileError>>)
        requires
            self@.wf(),
            valid_lat(lat as int),
            valid_lon(lon as int),
        ensures
            ({
                let off = self@.tile_map[cell_index(lat as int, lon as int)] as int;
                &&& (r is None <==> off == 0)
                &&& (off != 0 && DATA_START <= off && off - DATA_START <= self@.payload.len())
                    ==> (r matches Some(rr) && (match frame_len_at(
                    self@.payload,
                    off - DATA_START,
                ) {
                    Ok(l) => rr matches Ok(v) && v@.len() == l && v@ == self@.payload.subrange(
                        off - DATA_START,
                        off - DATA_START + l,
                    ),
                    Err(e) => rr == Err::<Vec<u8>, TileError>(e),
                }))
                &&& (off != 0 && !(DATA_START <= off && off - DATA_START
                    <= self@.payload.len())) ==> r == Some(
                    Err::<Vec<u8>, TileError>(TileError::CorruptFrame),
                )
            }),
    {
        let index = map_lat_lon_to_index(lat, lon);
        let off = self.tile_map[index];
        if off == 0 {
            return None;
        }
        if off < DATA_START as u64 || off - (DATA_START as u64) > self.data.len() as u64 {
            return Some(Err(TileError::CorruptFrame));
        }
        let start = (off - DATA_START as u64) as usize;
        match frame_length(&self.data, start) {
            Ok(flen) => {
                let mut out: Vec<u8> = Vec::new();
                let mut k: usize = 0;
                while k < flen
                    invariant
                        self@.payload.len() <= usize::MAX,
                        start + flen <= self@.payload.len(),
                        k <= flen,
                        out@.len() == k,
                        forall|j: int| 0 <= j < k ==> out@[j] == self@.payload[start + j],
                    decreases flen - k,
                {
                    let b = self.data[start + k];
                    out.push(b);
                    k += 1;
                }
                proof {
                    assert(out@ =~= self@.payload.subrange(
                        off as int - DATA_START,
                        off as int - DATA_START + flen as int,
                    ));
                }
                Some(Ok(out))
            },
            Err(e) => Some(Err(e)),
        }
    }
}


/// Whether some offset-table entry points at the absolute offset.
pub open spec fn referenced(tm: Seq<u64>, abs_off: int) -> bool {
    exists|i: int| 0 <= i < tm.len() && tm[i] as int == abs_off
}

/// Walks the payload region frame by frame from `pos`, collecting the
/// (payload-relative offset, length) of every frame whose start no
/// offset-table entry references.
pub open spec fn orphan_walk(payload: Seq<u8>, tm: Seq<u64>, pos: int) -> Result<
    Seq<(int, int)>,
    TileError,
>
    decreases payload.len() - pos,
{
    if pos >= payload.len() {
        Ok(Seq::empty())
    } else {
        match frame_len_at(payload, pos) {
            Err(e) => Err(e),
            Ok(l) => {
                let step: int = if l < 1 {
                    1
                } else {
                    l
                };
                match orphan_walk(payload, tm, pos + step) {
                    Err(e) => Err(e),
                    Ok(tail) => {
                        if referenced(tm, pos + DATA_START) {
                            Ok(tail)
                        } else {
                            Ok(seq![(pos, l)] + tail)
                        }
                    },
                }
            },
        }
    }
}

/// Byte k of the payload lies inside a reported orphan range, or
/// inside a frame that starts at or after `pos` at a referenced
/// offset.
pub open spec fn covered(
    payload: Seq<u8>,
    tm: Seq<u64>,
    orphs: Seq<(int, int)>,
    pos: int,
    k: int,
) -> bool {
    (exists|j: int| 0 <= j < orphs.len() && #[trigger] orphs[j].0 <= k < orphs[j].0 + orphs[j].1)
        || (exists|s: int|
        pos <= s <= k && #[trigger] referenced(tm, s + DATA_START) && frame_len_at(
            payload,
            s,
        ) is Ok && k < s + frame_len_at(payload, s)->Ok_0)
}

/// When the walk succeeds, every payload byte from `pos` on lies
/// either inside a referenced frame or inside a reported orphan range,
/// and the reported ranges are in order, disjoint, and in bounds.
pub proof fn lemma_orphan_walk_covers(payload: Seq<u8>, tm: Seq<u64>, pos: int)
    requires
        0 <= pos,
        orphan_walk(payload, tm, pos) is Ok,
    ensures
        ({
            let orphs = orphan_walk(payload, tm, pos)->Ok_0;
            &&& forall|k: int|
                pos <= k < payload.len() ==> #[trigger] covered(payload, tm, orphs, pos, k)
            &&& forall|j: int|
                0 <= j < orphs.len() ==> pos <= #[trigger] orphs[j].0 && orphs[j].0 + orphs[j].1
                    <= payload.len() && 4 <= orphs[j].1
            &&& forall|a: int, b: int|
                0 <= a < b < orphs.len() ==> #[trigger] orphs[a].0 + orphs[a].1
                    <= #[trigger] orphs[b].0
        }),
    decreases payload.len() - pos,
{
    let orphs = orphan_walk(payload, tm, pos)->Ok_0;
    if pos >= payload.len() {
    } else {
        let l = frame_len_at(payload, pos)->Ok_0;
        lemma_frame_len_bounds(payload, pos);
        let step: int = if l < 1 {
            1
        } else {
            l
        };
        lemma_orphan_walk_covers(payload, tm, pos + step);
        let tail = orphan_walk(payload, tm, pos + step)->Ok_0;
        assert forall|k: int| pos <= k < payload.len() implies #[trigger] covered(
            payload,
            tm,
            orphs,
            pos,
            k,
        ) by {
            if k < pos + l {
                if referenced(tm, pos + DATA_START) {
                    assert(pos <= pos <= k && referenced(tm, pos + DATA_START) && frame_len_at(
                        payload,
                        pos,
                    ) is Ok && k < pos + l);
                } else {
                    assert(orphs[0].0 <= k < orphs[0].0 + orphs[0].1);
                }
            } else {
                // Covered by the tail of the walk.
                assert(pos + step <= k);
                assert(covered(payload, tm, tail, pos + step, k));
                if exists|j: int|
                    0 <= j < tail.len() && #[trigger] tail[j].0 <= k < tail[j].0 + tail[j].1 {
                    let j = choose|j: int|
                        0 <= j < tail.len() && #[trigger] tail[j].0 <= k < tail[j].0 + tail[j].1;
                    if referenced(tm, pos + DATA_START) {
                        assert(orphs[j].0 <= k < orphs[j].0 + orphs[j].1);
                    } else {
                        assert(orphs[j + 1].0 <= k < orphs[j + 1].0 + orphs[j + 1].1);
                    }
                } else {
                    let s = choose|s: int|
                        pos + step <= s <= k && #[trigger] referenced(tm, s + DATA_START)
                            && frame_len_at(payload, s) is Ok && k < s + frame_len_at(
                            payload,
                            s,
                        )->Ok_0;
                    assert(pos <= s <= k && referenced(tm, s + DATA_START));
                }
            }
        }
    }
}

/// The reported pairs of an orphan vector, made payload-relative.
pub open spec fn rel_pairs(v: Seq<(u64, u64)>) -> Seq<(int, int)> {
    Seq::new(v.len(), |j: int| (v[j].0 - DATA_START, v[j].1 as int))
}

impl Dataset {
    /// Whether any offset-table entry points at this payload position.
    fn is_referenced(&self, pos: usize) -> (r: bool)
        ensures
            r == referenced(self@.tile_map, pos + DATA_START),
    {
        let n = self.tile_map.len();
        let mut i: usize = 0;
        while i < n
            invariant
                n == self@.tile_map.len(),
                i <= n,
                forall|k: int|
                    0 <= k < i ==> #[trigger] self@.tile_map[k] as int != pos + DATA_START,
            decreases n - i,
        {
            let e = self.tile_map[i];
            if e >= DATA_START as u64 && e - DATA_START as u64 == pos as u64 {
                return true;
            }
            i += 1;
        }
        false
    }

    /// Walks the payload region and reports, as (absolute offset,
    /// length) pairs, every frame no offset-table entry points at.
    pub fn enumerate_orphans(&self) -> (r: Result<Vec<(u64, u64)>, TileError>)
        requires
            self@.wf(),
        ensures
            r matches Ok(v) ==> ({
                let w = orphan_walk(self@.payload, self@.tile_map, 0);
                &&& w is Ok
                &&& v@.len() == w->Ok_0.len()
                &&& forall|j: int|
                    0 <= j < v@.len() ==> #[trigger] v@[j].0 as int == w->Ok_0[j].0 + DATA_START
                        && v@[j].1 as int == w->Ok_0[j].1
            }),
            r matches Err(e) ==> orphan_walk(self@.payload, self@.tile_map, 0) == Err::<
                Seq<(int, int)>,
                TileError,
            >(e) || DATA_START + self@.payload.len() >= usize::MAX,
    {
        let len = self.data.len();
        if len >= usize::MAX - DATA_START {
            // A payload this large cannot carry absolute offsets on
            // this machine.
            return Err(TileError::CorruptFrame);
        }
        let mut out: Vec<(u64, u64)> = Vec::new();
        let mut pos: usize = 0;
        while pos < len
            invariant
                self@.wf(),
                len == self@.payload.len(),
                len < usize::MAX - DATA_START,
                pos <= len,
                forall|j: int| 0 <= j < out@.len() ==> #[trigger] out@[j].0 >= DATA_START as u64,
                orphan_walk(self@.payload, self@.tile_map, 0) == (match orphan_walk(
                    self@.payload,
                    self@.tile_map,
                    pos as int,
                ) {
                    Ok(tail) => Ok::<Seq<(int, int)>, TileError>(rel_pairs(out@) + tail),
                    Err(e) => Err::<Seq<(int, int)>, TileError>(e),
                }),
            decreases len - pos,
        {
            let ghost old_out = out@;
            let ghost pos0 = pos as int;
            let flen = match frame_length(&self.data, pos) {
                Ok(l) => l,
                Err(e) => {
                    return Err(e);
                },
            };
            if !self.is_referenced(pos) {
                out.push(((pos + DATA_START) as u64, flen as u64));
                proof {
                    assert(rel_pairs(out@) =~= rel_pairs(old_out) + seq![
                        (pos0, flen as int),
                    ]);
                }
            }
            pos += flen;
            proof {
                let payload = self@.payload;
                let tm = self@.tile_map;
                match orphan_walk(payload, tm, pos as int) {
                    Ok(tail) => {
                        if referenced(tm, pos0 + DATA_START) {
                            assert(orphan_walk(payload, tm, pos0) == Ok::<
                                Seq<(int, int)>,
                                TileError,
                            >(tail));
                        } else {
                            assert(orphan_walk(payload, tm, pos0) == Ok::<
                                Seq<(int, int)>,
                                TileError,
                            >(seq![(pos0, flen as int)] + tail));
                            assert(rel_pairs(old_out) + (seq![(pos0, flen as int)] + tail)
                                =~= rel_pairs(out@) + tail);
                        }
                    },
                    Err(_) => {},
                }
            }
        }
        proof {
            assert(orphan_walk(self@.payload, self@.tile_map, pos as int) == Ok::<
                Seq<(int, int)>,
                TileError,
            >(Seq::empty()));
            assert(rel_pairs(out@) + Seq::<(int, int)>::empty() =~= rel_pairs(out@));
        }
        Ok(out)
    }
}

} // verus!

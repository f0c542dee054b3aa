//! The tile atlas and the per-frame cache driver, as verified state
//! machines.
//!
//! The atlas is a bounded two-dimensional texture carved into square
//! slots of the selected level of detail's tile resolution; slots are
//! bump-allocated row by row and recycled through a free list. The
//! driver reconciles, once per frame, the rasteriser's used-cell mask
//! against the residency table: it frees slots of unused cells, admits
//! tiles for used cells that lack one, collects unused slots under
//! pressure, and asks for atlas growth when the working set no longer
//! fits. The texture writes themselves are the caller's GPU work: the
//! driver returns which tiles to upload into which slots.

use vstd::prelude::*;

use crate::codec::{decode_payload_spec, is_frame_prefix};
use crate::coords::{map_index_to_lat_lon, CELL_COUNT};
use crate::dataset::Dataset;
use crate::layout::{meta_usable, ContainerModel, DATA_START};
use vstd::pervasive::VecAdditionalExecFns;

verus! {

/// The outcome of one driver frame.
#[derive(Copy, Clone, Debug, PartialEq, Eq, Structural)]
pub enum UploadStatus {
    /// Tiles were admitted this frame.
    Uploads,
    /// Nothing changed this frame.
    NoUploads,
    /// The atlas was re-created larger; all residency was invalidated
    /// and admissions resume next frame.
    Resized,
    /// The atlas can neither evict enough nor grow further.
    AtlasFull,
}

/// A slot origin in the atlas texture, or one of the two sentinels.
#[derive(Copy, Clone, Debug, PartialEq, Eq, Structural)]
pub struct TileOffset {
    pub x: u32,
    pub y: u32,
}

/// One tile the caller must copy into the atlas texture.
pub struct TileUpload {
    /// The cell whose tile this is.
    pub index: usize,
    /// The slot origin to write at.
    pub slot: TileOffset,
    /// The decoded heights, row-major, tile_res squared of them.
    pub heights: Vec<i16>,
}

/// The bounded slot allocator over the atlas texture.
pub struct Atlas {
    /// Texture width in texels.
    pub width: u32,
    /// Texture height in texels.
    pub height: u32,
    /// The device's maximum texture side.
    pub max_dim: u32,
    /// Side length of a slot: the selected dataset's tile resolution.
    pub tile_res: u32,
    /// The bump cursor: the next never-used slot.
    pub curr_offset: TileOffset,
    /// Slots returned by eviction, reused before the cursor moves.
    pub collected_tiles: Vec<TileOffset>,
}

/// The residency sentinel for a cell with no slot.
pub open spec fn spec_unloaded(a: Atlas) -> TileOffset {
    TileOffset { x: 0, y: a.height }
}

/// The residency sentinel for a cell the dataset has no tile for.
pub open spec fn spec_not_found(a: Atlas) -> TileOffset {
    TileOffset { x: a.width, y: 0 }
}

/// A real slot: anything but the two sentinels.
pub open spec fn is_real(a: Atlas, t: TileOffset) -> bool {
    t != spec_unloaded(a) && t != spec_not_found(a)
}

/// The bump cursor's position in slot-count order.
pub open spec fn cursor_ord(a: Atlas) -> int {
    (a.curr_offset.y as int / a.tile_res as int) * (a.width as int / a.tile_res as int)
        + a.curr_offset.x as int / a.tile_res as int
}

impl Atlas {
    /// A consistent allocator: a positive slot side no larger than the
    /// texture, and an aligned cursor inside it.
    pub open spec fn wf(self) -> bool {
        &&& 1 <= self.tile_res
        &&& self.tile_res <= self.width
        &&& self.tile_res <= self.height
        &&& self.width <= self.max_dim
        &&& self.height <= self.max_dim
        &&& self.curr_offset.x as int % self.tile_res as int == 0
        &&& self.curr_offset.y as int % self.tile_res as int == 0
        &&& self.curr_offset.x + self.tile_res <= self.width
        &&& self.curr_offset.y <= self.height
    }

    /// Starts an empty atlas.
    pub fn new(width: u32, height: u32, max_dim: u32, tile_res: u32) -> (r: Atlas)
        requires
            1 <= tile_res <= width,
            tile_res <= height,
            width <= max_dim,
            height <= max_dim,
        ensures
            r.wf(),
            r.width == width,
            r.height == height,
            r.max_dim == max_dim,
            r.tile_res == tile_res,
            r.curr_offset == (TileOffset { x: 0u32, y: 0u32 }),
            r.collected_tiles@ == Seq::<TileOffset>::empty(),
    {
        proof {
            vstd::arithmetic::div_mod::lemma_mod_self_0(tile_res as int);
            vstd::arithmetic::div_mod::lemma_small_mod(0, tile_res as nat);
        }
        Atlas {
            width,
            height,
            max_dim,
            tile_res,
            curr_offset: TileOffset { x: 0, y: 0 },
            collected_tiles: Vec::new(),
        }
    }

    /// The residency value for "no slot".
    pub fn unloaded(&self) -> (r: TileOffset)
        ensures
            r == spec_unloaded(*self),
    {
        TileOffset { x: 0, y: self.height }
    }

    /// The residency value for "the dataset has no tile here".
    pub fn not_found(&self) -> (r: TileOffset)
        ensures
            r == spec_not_found(*self),
    {
        TileOffset { x: self.width, y: 0 }
    }

    /// Resets the allocator for a new level of detail: cursor to the
    /// origin, free list emptied, slots resized.
    pub fn clear(&mut self, tile_res: u32)
        requires
            1 <= tile_res <= old(self).width,
            tile_res <= old(self).height,
            old(self).width <= old(self).max_dim,
            old(self).height <= old(self).max_dim,
        ensures
            final(self).wf(),
            final(self).width == old(self).width,
            final(self).height == old(self).height,
            final(self).max_dim == old(self).max_dim,
            final(self).tile_res == tile_res,
            final(self).curr_offset == (TileOffset { x: 0u32, y: 0u32 }),
            final(self).collected_tiles@ == Seq::<TileOffset>::empty(),
            cursor_ord(*final(self)) == 0,
    {
        proof {
            vstd::arithmetic::div_mod::lemma_mod_self_0(tile_res as int);
            vstd::arithmetic::div_mod::lemma_small_mod(0, tile_res as nat);
            vstd::arithmetic::div_mod::lemma_div_of0(tile_res as int);
        }
        self.tile_res = tile_res;
        self.curr_offset = TileOffset { x: 0, y: 0 };
        self.collected_tiles = Vec::new();
        proof {
            assert(cursor_ord(*self) == 0) by {
                vstd::arithmetic::div_mod::lemma_div_of0(self.tile_res as int);
                vstd::arithmetic::mul::lemma_mul_basics(
                    self.width as int / self.tile_res as int,
                );
            }
        }
    }

    /// Returns an evicted slot to the free list.
    pub fn return_tile(&mut self, t: TileOffset)
        requires
            old(self).wf(),
        ensures
            final(self).wf(),
            *final(self) == (Atlas {
                collected_tiles: final(self).collected_tiles,
                ..*old(self)
            }),
            final(self).collected_tiles@ == old(self).collected_tiles@.push(t),
    {
        self.collected_tiles.push(t);
    }

    /// Hands out a slot: the most recently freed one, else the next
    /// bump slot; `None` when the free list is empty and the texture
    /// has no room below the cursor's row.
    pub fn alloc_slot(&mut self) -> (r: Option<TileOffset>)
        requires
            old(self).wf(),
        ensures
            final(self).wf(),
            final(self).width == old(self).width,
            final(self).height == old(self).height,
            final(self).max_dim == old(self).max_dim,
            final(self).tile_res == old(self).tile_res,
            match r {
                Some(t) => {
                    if old(self).collected_tiles@.len() > 0 {
                        &&& t == old(self).collected_tiles@.last()
                        &&& final(self).collected_tiles@ == old(self).collected_tiles@.drop_last()
                        &&& final(self).curr_offset == old(self).curr_offset
                    } else {
                        &&& t == old(self).curr_offset
                        &&& t.x + old(self).tile_res <= old(self).width
                        &&& t.y + old(self).tile_res <= old(self).height
                        &&& final(self).collected_tiles@ == old(self).collected_tiles@
                        &&& cursor_ord(*final(self)) == cursor_ord(*old(self)) + 1
                    }
                },
                None => {
                    &&& *final(self) == *old(self)
                    &&& old(self).collected_tiles@.len() == 0
                    &&& old(self).curr_offset.y + old(self).tile_res > old(self).height
                },
            },
    {
        if self.collected_tiles.len() > 0 {
            let t = self.collected_tiles.pop().unwrap();
            return Some(t);
        }
        let r = self.tile_res;
        let ret = self.curr_offset;
        if (ret.y as u64) + (r as u64) > self.height as u64 {
            return None;
        }
        proof {
            lemma_cursor_step(*self);
        }
        let mut x = ret.x + r;
        let mut y = ret.y;
        if (x as u64) + (r as u64) > self.width as u64 {
            x = 0;
            y = y + r;
        }
        self.curr_offset = TileOffset { x, y };
        Some(ret)
    }

    /// Doubles the texture, clamped to the device limit; refuses when
    /// both sides are already clamped. On growth the allocator resets:
    /// every slot and every residency entry is invalidated.
    pub fn try_grow(&mut self) -> (r: bool)
        requires
            old(self).wf(),
        ensures
            final(self).wf(),
            final(self).max_dim == old(self).max_dim,
            final(self).tile_res == old(self).tile_res,
            r == !(old(self).width == old(self).max_dim && old(self).height == old(self).max_dim),
            !r ==> *final(self) == *old(self),
            r ==> ({
                &&& final(self).width == (if 2 * old(self).width as int <= old(self).max_dim as int {
                    (2 * old(self).width) as u32
                } else {
                    old(self).max_dim
                })
                &&& final(self).height == (if 2 * old(self).height as int <= old(self).max_dim as int {
                    (2 * old(self).height) as u32
                } else {
                    old(self).max_dim
                })
                &&& final(self).curr_offset == (TileOffset { x: 0u32, y: 0u32 })
                &&& final(self).collected_tiles@ == Seq::<TileOffset>::empty()
            }),
    {
        if self.width == self.max_dim && self.height == self.max_dim {
            return false;
        }
        let w = if self.width <= self.max_dim / 2 {
            2 * self.width
        } else {
            self.max_dim
        };
        let h = if self.height <= self.max_dim / 2 {
            2 * self.height
        } else {
            self.max_dim
        };
        proof {
            vstd::arithmetic::div_mod::lemma_fundamental_div_mod(self.max_dim as int, 2);
            vstd::arithmetic::div_mod::lemma_mod_self_0(self.tile_res as int);
            vstd::arithmetic::div_mod::lemma_small_mod(0, self.tile_res as nat);
        }
        self.width = w;
        self.height = h;
        self.curr_offset = TileOffset { x: 0, y: 0 };
        self.collected_tiles = Vec::new();
        true
    }
}

/// Advancing the bump cursor by one slot adds one to its slot-count
/// position and keeps it aligned.
proof fn lemma_cursor_step(a: Atlas)
    requires
        a.wf(),
        a.curr_offset.y + a.tile_res <= a.height,
    ensures
        ({
            let r = a.tile_res as int;
            let x = a.curr_offset.x as int;
            let y = a.curr_offset.y as int;
            let stepped = if x + r + r > a.width as int {
                Atlas {
                    curr_offset: TileOffset { x: 0u32, y: (y + r) as u32 },
                    ..a
                }
            } else {
                Atlas {
                    curr_offset: TileOffset { x: (x + r) as u32, y: y as u32 },
                    ..a
                }
            };
            &&& stepped.wf()
            &&& cursor_ord(stepped) == cursor_ord(a) + 1
        }),
{
    let r = a.tile_res as int;
    let x = a.curr_offset.x as int;
    let y = a.curr_offset.y as int;
    let w = a.width as int;
    let cols = w / r;
    vstd::arithmetic::div_mod::lemma_fundamental_div_mod(x, r);
    vstd::arithmetic::div_mod::lemma_fundamental_div_mod(y, r);
    // x and y are exact multiples of the slot side.
    assert(x == r * (x / r));
    assert(y == r * (y / r));
    vstd::arithmetic::div_mod::lemma_mod_self_0(r);
    vstd::arithmetic::div_mod::lemma_mod_add_multiples_vanish(0, r);
    if x + r + r > w {
        // Row wrap: the cursor had the last slot of its row.
        assert((x + r) % r == 0) by {
            vstd::arithmetic::div_mod::lemma_mod_multiples_basic(x / r + 1, r);
            assert((x / r + 1) * r == x + r) by (nonlinear_arith)
                requires
                    x == r * (x / r),
            ;
        }
        assert((y + r) % r == 0) by {
            vstd::arithmetic::div_mod::lemma_mod_multiples_basic(y / r + 1, r);
            assert((y / r + 1) * r == y + r) by (nonlinear_arith)
                requires
                    y == r * (y / r),
            ;
        }
        assert(x / r == cols - 1) by {
            // x + r <= w < x + 2r pins x to the last column.
            vstd::arithmetic::div_mod::lemma_fundamental_div_mod(w, r);
            assert((x + 2 * r - 1) / r == x / r + 1) by {
                assert((x / r + 1) * r + (r - 1) == x + 2 * r - 1) by (nonlinear_arith)
                    requires
                        x == r * (x / r),
                ;
                vstd::arithmetic::div_mod::lemma_fundamental_div_mod_converse(
                    x + 2 * r - 1,
                    r,
                    x / r + 1,
                    r - 1,
                );
            }
            assert(cols <= x / r + 1) by {
                vstd::arithmetic::div_mod::lemma_div_is_ordered(w, x + 2 * r - 1, r);
            }
            assert((w - r) / r == cols - 1) by {
                assert((cols - 1) * r + w % r == w - r) by (nonlinear_arith)
                    requires
                        w == r * cols + w % r,
                ;
                vstd::arithmetic::div_mod::lemma_fundamental_div_mod_converse(
                    w - r,
                    r,
                    cols - 1,
                    w % r,
                );
            }
            assert(x / r <= cols - 1) by {
                vstd::arithmetic::div_mod::lemma_div_is_ordered(x, w - r, r);
            }
        }
        assert((y + r) / r == y / r + 1) by {
            assert((y / r + 1) * r == y + r) by (nonlinear_arith)
                requires
                    y == r * (y / r),
            ;
            vstd::arithmetic::div_mod::lemma_fundamental_div_mod_converse(
                y + r,
                r,
                y / r + 1,
                0,
            );
        }
        assert(0int / r == 0) by {
            vstd::arithmetic::div_mod::lemma_div_of0(r);
        }
        assert(0int % r == 0) by {
            vstd::arithmetic::div_mod::lemma_small_mod(0, r as nat);
        }
        assert((y / r + 1) * cols == (y / r) * cols + cols) by (nonlinear_arith);
    } else {
        assert((x + r) % r == 0 && (x + r) / r == x / r + 1) by {
            assert((x / r + 1) * r == x + r) by (nonlinear_arith)
                requires
                    x == r * (x / r),
            ;
            vstd::arithmetic::div_mod::lemma_fundamental_div_mod_converse(
                x + r,
                r,
                x / r + 1,
                0,
            );
        }
    }
}

/// The atlas admission law: while fewer slots have been handed out
/// than the texture holds whole slot columns times rows, the next bump
/// allocation succeeds; only a cursor past that capacity is refused.
pub proof fn lemma_atlas_admission(a: Atlas)
    requires
        a.wf(),
        cursor_ord(a) < (a.width as int / a.tile_res as int) * (a.height as int
            / a.tile_res as int),
    ensures
        a.curr_offset.y + a.tile_res <= a.height,
{
    let r = a.tile_res as int;
    let y = a.curr_offset.y as int;
    let h = a.height as int;
    let cols = a.width as int / r;
    let rows = h / r;
    vstd::arithmetic::div_mod::lemma_fundamental_div_mod(y, r);
    assert(y == r * (y / r));
    assert(0 <= a.curr_offset.x as int / r < cols) by {
        vstd::arithmetic::div_mod::lemma_div_pos_is_pos(a.curr_offset.x as int, r);
        assert((a.curr_offset.x as int) < r * cols) by {
            vstd::arithmetic::div_mod::lemma_fundamental_div_mod(a.width as int, r);
            vstd::arithmetic::div_mod::lemma_mod_bound(a.width as int, r);
        }
        vstd::arithmetic::div_mod::lemma_multiply_divide_lt(
            a.curr_offset.x as int,
            r,
            cols,
        );
    }
    assert(1 <= cols) by {
        vstd::arithmetic::div_mod::lemma_fundamental_div_mod(a.width as int, r);
        vstd::arithmetic::div_mod::lemma_mod_bound(a.width as int, r);
        if cols <= 0 {
            assert(r * cols <= 0) by (nonlinear_arith)
                requires
                    cols <= 0,
                    r >= 1,
            ;
        }
    }
    // From the capacity bound, the cursor's row index is below rows.
    assert(y / r < rows) by {
        if y / r >= rows {
            assert(cursor_ord(a) >= rows * cols) by {
                assert((y / r) * cols >= rows * cols) by (nonlinear_arith)
                    requires
                        y / r >= rows,
                        cols >= 1,
                ;
            }
            assert(cols * rows == rows * cols) by (nonlinear_arith);
        }
    }
    // A row index below rows leaves room for one more slot row.
    assert(y + r <= h) by {
        assert((y / r + 1) * r <= rows * r) by (nonlinear_arith)
            requires
                y / r + 1 <= rows,
                r >= 1,
        ;
        assert((y / r + 1) * r == y + r) by (nonlinear_arith)
            requires
                y == r * (y / r),
        ;
        assert(rows * r <= h) by {
            vstd::arithmetic::div_mod::lemma_fundamental_div_mod(h, r);
            vstd::arithmetic::div_mod::lemma_mod_bound(h, r);
        }
    }
}


/// A frame that had to admit a tile was not in steady state: some
/// used cell started the frame without a slot.
proof fn lemma_request_breaks_steady_state(
    switched: bool,
    pick: int,
    old_curr: int,
    base_tiles: Seq<TileOffset>,
    base_atlas: Atlas,
    old_tiles: Seq<TileOffset>,
    old_atlas: Atlas,
    used: Seq<u32>,
    i: int,
)
    requires
        switched == (pick != old_curr),
        !switched ==> base_tiles == old_tiles && base_atlas == old_atlas,
        0 <= i < used.len(),
        used[i] != 0,
        0 <= i < base_tiles.len(),
        base_tiles[i] == spec_unloaded(base_atlas),
    ensures
        !(pick == old_curr && (forall|k: int|
            0 <= k < used.len() ==> (used[k] != 0 ==> #[trigger] old_tiles[k] != spec_unloaded(
                old_atlas,
            )) && (used[k] == 0 ==> !is_real(old_atlas, old_tiles[k])))),
{
    if pick == old_curr {
        assert(old_tiles[i] == spec_unloaded(old_atlas));
    }
}

/// One dataset pixel per screen pixel: whether a dataset whose tiles
/// have this resolution is dense enough when each screen pixel spans
/// `angle_urad / height_px` microradians. One degree is 17453.293
/// microradians, scaled by 1000 on both sides to stay integral.
pub open spec fn spec_suits(res: u16, height_px: u32, angle_urad: u32) -> bool {
    angle_urad * res * 1000 <= 17453293 * height_px
}

/// The dataset the driver selects for a frame: the last dataset in the
/// list dense enough for the angle, else the first.
pub open spec fn spec_pick_from(ds: Seq<Dataset>, height_px: u32, angle_urad: u32, i: int) -> int
    decreases i,
{
    if i <= 0 {
        0
    } else if spec_suits(ds[i]@.metadata.resolution, height_px, angle_urad) {
        i
    } else {
        spec_pick_from(ds, height_px, angle_urad, i - 1)
    }
}

/// The dataset index selected for a frame.
pub open spec fn spec_pick(ds: Seq<Dataset>, height_px: u32, angle_urad: u32) -> int {
    spec_pick_from(ds, height_px, angle_urad, ds.len() - 1)
}

/// Whether this dataset is dense enough for the angle.
fn suits(res: u16, height_px: u32, angle_urad: u32) -> (r: bool)
    requires
        angle_urad <= 10000000,
    ensures
        r == spec_suits(res, height_px, angle_urad),
{
    proof {
        assert((angle_urad as int) * (res as int) <= 10000000 * 65535) by (nonlinear_arith)
            requires
                0 <= angle_urad as int <= 10000000,
                0 <= res as int <= 65535,
        ;
    }
    (angle_urad as u64) * (res as u64) * 1000 <= 17453293u64 * (height_px as u64)
}

/// Cells in [from, hi) that wait for a slot: used but unloaded.
pub open spec fn count_pending(
    used: Seq<u32>,
    tiles: Seq<TileOffset>,
    a: Atlas,
    from: int,
    hi: int,
) -> int
    decreases hi - from,
{
    if hi <= from {
        0
    } else {
        count_pending(used, tiles, a, from, hi - 1) + (if used[hi - 1] != 0 && tiles[hi - 1]
            == spec_unloaded(a) {
            1int
        } else {
            0
        })
    }
}

/// Cells in [from, hi) whose slot can be evicted: unused but resident.
pub open spec fn count_evictable(
    used: Seq<u32>,
    tiles: Seq<TileOffset>,
    a: Atlas,
    from: int,
    hi: int,
) -> int
    decreases hi - from,
{
    if hi <= from {
        0
    } else {
        count_evictable(used, tiles, a, from, hi - 1) + (if used[hi - 1] == 0 && is_real(
            a,
            tiles[hi - 1],
        ) {
            1int
        } else {
            0
        })
    }
}

/// How the admission of one requested, unloaded cell settled against
/// the selected dataset: the cell is marked missing if and only if the
/// dataset holds no tile for it, and a tile that decodes becomes a
/// real slot with a matching entry among the returned uploads.
pub open spec fn admission_settled(
    ds: ContainerModel,
    atlas: Atlas,
    tiles: Seq<TileOffset>,
    ups: Seq<TileUpload>,
    k: int,
) -> bool {
    let off = ds.tile_map[k] as int;
    &&& (tiles[k] == spec_not_found(atlas) <==> off == 0)
    &&& (off != 0 && meta_usable(ds.metadata) && DATA_START <= off && off - DATA_START
        <= ds.payload.len()) ==> forall|p: Seq<u8>, level: int|
        #[trigger] is_frame_prefix(ds.payload.skip(off - DATA_START), p, level) ==> (
        match decode_payload_spec(
            p,
            ds.metadata.resolution as int,
            ds.metadata.height_resolution as int,
        ) {
            Ok(s) => is_real(atlas, tiles[k]) && (exists|j: int|
                0 <= j < ups.len() && (#[trigger] ups[j].index) as int == k && ups[j].slot
                    == tiles[k] && ups[j].heights@ == s),
            Err(_) => tiles[k] == spec_unloaded(atlas),
        })
}


/// An admission already settled stays settled while the cell, the
/// atlas texture size and the recorded uploads are untouched.
proof fn lemma_settled_stable(
    ds: ContainerModel,
    a1: Atlas,
    a2: Atlas,
    t1: Seq<TileOffset>,
    t2: Seq<TileOffset>,
    u1: Seq<TileUpload>,
    u2: Seq<TileUpload>,
    k: int,
)
    requires
        admission_settled(ds, a1, t1, u1, k),
        a2.width == a1.width,
        a2.height == a1.height,
        0 <= k < t1.len(),
        t2.len() == t1.len(),
        t2[k] == t1[k],
        u1.len() <= u2.len(),
        forall|j: int| 0 <= j < u1.len() ==> u2[j] == u1[j],
    ensures
        admission_settled(ds, a2, t2, u2, k),
{
    let off = ds.tile_map[k] as int;
    assert(spec_unloaded(a2) == spec_unloaded(a1));
    assert(spec_not_found(a2) == spec_not_found(a1));
    if off != 0 && meta_usable(ds.metadata) && DATA_START <= off && off - DATA_START
        <= ds.payload.len() {
        assert forall|p: Seq<u8>, level: int|
            #[trigger] is_frame_prefix(ds.payload.skip(off - DATA_START), p, level) implies (
        match decode_payload_spec(
            p,
            ds.metadata.resolution as int,
            ds.metadata.height_resolution as int,
        ) {
            Ok(s) => is_real(a2, t2[k]) && (exists|j: int|
                0 <= j < u2.len() && (#[trigger] u2[j].index) as int == k && u2[j].slot == t2[k]
                    && u2[j].heights@ == s),
            Err(_) => t2[k] == spec_unloaded(a2),
        }) by {
            match decode_payload_spec(
                p,
                ds.metadata.resolution as int,
                ds.metadata.height_resolution as int,
            ) {
                Ok(s) => {
                    let j = choose|j: int|
                        0 <= j < u1.len() && (#[trigger] u1[j].index) as int == k && u1[j].slot
                            == t1[k] && u1[j].heights@ == s;
                    assert(u2[j] == u1[j]);
                },
                Err(_) => {},
            }
        }
    }
}

/// The per-cell residency table, the atlas it indexes into, and the
/// level-of-detail datasets the driver serves tiles from.
pub struct TileCache {
    /// The datasets, one per level of detail.
    pub datasets: Vec<Dataset>,
    /// Residency of each cell: a slot origin or a sentinel.
    pub tiles: Vec<TileOffset>,
    /// The slot allocator over the atlas texture.
    pub atlas: Atlas,
    /// The selected dataset, or `datasets.len()` before the first frame.
    pub curr_dataset: usize,
}

impl TileCache {
    /// A consistent cache: a full residency table, a consistent atlas,
    /// and datasets whose tiles fit the atlas.
    pub open spec fn wf(self) -> bool {
        &&& self.tiles@.len() == CELL_COUNT
        &&& self.atlas.wf()
        &&& self.curr_dataset as int <= self.datasets@.len()
        &&& forall|c: int|
            0 <= c < self.atlas.collected_tiles@.len() ==> is_real(
                self.atlas,
                #[trigger] self.atlas.collected_tiles@[c],
            )
        &&& forall|d: int|
            0 <= d < self.datasets@.len() ==> (#[trigger] self.datasets@[d]@).wf() && 1
                <= self.datasets@[d]@.metadata.resolution
                && self.datasets@[d]@.metadata.resolution <= self.atlas.width
                && self.datasets@[d]@.metadata.resolution <= self.atlas.height
    }

    /// Starts a cache over an atlas of the given size; no level of
    /// detail is selected until the first frame.
    pub fn new(datasets: Vec<Dataset>, width: u32, height: u32, max_dim: u32) -> (r: TileCache)
        requires
            1 <= width <= max_dim,
            1 <= height <= max_dim,
            forall|d: int|
                0 <= d < datasets@.len() ==> (#[trigger] datasets@[d]@).wf() && 1 <= datasets@[d]@.metadata.resolution
                    && datasets@[d]@.metadata.resolution <= width
                    && datasets@[d]@.metadata.resolution <= height,
        ensures
            r.wf(),
            r.datasets@ == datasets@,
            r.curr_dataset == datasets@.len(),
            r.atlas.width == width,
            r.atlas.height == height,
            r.atlas.max_dim == max_dim,
            forall|i: int| 0 <= i < CELL_COUNT ==> r.tiles@[i] == spec_unloaded(r.atlas),
    {
        let atlas = Atlas::new(width, height, max_dim, 1);
        let unl = atlas.unloaded();
        let mut tiles: Vec<TileOffset> = Vec::new();
        let mut i: usize = 0;
        while i < CELL_COUNT
            invariant
                i <= CELL_COUNT,
                tiles@.len() == i,
                forall|k: int| 0 <= k < i ==> tiles@[k] == unl,
            decreases CELL_COUNT - i,
        {
            tiles.push(unl);
            i += 1;
        }
        let curr_dataset = datasets.len();
        TileCache { datasets, tiles, atlas, curr_dataset }
    }

    /// The dataset the driver will select for this angle.
    pub fn pick_dataset(&self, height_px: u32, vertical_angle_urad: u32) -> (r: usize)
        requires
            self.datasets@.len() >= 1,
            vertical_angle_urad <= 10000000,
        ensures
            r as int == spec_pick(self.datasets@, height_px, vertical_angle_urad),
            r < self.datasets@.len(),
    {
        let mut i = self.datasets.len() - 1;
        loop
            invariant_except_break
                self.datasets@.len() >= 1,
                vertical_angle_urad <= 10000000,
                0 <= i < self.datasets@.len(),
                spec_pick(self.datasets@, height_px, vertical_angle_urad) == spec_pick_from(
                    self.datasets@,
                    height_px,
                    vertical_angle_urad,
                    i as int,
                ),
            ensures
                0 <= i < self.datasets@.len(),
                i as int == spec_pick(self.datasets@, height_px, vertical_angle_urad),
            decreases i,
        {
            if i == 0 {
                break;
            }
            let res = self.datasets[i].metadata().resolution;
            if suits(res, height_px, vertical_angle_urad) {
                break;
            }
            i -= 1;
        }
        i
    }

    /// The tile resolution the atlas will carve slots at for this
    /// angle: the selected dataset's resolution.
    pub fn tile_size_for_angle(&self, height_px: u32, vertical_angle_urad: u32) -> (r: u32)
        requires
            self.wf(),
            self.datasets@.len() >= 1,
            vertical_angle_urad <= 10000000,
        ensures
            r == self.datasets@[spec_pick(
                self.datasets@,
                height_px,
                vertical_angle_urad,
            )]@.metadata.resolution,
    {
        let pick = self.pick_dataset(height_px, vertical_angle_urad);
        self.datasets[pick].metadata().resolution as u32
    }

    /// Whether the next frame will switch level of detail and so clear
    /// the residency table.
    pub fn needs_clear(&self, height_px: u32, vertical_angle_urad: u32) -> (r: bool)
        requires
            self.datasets@.len() >= 1,
            vertical_angle_urad <= 10000000,
        ensures
            r == (spec_pick(self.datasets@, height_px, vertical_angle_urad)
                != self.curr_dataset as int),
    {
        let pick = self.pick_dataset(height_px, vertical_angle_urad);
        pick != self.curr_dataset
    }

    /// Switches to a dataset: resets the atlas allocator to that
    /// dataset's tile resolution and marks every cell unloaded.
    fn switch_to(&mut self, pick: usize)
        requires
            old(self).wf(),
            pick < old(self).datasets@.len(),
        ensures
            final(self).wf(),
            final(self).datasets@ == old(self).datasets@,
            final(self).curr_dataset == pick,
            final(self).atlas.width == old(self).atlas.width,
            final(self).atlas.height == old(self).atlas.height,
            final(self).atlas.max_dim == old(self).atlas.max_dim,
            final(self).atlas.collected_tiles@.len() == 0,
            forall|i: int|
                0 <= i < CELL_COUNT ==> final(self).tiles@[i] == spec_unloaded(final(self).atlas),
    {
        let res = self.datasets[pick].metadata().resolution;
        self.atlas.clear(res as u32);
        self.curr_dataset = pick;
        let unl = self.atlas.unloaded();
        let mut i: usize = 0;
        while i < CELL_COUNT
            invariant
                old(self).wf(),
                self.datasets@ == old(self).datasets@,
                self.curr_dataset == pick,
                self.atlas.wf(),
                self.atlas.width == old(self).atlas.width,
                self.atlas.height == old(self).atlas.height,
                self.atlas.max_dim == old(self).atlas.max_dim,
                self.atlas.collected_tiles@.len() == 0,
                unl == spec_unloaded(self.atlas),
                self.tiles@.len() == CELL_COUNT,
                i <= CELL_COUNT,
                forall|k: int| 0 <= k < i ==> self.tiles@[k] == unl,
            decreases CELL_COUNT - i,
        {
            self.tiles.set(i, unl);
            i += 1;
        }
    }

    /// Frees the slot of every unused resident cell past `start`;
    /// succeeds exactly when that freed at least one slot more than
    /// the cells past `start` still waiting for one, the caller's own
    /// demand included. On success the free list is non-empty.
    fn collect_tiles(&mut self, used: &Vec<u32>, start: usize) -> (r: bool)
        requires
            old(self).wf(),
            used@.len() == CELL_COUNT,
            start < CELL_COUNT,
            old(self).atlas.collected_tiles@.len() == 0,
        ensures
            final(self).wf(),
            final(self).datasets@ == old(self).datasets@,
            final(self).curr_dataset == old(self).curr_dataset,
            final(self).atlas.width == old(self).atlas.width,
            final(self).atlas.height == old(self).atlas.height,
            final(self).atlas.max_dim == old(self).atlas.max_dim,
            final(self).atlas.tile_res == old(self).atlas.tile_res,
            final(self).atlas.curr_offset == old(self).atlas.curr_offset,
            final(self).tiles@.len() == CELL_COUNT,
            forall|j: int|
                0 <= j < CELL_COUNT ==> #[trigger] final(self).tiles@[j] == old(self).tiles@[j]
                    || (used@[j] == 0 && j > start && is_real(
                    final(self).atlas,
                    old(self).tiles@[j],
                ) && final(self).tiles@[j] == spec_unloaded(final(self).atlas)),
            forall|j: int|
                start < j < CELL_COUNT && used@[j] == 0 && is_real(
                    final(self).atlas,
                    #[trigger] old(self).tiles@[j],
                ) ==> final(self).tiles@[j] == spec_unloaded(final(self).atlas),
            r == (count_evictable(
                used@,
                old(self).tiles@,
                old(self).atlas,
                start + 1,
                CELL_COUNT as int,
            ) >= 1 + count_pending(
                used@,
                old(self).tiles@,
                old(self).atlas,
                start + 1,
                CELL_COUNT as int,
            )),
            r ==> final(self).atlas.collected_tiles@.len() >= 1,
    {
        let mut needed: usize = 1;
        let mut collected: usize = 0;
        let unl = self.atlas.unloaded();
        let nf = self.atlas.not_found();
        let mut j: usize = start + 1;
        while j < CELL_COUNT
            invariant
                old(self).wf(),
                used@.len() == CELL_COUNT,
                start < j <= CELL_COUNT,
                self.datasets@ == old(self).datasets@,
                self.curr_dataset == old(self).curr_dataset,
                self.atlas.wf(),
                self.atlas.width == old(self).atlas.width,
                self.atlas.height == old(self).atlas.height,
                self.atlas.max_dim == old(self).atlas.max_dim,
                self.atlas.tile_res == old(self).atlas.tile_res,
                self.atlas.curr_offset == old(self).atlas.curr_offset,
                unl == spec_unloaded(self.atlas),
                nf == spec_not_found(self.atlas),
                self.tiles@.len() == CELL_COUNT,
                collected <= j,
                1 <= needed <= j + 1,
                self.atlas.collected_tiles@.len() == collected,
                forall|c: int|
                    0 <= c < self.atlas.collected_tiles@.len() ==> is_real(
                        self.atlas,
                        #[trigger] self.atlas.collected_tiles@[c],
                    ),
                collected == count_evictable(
                    used@,
                    old(self).tiles@,
                    old(self).atlas,
                    start + 1,
                    j as int,
                ),
                needed == 1 + count_pending(
                    used@,
                    old(self).tiles@,
                    old(self).atlas,
                    start + 1,
                    j as int,
                ),
                forall|k: int|
                    0 <= k < CELL_COUNT ==> #[trigger] self.tiles@[k] == old(self).tiles@[k] || (
                    used@[k] == 0 && start < k < j && is_real(self.atlas, old(self).tiles@[k])
                        && self.tiles@[k] == spec_unloaded(self.atlas)),
                forall|k: int|
                    start < k < j && used@[k] == 0 && is_real(
                        self.atlas,
                        #[trigger] old(self).tiles@[k],
                    ) ==> self.tiles@[k] == spec_unloaded(self.atlas),
            decreases CELL_COUNT - j,
        {
            let u = used[j];
            let t = self.tiles[j];
            proof {
                assert(t == old(self).tiles@[j as int]);
                assert(spec_unloaded(old(self).atlas) == spec_unloaded(self.atlas));
                assert(is_real(old(self).atlas, t) == is_real(self.atlas, t));
            }
            if u != 0 && t == unl {
                needed += 1;
            } else if u == 0 && t != unl && t != nf {
                self.atlas.return_tile(t);
                self.tiles.set(j, unl);
                collected += 1;
            }
            j += 1;
        }
        collected >= needed
    }


    /// Obtains a slot for an admission at cell `start`: straight from
    /// the allocator, else by first evicting the slots of unused cells
    /// past `start`. A handed-out slot is never a sentinel.
    fn acquire_slot(&mut self, used: &Vec<u32>, start: usize) -> (r: Option<TileOffset>)
        requires
            old(self).wf(),
            used@.len() == CELL_COUNT,
            start < CELL_COUNT,
        ensures
            final(self).wf(),
            final(self).datasets@ == old(self).datasets@,
            final(self).curr_dataset == old(self).curr_dataset,
            final(self).atlas.width == old(self).atlas.width,
            final(self).atlas.height == old(self).atlas.height,
            final(self).atlas.max_dim == old(self).atlas.max_dim,
            final(self).atlas.tile_res == old(self).atlas.tile_res,
            final(self).tiles@.len() == CELL_COUNT,
            forall|j: int|
                0 <= j < CELL_COUNT ==> #[trigger] final(self).tiles@[j] == old(self).tiles@[j]
                    || (used@[j] == 0 && j > start && is_real(
                    final(self).atlas,
                    old(self).tiles@[j],
                ) && final(self).tiles@[j] == spec_unloaded(final(self).atlas)),
            r matches Some(t) ==> is_real(final(self).atlas, t),
    {
        let first = self.atlas.alloc_slot();
        match first {
            Some(s) => {
                proof {
                    assert(is_real(self.atlas, s));
                }
                Some(s)
            },
            None => {
                if self.collect_tiles(used, start) {
                    let ghost mid = *self;
                    let second = self.atlas.alloc_slot();
                    match second {
                        Some(s) => {
                            proof {
                                assert(is_real(mid.atlas, s));
                                assert(is_real(self.atlas, s));
                            }
                            Some(s)
                        },
                        None => None,
                    }
                } else {
                    None
                }
            },
        }
    }

    /// One driver frame: reconcile the rasteriser's used-cell mask
    /// against the residency table. Frees the slot of every unused
    /// cell; admits a tile for every used cell that has none, evicting
    /// unused slots under pressure; grows the atlas when the working
    /// set no longer fits.
    ///
    /// Driver steady state: when the selected level of detail is
    /// unchanged and the mask asks nothing new (every used cell is
    /// already resident or known missing, every unused cell holds no
    /// slot), the frame changes nothing, uploads nothing, and reports
    /// `NoUploads` -- so a stable mask is stable from its second frame
    /// on.
    pub fn populate_tiles(&mut self, used: &Vec<u32>, height_px: u32, vertical_angle_urad: u32)
        -> (r: (UploadStatus, Vec<TileUpload>))
        requires
            old(self).wf(),
            old(self).datasets@.len() >= 1,
            used@.len() == CELL_COUNT,
            vertical_angle_urad <= 10000000,
        ensures
            final(self).wf(),
            final(self).datasets@ == old(self).datasets@,
            final(self).curr_dataset as int == spec_pick(
                old(self).datasets@,
                height_px,
                vertical_angle_urad,
            ),
            r.0 == UploadStatus::Resized ==> r.1@.len() == 0 && forall|i: int|
                0 <= i < CELL_COUNT ==> final(self).tiles@[i] == spec_unloaded(final(self).atlas),
            r.0 == UploadStatus::Resized ==> !(old(self).atlas.width == old(self).atlas.max_dim
                && old(self).atlas.height == old(self).atlas.max_dim) && final(self).atlas.width
                == (if 2 * old(self).atlas.width as int <= old(self).atlas.max_dim as int {
                (2 * old(self).atlas.width) as u32
            } else {
                old(self).atlas.max_dim
            }) && final(self).atlas.height == (if 2 * old(self).atlas.height as int <= old(self).atlas.max_dim as int {
                (2 * old(self).atlas.height) as u32
            } else {
                old(self).atlas.max_dim
            }),
            r.0 == UploadStatus::AtlasFull ==> final(self).atlas.width == final(self).atlas.max_dim && final(self).atlas.height == final(self).atlas.max_dim,
            r.0 == UploadStatus::AtlasFull ==> ({
                let switched = spec_pick(old(self).datasets@, height_px, vertical_angle_urad)
                    != old(self).curr_dataset as int;
                &&& final(self).atlas.width == old(self).atlas.width
                &&& final(self).atlas.height == old(self).atlas.height
                &&& forall|i: int|
                    0 <= i < CELL_COUNT ==> {
                        let base = if switched {
                            spec_unloaded(final(self).atlas)
                        } else {
                            old(self).tiles@[i]
                        };
                        &&& (used@[i] != 0 && base != spec_unloaded(final(self).atlas)
                            ==> #[trigger] final(self).tiles@[i] == base)
                        &&& (used@[i] == 0 && !is_real(final(self).atlas, base) ==> final(self).tiles@[i] == base)
                        &&& (used@[i] == 0 ==> !is_real(final(self).atlas, final(self).tiles@[i])
                            || final(self).tiles@[i] == base)
                    }
            }),
            r.0 == UploadStatus::NoUploads ==> r.1@.len() == 0,
            (r.0 == UploadStatus::Uploads || r.0 == UploadStatus::NoUploads) ==> ({
                let switched = spec_pick(old(self).datasets@, height_px, vertical_angle_urad)
                    != old(self).curr_dataset as int;
                &&& final(self).atlas.width == old(self).atlas.width
                &&& final(self).atlas.height == old(self).atlas.height
                &&& (r.0 == UploadStatus::Uploads <==> (if switched {
                    exists|k: int| 0 <= k < CELL_COUNT && (#[trigger] used@[k]) != 0
                } else {
                    exists|k: int|
                        0 <= k < CELL_COUNT && (#[trigger] used@[k]) != 0 && old(self).tiles@[k]
                            == spec_unloaded(old(self).atlas)
                }))
                &&& forall|i: int|
                    0 <= i < CELL_COUNT ==> {
                        let base = if switched {
                            spec_unloaded(final(self).atlas)
                        } else {
                            old(self).tiles@[i]
                        };
                        &&& (used@[i] == 0 ==> !is_real(
                            final(self).atlas,
                            #[trigger] final(self).tiles@[i],
                        ))
                        &&& (used@[i] == 0 && !is_real(final(self).atlas, base) ==> final(self).tiles@[i] == base)
                        &&& (used@[i] != 0 && base != spec_unloaded(final(self).atlas) ==> final(self).tiles@[i] == base)
                        &&& (used@[i] != 0 && base == spec_unloaded(final(self).atlas)
                            ==> admission_settled(
                            old(self).datasets@[spec_pick(
                                old(self).datasets@,
                                height_px,
                                vertical_angle_urad,
                            )]@,
                            final(self).atlas,
                            final(self).tiles@,
                            r.1@,
                            i,
                        ))
                    }
            }),
            (spec_pick(old(self).datasets@, height_px, vertical_angle_urad) == old(self).curr_dataset as int && (forall|i: int|
                0 <= i < CELL_COUNT ==> (used@[i] != 0 ==> #[trigger] old(self).tiles@[i]
                    != spec_unloaded(old(self).atlas)) && (used@[i] == 0 ==> !is_real(
                    old(self).atlas,
                    old(self).tiles@[i],
                )))) ==> r.0 == UploadStatus::NoUploads && r.1@.len() == 0 && final(self).tiles@
                == old(self).tiles@ && final(self).atlas == old(self).atlas,
    {
        let pick = self.pick_dataset(height_px, vertical_angle_urad);
        let switched = pick != self.curr_dataset;
        if switched {
            self.switch_to(pick);
        }
        let ghost base_tiles = self.tiles@;
        let ghost base_atlas = self.atlas;
        proof {
            if switched {
                assert(base_tiles =~= Seq::new(
                    CELL_COUNT as nat,
                    |k: int| spec_unloaded(base_atlas),
                ));
            }
        }
        let mut uploads: Vec<TileUpload> = Vec::new();
        let mut any_request = false;
        let mut any_change = false;
        let mut i: usize = 0;
        while i < CELL_COUNT
            invariant
                used@.len() == CELL_COUNT,
                self.wf(),
                self.datasets@ == old(self).datasets@,
                self.datasets@.len() >= 1,
                self.curr_dataset == (if switched {
                    spec_pick(old(self).datasets@, height_px, vertical_angle_urad)
                } else {
                    old(self).curr_dataset as int
                }),
                self.curr_dataset < self.datasets@.len(),
                pick as int == spec_pick(old(self).datasets@, height_px, vertical_angle_urad),
                switched == (pick as int != old(self).curr_dataset as int),
                switched ==> base_tiles == Seq::new(CELL_COUNT as nat, |k: int| spec_unloaded(base_atlas)),
                !switched ==> base_tiles == old(self).tiles@ && base_atlas == old(self).atlas,
                self.atlas.width == base_atlas.width,
                self.atlas.height == base_atlas.height,
                self.atlas.max_dim == base_atlas.max_dim,
                self.atlas.tile_res == base_atlas.tile_res,
                base_atlas.width == old(self).atlas.width,
                base_atlas.height == old(self).atlas.height,
                base_atlas.max_dim == old(self).atlas.max_dim,
                self.curr_dataset == pick,
                base_atlas.wf(),
                i <= CELL_COUNT,
                self.tiles@.len() == CELL_COUNT,
                base_tiles.len() == CELL_COUNT,
                // processed cells satisfy the per-cell outcome
                forall|k: int|
                    0 <= k < i ==> {
                        &&& (used@[k] == 0 ==> !is_real(self.atlas, #[trigger] self.tiles@[k]))
                        &&& (used@[k] == 0 && !is_real(self.atlas, base_tiles[k])
                            ==> self.tiles@[k] == base_tiles[k])
                        &&& (used@[k] != 0 && base_tiles[k] != spec_unloaded(self.atlas)
                            ==> self.tiles@[k] == base_tiles[k])
                    },
                // unprocessed cells hold their base value, or were
                // evicted early
                forall|k: int|
                    i <= k < CELL_COUNT ==> #[trigger] self.tiles@[k] == base_tiles[k] || (
                    used@[k] == 0 && is_real(self.atlas, base_tiles[k]) && self.tiles@[k]
                        == spec_unloaded(self.atlas)),
                // every settled admission among the processed cells
                forall|k: int|
                    0 <= k < i && used@[k] != 0 && base_tiles[k] == spec_unloaded(base_atlas)
                        ==> #[trigger] admission_settled(
                        old(self).datasets@[pick as int]@,
                        self.atlas,
                        self.tiles@,
                        uploads@,
                        k,
                    ),
                // uploads name used, resident, already-processed cells
                forall|j: int|
                    0 <= j < uploads@.len() ==> (#[trigger] uploads@[j].index as int) < i
                        && used@[uploads@[j].index as int] != 0 && self.tiles@[uploads@[j].index
                        as int] == uploads@[j].slot,
                !any_request ==> uploads@.len() == 0,
                // until something was asked or changed, nothing moved
                !any_request && !any_change ==> self.tiles@ == base_tiles && self.atlas
                    == base_atlas,
                any_request <==> exists|k: int|
                    0 <= k < i && used@[k] != 0 && #[trigger] base_tiles[k] == spec_unloaded(
                        base_atlas,
                    ),
                any_change ==> exists|k: int|
                    0 <= k < CELL_COUNT && used@[k] == 0 && is_real(
                        base_atlas,
                        #[trigger] base_tiles[k],
                    ),
            decreases CELL_COUNT - i,
        {
            let ghost tiles_at = self.tiles@;
            let ghost atlas_at = self.atlas;
            let ghost ups_at = uploads@;
            let u = used[i];
            let t = self.tiles[i];
            let unl = self.atlas.unloaded();
            let nf = self.atlas.not_found();
            proof {
                assert(unl != nf);
            }
            if u == 0 {
                if t != unl && t != nf {
                    proof {
                        assert(is_real(base_atlas, base_tiles[i as int]));
                    }
                    self.atlas.return_tile(t);
                    self.tiles.set(i, unl);
                    any_change = true;
                }
            } else if t == unl {
                any_request = true;
                proof {
                    assert(base_tiles[i as int] == spec_unloaded(base_atlas));
                }
                let (lat, lon) = map_index_to_lat_lon(i);
                let tile = self.datasets[self.curr_dataset].get_tile(lat, lon);
                match tile {
                    None => {
                        self.tiles.set(i, nf);
                        proof {
                            assert(admission_settled(
                                old(self).datasets@[pick as int]@,
                                self.atlas,
                                self.tiles@,
                                uploads@,
                                i as int,
                            ));
                        }
                    },
                    Some(Err(_)) => {
                        proof {
                            assert(self.tiles@[i as int] == unl);
                            assert(admission_settled(
                                old(self).datasets@[pick as int]@,
                                self.atlas,
                                self.tiles@,
                                uploads@,
                                i as int,
                            ));
                        }
                    },
                    Some(Ok(heights)) => {
                        let ghost tiles_before = self.tiles@;
                        let ghost atlas_before = self.atlas;
                        let slot = self.acquire_slot(used, i);
                        proof {
                            assert forall|k: int| 0 <= k < i as int implies self.tiles@[k]
                                == tiles_before[k] by {
                                assert(self.tiles@[k] == tiles_before[k] || (used@[k] == 0 && k
                                    > i as int && self.tiles@[k] == spec_unloaded(self.atlas)));
                            }
                            assert forall|k: int|
                                i as int <= k < CELL_COUNT implies #[trigger] self.tiles@[k]
                                == base_tiles[k] || (used@[k] == 0 && is_real(
                                self.atlas,
                                base_tiles[k],
                            ) && self.tiles@[k] == spec_unloaded(self.atlas)) by {
                                assert(tiles_before[k] == base_tiles[k] || (used@[k] == 0
                                    && is_real(atlas_before, base_tiles[k]) && tiles_before[k]
                                    == spec_unloaded(atlas_before)));
                                assert(self.tiles@[k] == tiles_before[k] || (used@[k] == 0 && k
                                    > i as int && is_real(self.atlas, tiles_before[k])
                                    && self.tiles@[k] == spec_unloaded(self.atlas)));
                            }
                        }
                        match slot {
                            Some(s) => {
                                proof {
                                    assert(is_real(self.atlas, s));
                                }
                                let ghost hts = heights@;
                                self.tiles.set(i, s);
                                uploads.push(TileUpload { index: i, slot: s, heights });
                                proof {
                                    assert(uploads@[uploads@.len() - 1].index == i
                                        && uploads@[uploads@.len() - 1].slot == s
                                        && uploads@[uploads@.len() - 1].heights@ == hts);
                                    assert(admission_settled(
                                        old(self).datasets@[pick as int]@,
                                        self.atlas,
                                        self.tiles@,
                                        uploads@,
                                        i as int,
                                    ));
                                }
                            },
                            None => {
                                let grew = self.atlas.try_grow();
                                if grew {
                                    let ghost grown = self.atlas;
                                    proof {
                                        assert(!(old(self).atlas.width == old(
                                            self,
                                        ).atlas.max_dim && old(self).atlas.height == old(
                                            self,
                                        ).atlas.max_dim));
                                        assert(grown.width == (if 2 * old(
                                            self,
                                        ).atlas.width as int <= old(self).atlas.max_dim as int {
                                            (2 * old(self).atlas.width) as u32
                                        } else {
                                            old(self).atlas.max_dim
                                        }));
                                        assert(grown.height == (if 2 * old(
                                            self,
                                        ).atlas.height as int <= old(
                                            self,
                                        ).atlas.max_dim as int {
                                            (2 * old(self).atlas.height) as u32
                                        } else {
                                            old(self).atlas.max_dim
                                        }));
                                    }
                                    let unl2 = self.atlas.unloaded();
                                    let mut k: usize = 0;
                                    while k < CELL_COUNT
                                        invariant
                                            self.tiles@.len() == CELL_COUNT,
                                            k <= CELL_COUNT,
                                            self.wf(),
                                            self.atlas == grown,
                                            self.datasets@ == old(self).datasets@,
                                            self.curr_dataset == (if switched {
                                                spec_pick(
                                                    old(self).datasets@,
                                                    height_px,
                                                    vertical_angle_urad,
                                                )
                                            } else {
                                                old(self).curr_dataset as int
                                            }),
                                            unl2 == spec_unloaded(self.atlas),
                                            forall|m: int|
                                                0 <= m < k ==> self.tiles@[m] == unl2,
                                        decreases CELL_COUNT - k,
                                    {
                                        self.tiles.set(k, unl2);
                                        k += 1;
                                    }
                                    proof {
                                        lemma_request_breaks_steady_state(
                                            switched,
                                            pick as int,
                                            old(self).curr_dataset as int,
                                            base_tiles,
                                            base_atlas,
                                            old(self).tiles@,
                                            old(self).atlas,
                                            used@,
                                            i as int,
                                        );
                                    }
                                    return (UploadStatus::Resized, Vec::new());
                                } else {
                                    proof {
                                        lemma_request_breaks_steady_state(
                                            switched,
                                            pick as int,
                                            old(self).curr_dataset as int,
                                            base_tiles,
                                            base_atlas,
                                            old(self).tiles@,
                                            old(self).atlas,
                                            used@,
                                            i as int,
                                        );
                                    }
                                    return (UploadStatus::AtlasFull, uploads);
                                }
                            },
                        }
                    },
                }
            }
            proof {
                assert forall|k: int|
                    0 <= k < i && used@[k] != 0 && base_tiles[k] == spec_unloaded(base_atlas)
                        implies #[trigger] admission_settled(
                        old(self).datasets@[pick as int]@,
                        self.atlas,
                        self.tiles@,
                        uploads@,
                        k,
                    ) by {
                    assert(admission_settled(
                        old(self).datasets@[pick as int]@,
                        atlas_at,
                        tiles_at,
                        ups_at,
                        k,
                    ));
                    assert(self.tiles@[k] == tiles_at[k]);
                    lemma_settled_stable(
                        old(self).datasets@[pick as int]@,
                        atlas_at,
                        self.atlas,
                        tiles_at,
                        self.tiles@,
                        ups_at,
                        uploads@,
                        k,
                    );
                }
            }
            i += 1;
        }
        let status = if any_request {
            UploadStatus::Uploads
        } else {
            UploadStatus::NoUploads
        };
        proof {
            assert(spec_unloaded(self.atlas) == spec_unloaded(base_atlas));
            assert(spec_not_found(self.atlas) == spec_not_found(base_atlas));
            if switched {
                assert forall|c: int| 0 <= c < CELL_COUNT implies #[trigger] base_tiles[c]
                    == spec_unloaded(base_atlas) by {}
                if exists|k: int| 0 <= k < CELL_COUNT && (#[trigger] used@[k]) != 0 {
                    let k = choose|k: int| 0 <= k < CELL_COUNT && (#[trigger] used@[k]) != 0;
                    assert(base_tiles[k] == spec_unloaded(base_atlas));
                    assert(any_request);
                }
            } else {
                assert(base_tiles == old(self).tiles@ && base_atlas == old(self).atlas);
                if exists|k: int|
                    0 <= k < CELL_COUNT && (#[trigger] used@[k]) != 0 && old(self).tiles@[k]
                        == spec_unloaded(old(self).atlas) {
                    let k = choose|k: int|
                        0 <= k < CELL_COUNT && (#[trigger] used@[k]) != 0 && old(self).tiles@[k]
                            == spec_unloaded(old(self).atlas);
                    assert(base_tiles[k] == spec_unloaded(base_atlas));
                    assert(any_request);
                }
            }
            if pick as int == old(self).curr_dataset as int {
                if any_request {
                    let k = choose|k: int|
                        0 <= k < CELL_COUNT && used@[k] != 0 && #[trigger] base_tiles[k]
                            == spec_unloaded(base_atlas);
                    assert(used@[k] != 0 && old(self).tiles@[k] == spec_unloaded(
                        old(self).atlas,
                    ));
                }
                if any_change {
                    let k = choose|k: int|
                        0 <= k < CELL_COUNT && used@[k] == 0 && is_real(
                            base_atlas,
                            #[trigger] base_tiles[k],
                        );
                    assert(used@[k] == 0 && is_real(old(self).atlas, old(self).tiles@[k]));
                }
            }
        }
        (status, uploads)
    }
}

} // verus!

//! Palette packing of residual grids.
//!
//! A residual grid leaves this stage as one of four byte shapes, told
//! apart by length alone: a two-byte-per-pixel raw form holding each
//! value less a stored minimum; a one-byte-per-pixel raw form holding
//! the first pixel verbatim and every other non-water value as
//! `value - min + 1`, with 0 reserved for water; and two palette forms
//! holding the sorted distinct values as a chain of deltas (one or two
//! bytes each), the first pixel verbatim, and one palette index byte
//! per remaining pixel.

use vstd::prelude::*;

use crate::error::TileError;
use crate::predict::grid_dims_ok;
use crate::wrap::{lemma_wrap16_add_noop, lemma_wrap16_small, wadd, wrap16, wsub};
use vstd::arithmetic::div_mod::lemma_fundamental_div_mod;
use vstd::pervasive::VecAdditionalExecFns;

verus! {

/// The 16-bit little-endian value stored at byte offset i.
pub open spec fn le16(d: Seq<u8>, i: int) -> u16 {
    (d[i] + 256 * d[i + 1]) as u16
}

/// Palette entry j, reconstructed as a chain of deltas from the first
/// entry; `wide` selects two-byte deltas.
pub open spec fn pal_entry(d: Seq<u8>, wide: bool, j: int) -> u16
    decreases j,
{
    if j <= 0 {
        le16(d, 1)
    } else if wide {
        wrap16(pal_entry(d, wide, j - 1) + le16(d, 2 * j + 1) + 1)
    } else {
        wrap16(pal_entry(d, wide, j - 1) + d[j + 2] + 1)
    }
}

/// Every index byte points inside the palette.
pub open spec fn palette_indices_ok(d: Seq<u8>, n: int, end: int, plen: int) -> bool {
    forall|i: int| 1 <= i < n ==> #[trigger] d[end + 1 + i] < plen
}

/// The grid held by a palette-form payload: the first pixel verbatim
/// at `end`, then one palette index byte per pixel.
pub open spec fn pal_values(d: Seq<u8>, n: int, end: int, wide: bool) -> Seq<u16> {
    Seq::new(
        n as nat,
        |i: int|
            if i == 0 {
                le16(d, end)
            } else {
                pal_entry(d, wide, d[end + 1 + i] as int)
            },
    )
}

/// What a payload of the palette stage decodes to. The shape is told
/// from the length: two-byte raw, one-byte raw, then the palette forms.
pub open spec fn unpalette_spec(d: Seq<u8>, res: int) -> Result<Seq<u16>, TileError> {
    let n = res * res;
    if d.len() == 2 * n + 2 {
        Ok(Seq::new(n as nat, |i: int| wrap16(le16(d, 2 + 2 * i) + le16(d, 0))))
    } else if d.len() == n + 3 {
        Ok(
            Seq::new(
                n as nat,
                |i: int|
                    if i == 0 {
                        le16(d, 2)
                    } else if d[3 + i] == 0 {
                        0u16
                    } else {
                        wrap16(d[3 + i] - 1 + le16(d, 0))
                    },
            ),
        )
    } else if d.len() < 1 {
        Err(TileError::CorruptFrame)
    } else {
        let plen = d[0] + 1;
        if d.len() == n + 2 + 2 * plen {
            if palette_indices_ok(d, n, 2 * plen + 1, plen) {
                Ok(pal_values(d, n, 2 * plen + 1, true))
            } else {
                Err(TileError::CorruptPalette)
            }
        } else if d.len() == n + 3 + plen {
            if palette_indices_ok(d, n, plen + 2, plen) {
                Ok(pal_values(d, n, plen + 2, false))
            } else {
                Err(TileError::CorruptPalette)
            }
        } else {
            Err(TileError::CorruptFrame)
        }
    }
}

/// Reads the 16-bit little-endian value at byte offset i.
pub fn read_le16(d: &Vec<u8>, i: usize) -> (r: u16)
    requires
        i + 1 < d@.len(),
    ensures
        r == le16(d@, i as int),
{
    let l = d.len();
    let lo = d[i];
    let hi = d[i + 1];
    (lo as u16) + 256 * (hi as u16)
}

/// Appends a 16-bit value in little-endian order.
pub fn push_le16(out: &mut Vec<u8>, v: u16)
    ensures
        final(out)@.len() == old(out)@.len() + 2,
        final(out)@ == old(out)@ + seq![(v as int % 256) as u8, (v as int / 256) as u8],
        le16(final(out)@, old(out)@.len() as int) == v,
{
    proof {
        lemma_fundamental_div_mod(v as int, 256);
    }
    out.push((v % 256) as u8);
    out.push((v / 256) as u8);
}

/// Undoes the palette stage: recovers the residual grid from a
/// payload, or reports how the payload is malformed.
pub fn unpalette(d: &Vec<u8>, res: usize) -> (r: Result<Vec<u16>, TileError>)
    requires
        2 <= res,
        res * res + res * res + 2 <= usize::MAX,
    ensures
        match r {
            Ok(q) => unpalette_spec(d@, res as int) == Ok::<Seq<u16>, TileError>(q@),
            Err(e) => unpalette_spec(d@, res as int) == Err::<Seq<u16>, TileError>(e),
        },
{
    let n: usize = res * res;
    let len = d.len();
    proof {
        vstd::arithmetic::mul::lemma_mul_inequality(2, res as int, res as int);
        assert(4 <= n);
    }
    if len == 2 * n + 2 {
        let min = read_le16(d, 0);
        let mut out: Vec<u16> = Vec::new();
        let mut i: usize = 0;
        while i < n
            invariant
                n == res * res,
                2 * n + 2 == d@.len(),
                2 * n + 2 <= usize::MAX,
                i <= n,
                out@.len() == i,
                min == le16(d@, 0),
                forall|k: int|
                    0 <= k < i ==> out@[k] == wrap16(le16(d@, 2 + 2 * k) + le16(d@, 0)),
            decreases n - i,
        {
            let v = read_le16(d, 2 + 2 * i);
            out.push(wadd(v, min));
            i += 1;
        }
        proof {
            let s = unpalette_spec(d@, res as int)->Ok_0;
            assert(out@ =~= s);
        }
        Ok(out)
    } else if len == n + 3 {
        let min = read_le16(d, 0);
        let first = read_le16(d, 2);
        let mut out: Vec<u16> = Vec::new();
        out.push(first);
        let mut i: usize = 1;
        while i < n
            invariant
                n == res * res,
                n + 3 == d@.len(),
                n + 3 <= usize::MAX,
                1 <= i <= n,
                out@.len() == i,
                min == le16(d@, 0),
                out@[0] == le16(d@, 2),
                forall|k: int|
                    1 <= k < i ==> out@[k] == (if d@[3 + k] == 0 {
                        0u16
                    } else {
                        wrap16(d@[3 + k] - 1 + le16(d@, 0))
                    }),
            decreases n - i,
        {
            let b = d[3 + i];
            let v: u16 = if b == 0 {
                0u16
            } else {
                wadd((b - 1) as u16, min)
            };
            proof {
                if b != 0 {
                    assert(v == wrap16(d@[3 + i as int] - 1 + le16(d@, 0)));
                }
            }
            out.push(v);
            i += 1;
        }
        proof {
            let s = unpalette_spec(d@, res as int)->Ok_0;
            assert(out@ =~= s);
        }
        Ok(out)
    } else {
        if len < 1 {
            return Err(TileError::CorruptFrame);
        }
        let plen: usize = (d[0] as usize) + 1;
        let wide = len == n + 2 + 2 * plen;
        if !wide && len != n + 3 + plen {
            return Err(TileError::CorruptFrame);
        }
        // Rebuild the palette from its delta chain.
        let mut pal: Vec<u16> = Vec::new();
        pal.push(read_le16(d, 1));
        let mut j: usize = 1;
        while j < plen
            invariant
                d@.len() >= 1,
                d@.len() <= usize::MAX,
                d@.len() != 2 * n + 2,
                d@.len() != n + 3,
                plen == d@[0] + 1,
                n == res * res,
                wide ==> d@.len() == n + 2 + 2 * plen,
                !wide ==> d@.len() == n + 3 + plen,
                2 <= res,
                1 <= j <= plen,
                pal@.len() == j,
                forall|k: int| 0 <= k < j ==> pal@[k] == pal_entry(d@, wide, k),
            decreases plen - j,
        {
            let delta: u16 = if wide {
                read_le16(d, 2 * j + 1)
            } else {
                d[j + 2] as u16
            };
            let prev = pal[j - 1];
            let e = wadd(wadd(prev, delta), 1);
            proof {
                lemma_wrap16_add_noop(1, prev + delta);
                assert(e == wrap16(prev + delta + 1));
                assert(e == pal_entry(d@, wide, j as int));
            }
            pal.push(e);
            j += 1;
        }
        // First pixel verbatim, then one palette index per pixel.
        let end: usize = if wide {
            2 * plen + 1
        } else {
            plen + 2
        };
        let mut out: Vec<u16> = Vec::new();
        out.push(read_le16(d, end));
        let mut i: usize = 1;
        while i < n
            invariant
                d@.len() >= 1,
                d@.len() <= usize::MAX,
                d@.len() != 2 * n + 2,
                d@.len() != n + 3,
                plen == d@[0] + 1,
                n == res * res,
                wide ==> d@.len() == n + 2 + 2 * plen,
                !wide ==> d@.len() == n + 3 + plen,
                end == (if wide {
                    2 * plen + 1
                } else {
                    plen + 2
                }),
                2 <= res,
                1 <= i <= n,
                out@.len() == i,
                pal@.len() == plen,
                forall|k: int| 0 <= k < plen ==> pal@[k] == pal_entry(d@, wide, k),
                out@[0] == le16(d@, end as int),
                forall|k: int| 1 <= k < i ==> #[trigger] d@[end + 1 + k] < plen,
                forall|k: int|
                    1 <= k < i ==> out@[k] == pal_entry(d@, wide, d@[end + 1 + k] as int),
            decreases n - i,
        {
            let idx = d[end + 1 + i] as usize;
            if idx >= plen {
                proof {
                    assert(!palette_indices_ok(
                        d@,
                        n as int,
                        end as int,
                        plen as int,
                    ));
                }
                return Err(TileError::CorruptPalette);
            }
            out.push(pal[idx]);
            i += 1;
        }
        proof {
            assert(palette_indices_ok(d@, n as int, end as int, plen as int));
            let s = pal_values(d@, n as int, end as int, wide);
            assert(out@ =~= s);
        }
        Ok(out)
    }
}


/// A value occurring anywhere past the first pixel.
pub open spec fn occurs(g: Seq<u16>, upto: int, v: int) -> bool {
    exists|k: int| 1 <= k < upto && g[k] == v
}

/// Rebuilding the delta chain of a stored sorted palette gives the
/// palette back.
proof fn lemma_pal_entries(d: Seq<u8>, pal: Seq<u16>, wide: bool, j: int)
    requires
        0 <= j < pal.len(),
        le16(d, 1) == pal[0],
        forall|a: int| 0 <= a < pal.len() - 1 ==> (#[trigger] pal[a]) < pal[a + 1],
        wide ==> forall|jj: int|
            1 <= jj < pal.len() ==> #[trigger] le16(d, 2 * jj + 1) == pal[jj] - pal[jj - 1] - 1,
        !wide ==> forall|jj: int|
            1 <= jj < pal.len() ==> #[trigger] d[jj + 2] == pal[jj] - pal[jj - 1] - 1,
    ensures
        pal_entry(d, wide, j) == pal[j],
    decreases j,
{
    if j > 0 {
        lemma_pal_entries(d, pal, wide, j - 1);
        assert((j - 1) + 1 == j);
        assert(pal[j - 1] < pal[(j - 1) + 1]);
        lemma_wrap16_small(pal[j] as int);
    }
}

/// Packs a residual grid into one of the palette-stage byte shapes.
/// Whatever shape is chosen, unpacking it restores the grid exactly.
pub fn palette(grid: &Vec<u16>, res: usize) -> (out: Vec<u8>)
    requires
        grid_dims_ok(grid@, res as int),
        res * res + res * res + 2 <= usize::MAX,
    ensures
        unpalette_spec(out@, res as int) == Ok::<Seq<u16>, TileError>(grid@),
{
    let ghost g = grid@;
    let n = grid.len();
    proof {
        vstd::arithmetic::mul::lemma_mul_inequality(2, res as int, res as int);
        assert(4 <= n);
    }
    // Mark every value that occurs past the first pixel.
    let mut seen: Vec<bool> = Vec::new();
    let mut k: usize = 0;
    while k < 65536
        invariant
            seen@.len() == k,
            k <= 65536,
            forall|v: int| 0 <= v < k ==> !seen@[v],
        decreases 65536 - k,
    {
        seen.push(false);
        k += 1;
    }
    let mut i: usize = 1;
    while i < n
        invariant
            g == grid@,
            n == g.len(),
            1 <= i <= n,
            seen@.len() == 65536,
            forall|v: int| 0 <= v < 65536 ==> (seen@[v] <==> occurs(g, i as int, v)),
        decreases n - i,
    {
        let v = grid[i];
        seen.set(v as usize, true);
        proof {
            assert(occurs(g, i as int + 1, v as int));
            assert forall|w: int| 0 <= w < 65536 implies (seen@[w] <==> occurs(
                g,
                i as int + 1,
                w,
            )) by {
                if w != v as int {
                    assert(occurs(g, i as int + 1, w) ==> occurs(g, i as int, w));
                }
            }
        }
        i += 1;
    }
    // Collect the distinct values in ascending order, remembering the
    // palette position of each.
    let mut pal: Vec<u16> = Vec::new();
    let mut idx_of: Vec<u16> = Vec::new();
    let mut k: usize = 0;
    while k < 65536
        invariant
            idx_of@.len() == k,
            k <= 65536,
        decreases 65536 - k,
    {
        idx_of.push(0);
        k += 1;
    }
    let mut val: usize = 0;
    while val < 65536
        invariant
            g == grid@,
            n == g.len(),
            seen@.len() == 65536,
            idx_of@.len() == 65536,
            val <= 65536,
            forall|v: int| 0 <= v < 65536 ==> (seen@[v] <==> occurs(g, n as int, v)),
            pal@.len() <= val,
            forall|a: int| 0 <= a < pal@.len() ==> pal@[a] < val,
            forall|a: int| 0 <= a < pal@.len() - 1 ==> (#[trigger] pal@[a]) < pal@[a + 1],
            forall|a: int| 0 <= a < pal@.len() ==> occurs(g, n as int, #[trigger] pal@[a] as int),
            forall|v: int|
                0 <= v < val && seen@[v] ==> #[trigger] idx_of@[v] < pal@.len()
                    && pal@[idx_of@[v] as int] == v,
        decreases 65536 - val,
    {
        if seen[val] {
            idx_of.set(val, pal.len() as u16);
            pal.push(val as u16);
        }
        val += 1;
    }
    let plen = pal.len();
    proof {
        assert(occurs(g, n as int, g[1] as int)) by {
            assert(1 <= 1 < n && g[1] == g[1]);
        }
        assert(seen@[g[1] as int]);
        assert(idx_of@[g[1] as int] < pal@.len());
        assert(plen >= 1);
    }
    // Pick the shape: palette with one- or two-byte deltas where the
    // distinct values fit, falling back to the raw forms.
    let mut gaps_small = true;
    let mut j: usize = 1;
    while j < plen
        invariant
            plen == pal@.len(),
            1 <= j <= plen,
            forall|a: int| 0 <= a < pal@.len() - 1 ==> (#[trigger] pal@[a]) < pal@[a + 1],
            gaps_small <==> (forall|a: int| 1 <= a < j ==> #[trigger] pal@[a] - pal@[a - 1] <= 256),
        decreases plen - j,
    {
        proof {
            assert(pal@[j - 1] < pal@[(j - 1) + 1]);
        }
        if pal[j] - pal[j - 1] > 256 {
            gaps_small = false;
        }
        j += 1;
    }
    let narrow = plen >= 2 && gaps_small;
    let pal_len_ok = if narrow {
        n + 3 + plen != 2 * n + 2
    } else {
        n + 2 + 2 * plen != 2 * n + 2
    };
    if plen <= 256 && pal_len_ok {
        emit_palette(grid, res, &pal, &idx_of, narrow)
    } else {
        emit_raw(grid, res)
    }
}


/// A 16-bit read below a preserved prefix is unchanged.
proof fn lemma_le16_stable(pre: Seq<u8>, post: Seq<u8>, i: int)
    requires
        0 <= i,
        i + 1 < pre.len(),
        pre.len() <= post.len(),
        forall|k: int| 0 <= k < pre.len() ==> post[k] == pre[k],
    ensures
        le16(post, i) == le16(pre, i),
{
}

/// Emits a palette-form payload; `narrow` selects one-byte deltas.
fn emit_palette(
    grid: &Vec<u16>,
    res: usize,
    pal: &Vec<u16>,
    idx_of: &Vec<u16>,
    narrow: bool,
) -> (out: Vec<u8>)
    requires
        grid_dims_ok(grid@, res as int),
        res * res + res * res + 2 <= usize::MAX,
        idx_of@.len() == 65536,
        1 <= pal@.len() <= 256,
        narrow ==> 2 <= pal@.len(),
        forall|a: int| 0 <= a < pal@.len() - 1 ==> (#[trigger] pal@[a]) < pal@[a + 1],
        narrow ==> forall|a: int| 1 <= a < pal@.len() ==> #[trigger] pal@[a] - pal@[a - 1] <= 256,
        forall|i: int|
            1 <= i < grid@.len() ==> #[trigger] idx_of@[grid@[i] as int] < pal@.len()
                && pal@[idx_of@[grid@[i] as int] as int] == grid@[i],
        narrow ==> grid@.len() + 3 + pal@.len() != 2 * grid@.len() + 2,
        !narrow ==> grid@.len() + 2 + 2 * pal@.len() != 2 * grid@.len() + 2,
    ensures
        unpalette_spec(out@, res as int) == Ok::<Seq<u16>, TileError>(grid@),
{
    let ghost g = grid@;
    let n = grid.len();
    proof {
        vstd::arithmetic::mul::lemma_mul_inequality(2, res as int, res as int);
        assert(4 <= n);
    }
    let plen = pal.len();
    let mut out: Vec<u8> = Vec::new();
    out.push((plen - 1) as u8);
    push_le16(&mut out, pal[0]);
    let mut j: usize = 1;
    while j < plen
        invariant
            plen == pal@.len(),
            1 <= plen <= 256,
            narrow ==> 2 <= plen,
            forall|a: int| 0 <= a < pal@.len() - 1 ==> (#[trigger] pal@[a]) < pal@[a + 1],
            narrow ==> forall|a: int| 1 <= a < pal@.len() ==> #[trigger] pal@[a] - pal@[a - 1] <= 256,
            1 <= j <= plen,
            narrow ==> out@.len() == 3 + (j - 1),
            !narrow ==> out@.len() == 3 + 2 * (j - 1),
            out@[0] == plen - 1,
            le16(out@, 1) == pal@[0],
            narrow ==> forall|jj: int|
                1 <= jj < j ==> #[trigger] out@[jj + 2] == pal@[jj] - pal@[jj - 1] - 1,
            !narrow ==> forall|jj: int|
                1 <= jj < j ==> #[trigger] le16(out@, 2 * jj + 1) == pal@[jj] - pal@[jj - 1]
                    - 1,
        decreases plen - j,
    {
        proof {
            assert(pal@[j - 1] < pal@[(j - 1) + 1]);
        }
        let ghost pre = out@;
        let gap_less_one = (pal[j] - pal[j - 1] - 1) as u32;
        if narrow {
            out.push(gap_less_one as u8);
        } else {
            push_le16(&mut out, gap_less_one as u16);
        }
        proof {
            assert forall|k: int| 0 <= k < pre.len() implies out@[k] == pre[k] by {}
            lemma_le16_stable(pre, out@, 1);
            if !narrow {
                assert forall|jj: int| 1 <= jj < j + 1 implies #[trigger] le16(out@, 2 * jj + 1)
                    == pal@[jj] - pal@[jj - 1] - 1 by {
                    if jj < j {
                        lemma_le16_stable(pre, out@, 2 * jj + 1);
                    } else {
                        assert(le16(out@, 2 * jj + 1) == gap_less_one);
                        assert(pal@[jj - 1] < pal@[(jj - 1) + 1]);
                    }
                }
            }
        }
        j += 1;
    }
    let ghost end_int: int = if narrow {
        plen as int + 2
    } else {
        2 * plen as int + 1
    };
    proof {
        if narrow {
            assert(out@.len() == plen + 2);
        } else {
            assert(out@.len() == 2 * plen + 1);
        }
    }
    let ghost pre_q0 = out@;
    push_le16(&mut out, grid[0]);
    proof {
        assert forall|k: int| 0 <= k < pre_q0.len() implies out@[k] == pre_q0[k] by {}
        lemma_le16_stable(pre_q0, out@, 1);
        if !narrow {
            assert forall|jj: int| 1 <= jj < plen implies #[trigger] le16(out@, 2 * jj + 1)
                == pal@[jj] - pal@[jj - 1] - 1 by {
                lemma_le16_stable(pre_q0, out@, 2 * jj + 1);
            }
        }
    }
    let mut i: usize = 1;
    while i < n
        invariant
            g == grid@,
            n == g.len(),
            grid_dims_ok(g, res as int),
            res * res + res * res + 2 <= usize::MAX,
            idx_of@.len() == 65536,
            plen == pal@.len(),
            1 <= plen <= 256,
            narrow ==> 2 <= plen,
            forall|a: int| 0 <= a < pal@.len() - 1 ==> (#[trigger] pal@[a]) < pal@[a + 1],
            narrow ==> forall|a: int| 1 <= a < pal@.len() ==> #[trigger] pal@[a] - pal@[a - 1] <= 256,
            forall|ii: int|
                1 <= ii < g.len() ==> #[trigger] idx_of@[g[ii] as int] < pal@.len()
                    && pal@[idx_of@[g[ii] as int] as int] == g[ii],
            end_int == (if narrow {
                plen as int + 2
            } else {
                2 * plen as int + 1
            }),
            1 <= i <= n,
            out@.len() == end_int + 2 + (i - 1),
            out@[0] == plen - 1,
            le16(out@, 1) == pal@[0],
            narrow ==> forall|jj: int|
                1 <= jj < plen ==> #[trigger] out@[jj + 2] == pal@[jj] - pal@[jj - 1] - 1,
            !narrow ==> forall|jj: int|
                1 <= jj < plen ==> #[trigger] le16(out@, 2 * jj + 1) == pal@[jj] - pal@[jj - 1]
                    - 1,
            le16(out@, end_int) == g[0],
            forall|k: int|
                1 <= k < i ==> #[trigger] out@[end_int + 1 + k] == idx_of@[g[k] as int]
                    && idx_of@[g[k] as int] < plen,
        decreases n - i,
    {
        let v = grid[i];
        let idx = idx_of[v as usize];
        let ghost pre = out@;
        out.push(idx as u8);
        proof {
            assert forall|k: int| 0 <= k < pre.len() implies out@[k] == pre[k] by {}
            lemma_le16_stable(pre, out@, 1);
            lemma_le16_stable(pre, out@, end_int);
            if !narrow {
                assert forall|jj: int| 1 <= jj < plen implies #[trigger] le16(out@, 2 * jj + 1)
                    == pal@[jj] - pal@[jj - 1] - 1 by {
                    lemma_le16_stable(pre, out@, 2 * jj + 1);
                }
            }
        }
        i += 1;
    }
    proof {
        let d = out@;
        let wide = !narrow;
        if narrow {
            assert(d.len() == n + 3 + plen);
            assert(d.len() != 2 * (res * res) + 2);
            assert(d.len() != res * res + 3);
            assert(d.len() != res * res + 2 + 2 * (d[0] + 1));
        } else {
            assert(d.len() == n + 2 + 2 * plen);
            assert(d.len() != 2 * (res * res) + 2);
            assert(d.len() != res * res + 3);
        }
        assert(d[0] + 1 == plen);
        assert(palette_indices_ok(d, n as int, end_int, plen as int));
        let vals = pal_values(d, n as int, end_int, wide);
        assert forall|k: int| 0 <= k < n implies vals[k] == g[k] by {
            if k > 0 {
                let idx = d[end_int + 1 + k] as int;
                assert(idx == idx_of@[g[k] as int]);
                lemma_pal_entries(d, pal@, wide, idx);
            }
        }
        assert(vals =~= g);
    }
    out
}

/// Emits a raw payload: one byte per pixel when every non-water value
/// sits within 255 of the minimum, else two bytes per pixel.
fn emit_raw(grid: &Vec<u16>, res: usize) -> (out: Vec<u8>)
    requires
        grid_dims_ok(grid@, res as int),
        res * res + res * res + 2 <= usize::MAX,
    ensures
        unpalette_spec(out@, res as int) == Ok::<Seq<u16>, TileError>(grid@),
{
    let ghost g = grid@;
    let n = grid.len();
    proof {
        vstd::arithmetic::mul::lemma_mul_inequality(2, res as int, res as int);
    }
    // The minimum and maximum over non-water values past pixel 0.
    let mut min: u16 = 0;
    let mut max: u16 = 0;
    let mut has_nz = false;
    let mut i: usize = 1;
    while i < n
        invariant
            g == grid@,
            n == g.len(),
            1 <= i <= n,
            !has_nz ==> min == 0 && max == 0 && forall|k: int| 1 <= k < i ==> g[k] == 0,
            has_nz ==> min <= max && forall|k: int|
                1 <= k < i && g[k] != 0 ==> min <= #[trigger] g[k] <= max,
        decreases n - i,
    {
        let v = grid[i];
        if v != 0 {
            if !has_nz {
                min = v;
                max = v;
                has_nz = true;
            } else {
                if v < min {
                    min = v;
                }
                if v > max {
                    max = v;
                }
            }
        }
        i += 1;
    }
    if !has_nz || max - min <= 254 {
        // One byte per pixel: 0 for water, value - min + 1 otherwise.
        let mut out: Vec<u8> = Vec::new();
        push_le16(&mut out, min);
        push_le16(&mut out, grid[0]);
        let mut i: usize = 1;
        while i < n
            invariant
                g == grid@,
                n == g.len(),
                2 * n + 2 <= usize::MAX,
                1 <= i <= n,
                out@.len() == 3 + i,
                le16(out@, 0) == min,
                le16(out@, 2) == g[0],
                forall|k: int| 1 <= k < n && g[k] != 0 ==> min <= #[trigger] g[k] <= min + 254,
                forall|k: int|
                    1 <= k < i ==> #[trigger] out@[3 + k] == (if g[k] == 0 {
                        0
                    } else {
                        g[k] - min + 1
                    }),
            decreases n - i,
        {
            let v = grid[i];
            let b: u8 = if v == 0 {
                0u8
            } else {
                (v - min + 1) as u8
            };
            out.push(b);
            i += 1;
        }
        proof {
            let d = out@;
            assert(d.len() == n + 3);
            assert(d.len() != 2 * (res * res) + 2);
            let vals = unpalette_spec(d, res as int)->Ok_0;
            assert forall|k: int| 0 <= k < n implies vals[k] == g[k] by {
                if k > 0 && g[k] != 0 {
                    lemma_wrap16_small(g[k] as int);
                }
            }
            assert(vals =~= g);
        }
        out
    } else {
        // Two bytes per pixel: each value less the minimum, wrapping.
        let mut out: Vec<u8> = Vec::new();
        push_le16(&mut out, min);
        let mut i: usize = 0;
        while i < n
            invariant
                g == grid@,
                n == g.len(),
                2 * n + 2 <= usize::MAX,
                i <= n,
                out@.len() == 2 + 2 * i,
                le16(out@, 0) == min,
                forall|k: int|
                    0 <= k < i ==> le16(out@, 2 + 2 * k) == wrap16(g[k] - min),
            decreases n - i,
        {
            let w = wsub(grid[i], min);
            push_le16(&mut out, w);
            i += 1;
        }
        proof {
            let d = out@;
            assert(d.len() == 2 * n + 2);
            let vals = unpalette_spec(d, res as int)->Ok_0;
            assert forall|k: int| 0 <= k < n implies vals[k] == g[k] by {
                lemma_wrap16_add_noop(min as int, g[k] - min);
                lemma_wrap16_small(g[k] as int);
            }
            assert(vals =~= g);
        }
        out
    }
}

} // verus!

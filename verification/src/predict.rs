//! Two-dimensional prediction of quantised grids.
//!
//! Each non-water cell stores, modulo 2^16, its difference from a
//! predictor computed out of already-decoded neighbours, biased by
//! 7000 so small differences sit well clear of zero. The bias is part
//! of the wire format. Water cells (quantum 0) pass through unchanged,
//! so a residual that lands on 0 would be indistinguishable from
//! water: encoding reports such a grid instead of corrupting it.
//!
//! The predictors, keyed by region of the grid:
//! cell (0,0) is stored raw; (1,0) and (0,1) predict from (0,0); the
//! rest of the first row and column predict linearly along their axis;
//! interior cells predict a plane from the left, top and top-left
//! neighbours.

use vstd::prelude::*;

use crate::error::TileError;
use crate::wrap::{lemma_wrap16_add_noop, lemma_wrap16_period, lemma_wrap16_small, wrap16};
use vstd::arithmetic::div_mod::{
    lemma_fundamental_div_mod, lemma_fundamental_div_mod_converse, lemma_multiply_divide_lt,
};
use vstd::arithmetic::mul::lemma_mul_inequality;
use vstd::pervasive::VecAdditionalExecFns;

verus! {

/// A grid of res x res cells in raster order (rows of constant y).
pub open spec fn grid_dims_ok(g: Seq<u16>, res: int) -> bool {
    2 <= res && g.len() == res * res
}

/// The value of cell (x, y).
pub open spec fn cell(g: Seq<u16>, res: int, x: int, y: int) -> u16 {
    g[y * res + x]
}

/// The predictor for a cell away from the origin, from true neighbour
/// values.
pub open spec fn predictor(g: Seq<u16>, res: int, x: int, y: int) -> int {
    if (x == 1 && y == 0) || (x == 0 && y == 1) {
        cell(g, res, 0, 0) as int
    } else if y == 0 {
        2 * cell(g, res, x - 1, 0) - cell(g, res, x - 2, 0)
    } else if x == 0 {
        2 * cell(g, res, 0, y - 1) - cell(g, res, 0, y - 2)
    } else {
        cell(g, res, x, y - 1) + cell(g, res, x - 1, y) - cell(g, res, x - 1, y - 1)
    }
}

/// The residual stored for cell (x, y).
pub open spec fn residual_cell(g: Seq<u16>, res: int, x: int, y: int) -> u16 {
    if x == 0 && y == 0 {
        cell(g, res, 0, 0)
    } else if cell(g, res, x, y) == 0 {
        0
    } else {
        wrap16(cell(g, res, x, y) - predictor(g, res, x, y) + 7000)
    }
}

/// The residual grid of g.
pub open spec fn predicted_grid(g: Seq<u16>, res: int) -> Seq<u16> {
    Seq::new(g.len(), |i: int| residual_cell(g, res, i % res, i / res))
}

/// No non-water cell's residual collides with the water sentinel.
pub open spec fn residuals_clear_water(g: Seq<u16>, res: int) -> bool {
    forall|x: int, y: int|
        0 <= x < res && 0 <= y < res && cell(g, res, x, y) != 0 ==> #[trigger] residual_cell(
            g,
            res,
            x,
            y,
        ) != 0
}

/// The decoded value of cell (x, y) of a residual grid, defined in the
/// decoder's forward order: each cell is recovered from residuals and
/// the already-recovered neighbours.
pub open spec fn up_cell(r: Seq<u16>, res: int, x: int, y: int) -> u16
    decreases x + y,
{
    if x < 0 || y < 0 {
        0
    } else if x == 0 && y == 0 {
        r[0]
    } else if r[y * res + x] == 0 {
        0
    } else if (x == 1 && y == 0) || (x == 0 && y == 1) {
        wrap16(up_cell(r, res, 0, 0) + r[y * res + x] - 7000)
    } else if y == 0 {
        wrap16(
            2 * up_cell(r, res, x - 1, 0) - up_cell(r, res, x - 2, 0) + r[y * res + x] - 7000,
        )
    } else if x == 0 {
        wrap16(
            2 * up_cell(r, res, 0, y - 1) - up_cell(r, res, 0, y - 2) + r[y * res + x] - 7000,
        )
    } else {
        wrap16(
            up_cell(r, res, x, y - 1) + up_cell(r, res, x - 1, y) - up_cell(r, res, x - 1, y - 1)
                + r[y * res + x] - 7000,
        )
    }
}

/// The whole decoded grid of a residual grid.
pub open spec fn unpredicted_grid(r: Seq<u16>, res: int) -> Seq<u16> {
    Seq::new(r.len(), |i: int| up_cell(r, res, i % res, i / res))
}

/// Raster index arithmetic for a cell within the grid.
pub proof fn lemma_cell_index(res: int, x: int, y: int)
    requires
        0 <= x < res,
        0 <= y < res,
    ensures
        0 <= y * res + x < res * res,
        (y * res + x) % res == x,
        (y * res + x) / res == y,
{
    lemma_fundamental_div_mod_converse(y * res + x, res, y, x);
    lemma_mul_inequality(y, res - 1, res);
    assert((res - 1) * res == res * res - res) by (nonlinear_arith);
    assert(0 <= y * res) by (nonlinear_arith)
        requires
            0 <= y,
            0 <= res,
    ;
    assert(y * res + x <= (res - 1) * res + (res - 1));
}

/// Every raster index splits into a cell coordinate pair.
pub proof fn lemma_locate(res: int, i: int)
    requires
        2 <= res,
        0 <= i,
    ensures
        (i / res) * res + (i % res) == i,
        0 <= i % res < res,
        0 <= i / res,
        i < res * res ==> i / res < res,
{
    lemma_fundamental_div_mod(i, res);
    vstd::arithmetic::div_mod::lemma_div_pos_is_pos(i, res);
    assert((i / res) * res == res * (i / res)) by (nonlinear_arith);
    if i < res * res {
        lemma_multiply_divide_lt(i, res, res);
    }
}

/// Applying a residual to its own predictor recovers the cell value.
proof fn lemma_resid_inverse(v: u16, pred: int)
    ensures
        wrap16(pred + wrap16(v - pred + 7000) - 7000) == v,
{
    lemma_wrap16_add_noop(pred - 7000, v - pred + 7000);
    lemma_wrap16_small(v as int);
}

/// Decoding the residual grid of g recovers cell (x, y) of g.
proof fn lemma_up_cell_inverts(g: Seq<u16>, res: int, x: int, y: int)
    requires
        grid_dims_ok(g, res),
        residuals_clear_water(g, res),
        0 <= x < res,
        0 <= y < res,
    ensures
        up_cell(predicted_grid(g, res), res, x, y) == cell(g, res, x, y),
    decreases x + y,
{
    let r = predicted_grid(g, res);
    lemma_cell_index(res, x, y);
    vstd::arithmetic::mul::lemma_mul_basics(res);
    assert(r[y * res + x] == residual_cell(g, res, x, y));
    let v = cell(g, res, x, y);
    if x == 0 && y == 0 {
        assert(up_cell(r, res, 0, 0) == r[0]);
    } else if v == 0 {
        assert(residual_cell(g, res, x, y) == 0);
        assert(up_cell(r, res, x, y) == 0);
    } else {
        assert(residual_cell(g, res, x, y) != 0);
        let pred = predictor(g, res, x, y);
        assert(r[y * res + x] == wrap16(v - pred + 7000));
        if (x == 1 && y == 0) || (x == 0 && y == 1) {
            lemma_up_cell_inverts(g, res, 0, 0);
            lemma_cell_index(res, 0, 0);
            lemma_resid_inverse(v, pred);
        } else if y == 0 {
            lemma_up_cell_inverts(g, res, x - 1, 0);
            lemma_up_cell_inverts(g, res, x - 2, 0);
            lemma_resid_inverse(v, pred);
        } else if x == 0 {
            lemma_up_cell_inverts(g, res, 0, y - 1);
            lemma_up_cell_inverts(g, res, 0, y - 2);
            lemma_resid_inverse(v, pred);
        } else {
            lemma_up_cell_inverts(g, res, x, y - 1);
            lemma_up_cell_inverts(g, res, x - 1, y);
            lemma_up_cell_inverts(g, res, x - 1, y - 1);
            lemma_resid_inverse(v, pred);
        }
    }
}

/// Prediction loses nothing: decoding the residual grid of g gives g
/// back, provided no residual collided with the water sentinel.
pub proof fn lemma_unpredict_inverts(g: Seq<u16>, res: int)
    requires
        grid_dims_ok(g, res),
        residuals_clear_water(g, res),
    ensures
        unpredicted_grid(predicted_grid(g, res), res) == g,
{
    let r = predicted_grid(g, res);
    let u = unpredicted_grid(r, res);
    assert forall|i: int| 0 <= i < g.len() implies u[i] == g[i] by {
        lemma_fundamental_div_mod(i, res);
        let x = i % res;
        let y = i / res;
        assert(y < res) by {
            lemma_multiply_divide_lt(i, res, res);
        }
        assert(0 <= y) by {
            vstd::arithmetic::div_mod::lemma_div_pos_is_pos(i, res);
        }
        lemma_cell_index(res, x, y);
        lemma_up_cell_inverts(g, res, x, y);
    }
    assert(u =~= g);
}

/// wrap16(base + out - 7000), the shared tail of every decode step.
fn delta_apply(base: u16, out: u16) -> (r: u16)
    ensures
        r == wrap16(base + out - 7000),
{
    proof {
        lemma_wrap16_period(base + out - 7000);
    }
    (((base as u32) + (out as u32) + (0x10000 - 7000)) % 0x10000) as u16
}

/// wrap16(2 * cur - prev + out - 7000): one linear decode step.
fn linear_apply(prev: u16, cur: u16, out: u16) -> (r: u16)
    ensures
        r == wrap16(2 * cur - prev + out - 7000),
{
    proof {
        lemma_wrap16_period(2 * cur - prev + out - 7000);
        lemma_wrap16_period(2 * cur - prev + out - 7000 + 0x10000);
    }
    ((2 * (cur as u32) + (out as u32) + (0x20000 - 7000) - (prev as u32)) % 0x10000) as u16
}

/// wrap16(top + left - tl + out - 7000): one plane decode step.
fn plane_apply(left: u16, top: u16, tl: u16, out: u16) -> (r: u16)
    ensures
        r == wrap16(top + left - tl + out - 7000),
{
    proof {
        lemma_wrap16_period(top + left - tl + out - 7000);
        lemma_wrap16_period(top + left - tl + out - 7000 + 0x10000);
    }
    (((top as u32) + (left as u32) + (out as u32) + (0x20000 - 7000) - (tl as u32)) % 0x10000)
        as u16
}

/// wrap16(v - base + 7000): residual against the origin cell.
fn resid_delta(v: u16, base: u16) -> (r: u16)
    ensures
        r == wrap16(v - base + 7000),
{
    proof {
        lemma_wrap16_period(v - base + 7000);
    }
    (((v as u32) + 0x10000 + 7000 - (base as u32)) % 0x10000) as u16
}

/// wrap16(v - (2 * cur - prev) + 7000): residual against a linear
/// predictor.
fn resid_linear(v: u16, prev: u16, cur: u16) -> (r: u16)
    ensures
        r == wrap16(v - (2 * cur - prev) + 7000),
{
    proof {
        lemma_wrap16_period(v - (2 * cur - prev) + 7000);
        lemma_wrap16_period(v - (2 * cur - prev) + 7000 + 0x10000);
    }
    (((v as u32) + (prev as u32) + 0x20000 + 7000 - 2 * (cur as u32)) % 0x10000) as u16
}

/// wrap16(v - (top + left - tl) + 7000): residual against a plane
/// predictor.
fn resid_plane(v: u16, left: u16, top: u16, tl: u16) -> (r: u16)
    ensures
        r == wrap16(v - (top + left - tl) + 7000),
{
    proof {
        lemma_wrap16_period(v - (top + left - tl) + 7000);
        lemma_wrap16_period(v - (top + left - tl) + 7000 + 0x10000);
    }
    (((v as u32) + (tl as u32) + 0x20000 + 7000 - (top as u32) - (left as u32)) % 0x10000) as u16
}

/// Computes the residual grid of a quantised grid, or reports that
/// some residual would collide with the water sentinel.
pub fn predict(grid: &Vec<u16>, res: usize) -> (r: Result<Vec<u16>, TileError>)
    requires
        grid_dims_ok(grid@, res as int),
    ensures
        match r {
            Ok(out) => out@ == predicted_grid(grid@, res as int) && residuals_clear_water(
                grid@,
                res as int,
            ),
            Err(e) => e == TileError::CorruptResidual && !residuals_clear_water(
                grid@,
                res as int,
            ),
        },
{
    let ghost g = grid@;
    let ghost r_int = res as int;
    let n = grid.len();
    let mut out: Vec<u16> = Vec::new();
    let mut i: usize = 0;
    while i < n
        invariant
            grid_dims_ok(g, r_int),
            g == grid@,
            r_int == res as int,
            n == g.len(),
            i <= n,
            out@.len() == i,
            forall|k: int| 0 <= k < i ==> out@[k] == predicted_grid(g, r_int)[k],
            forall|k: int|
                0 <= k < i && g[k] != 0 ==> #[trigger] predicted_grid(g, r_int)[k] != 0,
        decreases n - i,
    {
        let x = i % res;
        let y = i / res;
        proof {
            lemma_locate(r_int, i as int);
            lemma_cell_index(r_int, x as int, y as int);
            vstd::arithmetic::mul::lemma_mul_basics(r_int);
            assert(y as int * r_int + x as int == i as int);
            assert(cell(g, r_int, x as int, y as int) == g[i as int]);
        }
        let v = grid[i];
        let resid: u16 = if x == 0 && y == 0 {
            v
        } else if v == 0 {
            0u16
        } else if (x == 1 && y == 0) || (x == 0 && y == 1) {
            resid_delta(v, grid[0])
        } else if y == 0 {
            resid_linear(v, grid[i - 2], grid[i - 1])
        } else if x == 0 {
            proof {
                lemma_cell_index(r_int, 0, y as int - 1);
                lemma_cell_index(r_int, 0, y as int - 2);
                assert(2 * r_int <= i as int) by {
                    lemma_mul_inequality(2, y as int, r_int);
                }
                assert((y as int - 1) * r_int == y as int * r_int - r_int)
                    by (nonlinear_arith);
                assert((y as int - 2) * r_int == y as int * r_int - 2 * r_int)
                    by (nonlinear_arith);
            }
            resid_linear(v, grid[i - 2 * res], grid[i - res])
        } else {
            proof {
                lemma_cell_index(r_int, x as int - 1, y as int);
                lemma_cell_index(r_int, x as int, y as int - 1);
                lemma_cell_index(r_int, x as int - 1, y as int - 1);
                assert((y as int - 1) * r_int == y as int * r_int - r_int)
                    by (nonlinear_arith);
            }
            resid_plane(v, grid[i - 1], grid[i - res], grid[i - res - 1])
        };
        proof {
            if v != 0 && ((x == 1 && y == 0) || (x == 0 && y == 1)) {
                // The origin's value backs the two delta predictors.
                assert(cell(g, r_int, 0, 0) == g[0]);
            }
            assert(resid == residual_cell(g, r_int, x as int, y as int));
        }
        if v != 0 && resid == 0 {
            proof {
                assert(residual_cell(g, r_int, x as int, y as int) == 0);
                assert(!residuals_clear_water(g, r_int));
            }
            return Err(TileError::CorruptResidual);
        }
        out.push(resid);
        i += 1;
    }
    proof {
        assert(out@ =~= predicted_grid(g, r_int));
        assert forall|x: int, y: int|
            0 <= x < r_int && 0 <= y < r_int && cell(g, r_int, x, y) != 0 implies #[trigger]
        residual_cell(g, r_int, x, y) != 0 by {
            lemma_cell_index(r_int, x, y);
            let k = y * r_int + x;
            assert(g[k] == cell(g, r_int, x, y));
            assert(predicted_grid(g, r_int)[k] == residual_cell(g, r_int, x, y));
        }
    }
    Ok(out)
}

/// Decodes a residual grid in place, in the forward raster order that
/// inverts prediction.
pub fn unpredict(v: &mut Vec<u16>, res: usize)
    requires
        grid_dims_ok(old(v)@, res as int),
    ensures
        final(v)@ == unpredicted_grid(old(v)@, res as int),
{
    let ghost r = old(v)@;
    let ghost r_int = res as int;
    let n = v.len();
    proof {
        lemma_cell_index(r_int, 1, 0);
        lemma_cell_index(r_int, 0, 1);
        lemma_cell_index(r_int, 0, 0);
        vstd::arithmetic::mul::lemma_mul_basics(r_int);
        assert(2 * r_int <= r_int * r_int) by {
            lemma_mul_inequality(2, r_int, r_int);
        }
    }
    // Cells (1,0) and (0,1): predicted from the origin.
    let v0 = v[0];
    let v1 = v[1];
    if v1 != 0 {
        let nv = delta_apply(v0, v1);
        v.set(1, nv);
    }
    let vr = v[res];
    if vr != 0 {
        let nv = delta_apply(v0, vr);
        v.set(res, nv);
    }
    proof {
        assert(v@[0] == up_cell(r, r_int, 0, 0));
        assert(v@[1] == up_cell(r, r_int, 1, 0));
        assert(v@[r_int] == up_cell(r, r_int, 0, 1));
    }
    // The rest of the first row: linear along the row.
    let mut x: usize = 2;
    while x < res
        invariant
            grid_dims_ok(r, r_int),
            r_int == res as int,
            n == r.len(),
            v@.len() == n,
            2 * r_int <= n,
            2 <= x <= res,
            forall|j: int| 0 <= j < x ==> v@[j] == up_cell(r, r_int, j, 0),
            v@[r_int] == up_cell(r, r_int, 0, 1),
            forall|j: int| x <= j < n && j != r_int ==> v@[j] == r[j],
        decreases res - x,
    {
        proof {
            lemma_cell_index(r_int, x as int, 0);
            vstd::arithmetic::mul::lemma_mul_basics(r_int);
        }
        let out = v[x];
        if out != 0 {
            let nv = linear_apply(v[x - 2], v[x - 1], out);
            v.set(x, nv);
            proof {
                assert(v@[x as int] == up_cell(r, r_int, x as int, 0));
            }
        } else {
            proof {
                assert(v@[x as int] == up_cell(r, r_int, x as int, 0));
            }
        }
        x += 1;
    }
    // The rest of the first column: linear along the column.
    proof {
        assert forall|j: int|
            r_int <= j < n && (2int * r_int <= j || j % r_int != 0) implies v@[j] == r[j] by {
            if j == r_int {
                vstd::arithmetic::div_mod::lemma_mod_self_0(r_int);
                assert(false);
            }
        }
    }
    let mut y: usize = 2;
    while y < res
        invariant
            grid_dims_ok(r, r_int),
            r_int == res as int,
            n == r.len(),
            v@.len() == n,
            2 * r_int <= n,
            2 <= y <= res,
            forall|j: int| 0 <= j < r_int ==> v@[j] == up_cell(r, r_int, j, 0),
            forall|j: int| 1 <= j < y ==> v@[j * r_int] == up_cell(r, r_int, 0, j),
            forall|j: int|
                r_int <= j < n && (y as int * r_int <= j || j % r_int != 0) ==> v@[j] == r[j],
        decreases res - y,
    {
        proof {
            lemma_cell_index(r_int, 0, y as int);
            lemma_cell_index(r_int, 0, y as int - 1);
            lemma_cell_index(r_int, 0, y as int - 2);
            vstd::arithmetic::mul::lemma_mul_basics(r_int);
            assert(2 * r_int <= y as int * r_int) by {
                lemma_mul_inequality(2, y as int, r_int);
            }
            assert((y as int + 1) * r_int <= r_int * r_int) by {
                lemma_mul_inequality(y as int + 1, r_int, r_int);
            }
            assert((y as int + 1) * r_int == y as int * r_int + r_int) by (nonlinear_arith);
        }
        let out = v[y * res];
        proof {
            assert((y as int - 1) * r_int == y as int * r_int - r_int) by (nonlinear_arith);
            assert((y as int - 2) * r_int == y as int * r_int - 2 * r_int) by (nonlinear_arith);
            assert(out == r[y as int * r_int]);
        }
        if out != 0 {
            let prev = v[(y - 2) * res];
            let cur = v[(y - 1) * res];
            proof {
                assert(cur == v@[(y as int - 1) * r_int]);
                assert(cur == up_cell(r, r_int, 0, y as int - 1));
                if y as int - 2 >= 1 {
                    assert(prev == v@[(y as int - 2) * r_int]);
                    assert(prev == up_cell(r, r_int, 0, y as int - 2));
                } else {
                    assert(prev == v@[0]);
                    assert(prev == up_cell(r, r_int, 0, 0));
                }
            }
            let nv = linear_apply(prev, cur, out);
            v.set(y * res, nv);
        }
        proof {
            assert(v@[y as int * r_int] == up_cell(r, r_int, 0, y as int));
            assert forall|j: int| 1 <= j < y as int + 1 implies v@[j * r_int] == up_cell(
                r,
                r_int,
                0,
                j,
            ) by {
                if j < y as int {
                    assert(j * r_int < y as int * r_int) by {
                        vstd::arithmetic::mul::lemma_mul_strict_inequality(j, y as int, r_int);
                    }
                }
            }
            assert forall|j: int|
                r_int <= j < n && ((y as int + 1) * r_int <= j || j % r_int != 0) implies v@[j]
                == r[j] by {
                if j != y as int * r_int {
                    assert(v@[j] == r[j]);
                } else {
                    assert(j % r_int == 0) by {
                        vstd::arithmetic::div_mod::lemma_mod_multiples_basic(y as int, r_int);
                    }
                    assert(false);
                }
            }
        }
        y += 1;
    }
    // Interior cells: plane prediction, column by column.
    proof {
        assert forall|px: int, py: int|
            1 <= px < r_int && 1 <= py < r_int implies #[trigger] v@[py * r_int + px] == r[py
            * r_int + px] by {
            lemma_cell_index(r_int, px, py);
            assert(r_int <= py * r_int + px) by {
                lemma_mul_inequality(1, py, r_int);
            }
        }
    }
    let mut cx: usize = 1;
    while cx < res
        invariant
            grid_dims_ok(r, r_int),
            r_int == res as int,
            n == r.len(),
            v@.len() == n,
            2 * r_int <= n,
            1 <= cx <= res,
            forall|j: int| 0 <= j < r_int ==> v@[j] == up_cell(r, r_int, j, 0),
            forall|j: int| 1 <= j < r_int ==> v@[j * r_int] == up_cell(r, r_int, 0, j),
            forall|px: int, py: int|
                1 <= px < r_int && 1 <= py < r_int ==> #[trigger] v@[py * r_int + px] == (if px
                    < cx as int {
                    up_cell(r, r_int, px, py)
                } else {
                    r[py * r_int + px]
                }),
        decreases res - cx,
    {
        let mut cy: usize = 1;
        while cy < res
            invariant
                grid_dims_ok(r, r_int),
                r_int == res as int,
                n == r.len(),
                v@.len() == n,
                2 * r_int <= n,
                1 <= cx < res,
                1 <= cy <= res,
                forall|j: int| 0 <= j < r_int ==> v@[j] == up_cell(r, r_int, j, 0),
                forall|j: int| 1 <= j < r_int ==> v@[j * r_int] == up_cell(r, r_int, 0, j),
                forall|px: int, py: int|
                    1 <= px < r_int && 1 <= py < r_int ==> #[trigger] v@[py * r_int + px] == (
                    if px < cx as int || (px == cx as int && py < cy as int) {
                        up_cell(r, r_int, px, py)
                    } else {
                        r[py * r_int + px]
                    }),
            decreases res - cy,
        {
            proof {
                lemma_cell_index(r_int, cx as int, cy as int);
                lemma_cell_index(r_int, cx as int - 1, cy as int);
                lemma_cell_index(r_int, cx as int, cy as int - 1);
                lemma_cell_index(r_int, cx as int - 1, cy as int - 1);
                vstd::arithmetic::mul::lemma_mul_basics(r_int);
                assert(r_int <= cy as int * r_int) by {
                    lemma_mul_inequality(1, cy as int, r_int);
                }
                assert((cy as int - 1) * r_int == cy as int * r_int - r_int)
                    by (nonlinear_arith);
            }
            let i = cy * res + cx;
            let ghost ci = cy as int * r_int + cx as int;
            let out = v[i];
            proof {
                assert(i as int == ci);
                assert(out == r[ci]);
            }
            if out != 0 {
                let left = v[i - 1];
                let top = v[i - res];
                let tl = v[i - res - 1];
                proof {
                    if cx as int - 1 >= 1 {
                        assert(left == v@[cy as int * r_int + (cx as int - 1)]);
                        assert(left == up_cell(r, r_int, cx as int - 1, cy as int));
                    } else {
                        assert(left == v@[cy as int * r_int]);
                        assert(left == up_cell(r, r_int, 0, cy as int));
                    }
                    if cy as int - 1 >= 1 {
                        assert(top == v@[(cy as int - 1) * r_int + cx as int]);
                        assert(top == up_cell(r, r_int, cx as int, cy as int - 1));
                    } else {
                        assert(top == v@[cx as int]);
                        assert(top == up_cell(r, r_int, cx as int, 0));
                    }
                    if cx as int - 1 >= 1 && cy as int - 1 >= 1 {
                        assert(tl == v@[(cy as int - 1) * r_int + (cx as int - 1)]);
                        assert(tl == up_cell(r, r_int, cx as int - 1, cy as int - 1));
                    } else if cx as int - 1 >= 1 {
                        assert(tl == v@[cx as int - 1]);
                        assert(tl == up_cell(r, r_int, cx as int - 1, 0));
                    } else if cy as int - 1 >= 1 {
                        assert(tl == v@[(cy as int - 1) * r_int]);
                        assert(tl == up_cell(r, r_int, 0, cy as int - 1));
                    } else {
                        assert(tl == v@[0]);
                        assert(tl == up_cell(r, r_int, 0, 0));
                    }
                }
                let nv = plane_apply(left, top, tl, out);
                v.set(i, nv);
            }
            proof {
                assert(v@[cy as int * r_int + cx as int] == up_cell(
                    r,
                    r_int,
                    cx as int,
                    cy as int,
                ));
                assert forall|j: int| 1 <= j < r_int implies v@[j * r_int] == up_cell(
                    r,
                    r_int,
                    0,
                    j,
                ) by {
                    lemma_cell_index(r_int, 0, j);
                    lemma_cell_index(r_int, cx as int, cy as int);
                }
                assert forall|px: int, py: int|
                    1 <= px < r_int && 1 <= py < r_int implies #[trigger] v@[py * r_int + px]
                    == (if px < cx as int || (px == cx as int && py < cy as int + 1) {
                    up_cell(r, r_int, px, py)
                } else {
                    r[py * r_int + px]
                }) by {
                    lemma_cell_index(r_int, px, py);
                    lemma_cell_index(r_int, cx as int, cy as int);
                }
            }
            cy += 1;
        }
        cx += 1;
    }
    // Assemble: every cell now holds its decoded value.
    proof {
        assert forall|i: int| 0 <= i < n implies v@[i] == unpredicted_grid(r, r_int)[i] by {
            lemma_locate(r_int, i);
            let px = i % r_int;
            let py = i / r_int;
            lemma_cell_index(r_int, px, py);
            vstd::arithmetic::mul::lemma_mul_basics(r_int);
            assert(py * r_int + px == i);
            if py == 0 {
                assert(v@[i] == up_cell(r, r_int, px, 0));
            } else if px == 0 {
                assert(v@[i] == up_cell(r, r_int, 0, py));
            } else {
                assert(v@[py * r_int + px] == up_cell(r, r_int, px, py));
            }
        }
        assert(v@ =~= unpredicted_grid(r, r_int));
    }
}

} // verus!

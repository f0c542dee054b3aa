//! Quantisation: signed-metre heights to unsigned quanta and back.
//!
//! A height h maps to the quantum nearest to (h + 500) / H, where H is
//! the container's height resolution. The water sentinel -500 m maps to
//! quantum 0 and back. Decoding multiplies modulo 2^16, as the wire
//! format prescribes, and re-centres by -500.

use vstd::prelude::*;
use vstd::arithmetic::div_mod::{
    lemma_fundamental_div_mod, lemma_fundamental_div_mod_converse, lemma_small_mod,
};
use vstd::arithmetic::mul::lemma_mul_inequality;

verus! {

/// The post-decode height marking a water (no-data) pixel.
pub const WATER_HEIGHT: i16 = -500;

/// The quantum stored for a height at resolution `hres`: metres above
/// the water line, divided by `hres`, rounded to nearest.
pub open spec fn quantum_of(h: int, hres: int) -> int {
    (h + 500 + hres / 2) / hres
}

/// The height decoded from a quantum: the product modulo 2^16, less
/// 500, truncated into a signed 16-bit word.
pub open spec fn unmap_cell(q: int, hres: int) -> int {
    let shifted = (q * hres) % 0x10000 - 500;
    if shifted > 32767 {
        shifted - 0x10000
    } else {
        shifted
    }
}

/// A whole grid of heights, quantised.
pub open spec fn quantized_grid(h: Seq<i16>, hres: int) -> Seq<u16> {
    Seq::new(h.len(), |i: int| quantum_of(h[i] as int, hres) as u16)
}

/// A whole grid of quanta, decoded to heights.
pub open spec fn unmapped_grid(q: Seq<u16>, hres: int) -> Seq<i16> {
    Seq::new(q.len(), |i: int| unmap_cell(q[i] as int, hres) as i16)
}

/// Quantising a height and decoding the quantum restores the height
/// exactly whenever the height sits on the quantisation lattice: at or
/// above the water line, within the 16-bit span, and a whole multiple
/// of `hres` above it.
pub proof fn lemma_quant_round_trip(h: int, hres: int)
    requires
        1 <= hres,
        -500 <= h <= 32767,
        (h + 500) % hres == 0,
    ensures
        0 <= quantum_of(h, hres) < 0x10000,
        unmap_cell(quantum_of(h, hres), hres) == h,
        quantum_of(h, hres) == 0 <==> h == -500,
{
    let p = h + 500;
    lemma_fundamental_div_mod(p, hres);
    assert(p == hres * (p / hres));
    assert(0 <= hres / 2 < hres) by {
        vstd::arithmetic::div_mod::lemma_div_pos_is_pos(hres, 2);
        vstd::arithmetic::div_mod::lemma_div_is_strictly_smaller(hres, 2);
    }
    // Rounding adds less than one quantum, so the quotient is exact.
    assert(hres * (p / hres) == (p / hres) * hres) by {
        vstd::arithmetic::mul::lemma_mul_is_commutative(hres, p / hres);
    }
    assert(p + hres / 2 == (p / hres) * hres + hres / 2);
    lemma_fundamental_div_mod_converse(p + hres / 2, hres, p / hres, hres / 2);
    assert(quantum_of(h, hres) == p / hres);
    assert(0 <= p / hres <= p) by {
        vstd::arithmetic::div_mod::lemma_div_pos_is_pos(p, hres);
        vstd::arithmetic::div_mod::lemma_div_nonincreasing(p, hres);
    }
    lemma_small_mod(p as nat, 0x10000);
    if p / hres == 0 {
        assert(p == 0);
    }
    if p == 0 {
        assert(p / hres == 0) by {
            vstd::arithmetic::div_mod::lemma_div_of0(hres);
        }
    }
}

/// Quantises one height; `hres` is the metres-per-quantum multiplier.
pub fn map_height(h: i16, hres: u16) -> (q: u16)
    requires
        1 <= hres,
        -500 <= h as int,
    ensures
        q == quantum_of(h as int, hres as int),
{
    let num: i32 = (h as i32) + 500 + (hres as i32) / 2;
    let q32: i32 = num / (hres as i32);
    proof {
        if hres as int >= 2 {
            assert((hres as int) / 2 <= 65535int / 2) by {
                vstd::arithmetic::div_mod::lemma_div_is_ordered(hres as int, 65535, 2);
            }
            assert((hres as int) * 65536 >= 2 * 65536) by {
                lemma_mul_inequality(2, hres as int, 65536);
            }
            assert(num < (hres as int) * 65536);
        } else {
            assert((hres as int) / 2 == 0);
            assert(num < (hres as int) * 65536);
        }
        assert(q32 < 0x10000) by {
            vstd::arithmetic::div_mod::lemma_multiply_divide_lt(
                num as int,
                hres as int,
                65536,
            );
        }
        assert(q32 >= 0) by {
            vstd::arithmetic::div_mod::lemma_div_pos_is_pos(num as int, hres as int);
        }
    }
    q32 as u16
}

/// Decodes one quantum back to a height in metres.
pub fn unmap_height(q: u16, hres: u16) -> (h: i16)
    requires
        1 <= hres,
    ensures
        h == unmap_cell(q as int, hres as int),
{
    proof {
        assert((q as int) * (hres as int) <= 65535 * 65535) by (nonlinear_arith)
            requires
                q as int <= 65535,
                hres as int <= 65535,
                0 <= q as int,
                0 <= hres as int,
        ;
    }
    let raw: u32 = ((q as u32) * (hres as u32)) % 0x10000;
    let shifted: i32 = (raw as i32) - 500;
    if shifted > 32767 {
        (shifted - 0x10000) as i16
    } else {
        shifted as i16
    }
}

/// Quantises a whole grid.
pub fn map_heights(heights: &Vec<i16>, hres: u16) -> (q: Vec<u16>)
    requires
        1 <= hres,
        forall|i: int| 0 <= i < heights@.len() ==> -500 <= #[trigger] heights@[i] as int,
    ensures
        q@ == quantized_grid(heights@, hres as int),
{
    let mut out: Vec<u16> = Vec::new();
    let n = heights.len();
    let mut i: usize = 0;
    while i < n
        invariant
            n == heights@.len(),
            i <= n,
            1 <= hres,
            forall|k: int| 0 <= k < n ==> -500 <= #[trigger] heights@[k] as int,
            out@.len() == i,
            forall|k: int| 0 <= k < i ==> out@[k] == quantized_grid(heights@, hres as int)[k],
        decreases n - i,
    {
        let q = map_height(heights[i], hres);
        out.push(q);
        i += 1;
    }
    proof {
        assert(out@ =~= quantized_grid(heights@, hres as int));
    }
    out
}

/// Decodes a whole grid of quanta.
pub fn unmap_grid(quanta: &Vec<u16>, hres: u16) -> (h: Vec<i16>)
    requires
        1 <= hres,
    ensures
        h@ == unmapped_grid(quanta@, hres as int),
{
    let mut out: Vec<i16> = Vec::new();
    let n = quanta.len();
    let mut i: usize = 0;
    while i < n
        invariant
            n == quanta@.len(),
            i <= n,
            1 <= hres,
            out@.len() == i,
            forall|k: int| 0 <= k < i ==> out@[k] == unmapped_grid(quanta@, hres as int)[k],
        decreases n - i,
    {
        let h = unmap_height(quanta[i], hres);
        out.push(h);
        i += 1;
    }
    proof {
        assert(out@ =~= unmapped_grid(quanta@, hres as int));
    }
    out
}

} // verus!

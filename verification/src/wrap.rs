//! Sixteen-bit wrapping arithmetic. The wire format of the tile codec
//! is defined modulo 2^16: residuals and palette reconstruction both
//! wrap, so every stage is specified through `wrap16`.

use vstd::prelude::*;
use vstd::arithmetic::div_mod::{
    lemma_add_mod_noop_right, lemma_mod_add_multiples_vanish, lemma_small_mod,
};

verus! {

/// The value `a` reduced into a 16-bit word.
pub open spec fn wrap16(a: int) -> u16 {
    (a % 0x10000) as u16
}

/// Reducing an operand of a sum modulo 2^16 first does not change the
/// wrapped sum.
pub proof fn lemma_wrap16_add_noop(a: int, b: int)
    ensures
        wrap16(a + wrap16(b)) == wrap16(a + b),
{
    lemma_add_mod_noop_right(a, b, 0x10000);
}

/// A value already in [0, 2^16) wraps to itself.
pub proof fn lemma_wrap16_small(a: int)
    requires
        0 <= a < 0x10000,
    ensures
        wrap16(a) == a,
{
    lemma_small_mod(a as nat, 0x10000);
}

/// Adding a full period does not change the wrapped value.
pub proof fn lemma_wrap16_period(a: int)
    ensures
        wrap16(a + 0x10000) == wrap16(a),
{
    lemma_mod_add_multiples_vanish(a, 0x10000);
}

/// Wrapping 16-bit addition.
pub fn wadd(a: u16, b: u16) -> (r: u16)
    ensures
        r == wrap16(a as int + b as int),
{
    (((a as u32) + (b as u32)) % 0x10000) as u16
}

/// Wrapping 16-bit subtraction.
pub fn wsub(a: u16, b: u16) -> (r: u16)
    ensures
        r == wrap16(a as int - b as int),
{
    proof {
        lemma_wrap16_period(a as int - b as int);
    }
    (((a as u32) + 0x10000 - (b as u32)) % 0x10000) as u16
}

} // verus!

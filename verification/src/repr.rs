//! Bridging between the machine representation of polynomials (`u64` bit
//! masks) and the mathematical model in [`crate::poly`].

use vstd::prelude::*;
use crate::poly::{pxor, pdeg};

verus! {

/// Exclusive or on the machine word agrees with the coefficient-wise sum of
/// the encoded polynomials.
pub proof fn lemma_xor_is_pxor(a: u64, b: u64)
    ensures
        (a ^ b) as nat == pxor(a as nat, b as nat),
    decreases a as nat + b as nat,
{
    if a == 0 {
        assert(0u64 ^ b == b) by (bit_vector);
    } else if b == 0 {
        assert(a ^ 0u64 == a) by (bit_vector);
    } else {
        lemma_xor_is_pxor(a / 2, b / 2);
        assert((a ^ b) == 2 * ((a / 2) ^ (b / 2)) + (if a % 2 == b % 2 { 0u64 } else { 1u64 }))
            by (bit_vector);
    }
}

/// Index of the highest set bit of a nonzero word.
pub fn degree_of(v: u64) -> (r: u64)
    requires
        v >= 1,
    ensures
        r as nat == pdeg(v as nat),
        r < 64,
{
    let mut x: u64 = v;
    let mut d: u64 = 0;
    proof {
        crate::poly::lemma_pdeg_bounds(v as nat);
        assert(pdeg(v as nat) < 64) by {
            vstd::arithmetic::power2::lemma2_to64_rest();
            if pdeg(v as nat) >= 64 {
                crate::poly::lemma_pow2_le(64, pdeg(v as nat));
            }
        }
    }
    while x >= 2
        invariant
            x >= 1,
            pdeg(v as nat) == pdeg(x as nat) + d,
            d <= pdeg(v as nat),
            pdeg(v as nat) < 64,
        decreases x,
    {
        x = x / 2;
        d = d + 1;
    }
    d
}

} // verus!

//! Trusted boundary to the `g2poly` crate, the GF(2)[x] polynomial-arithmetic
//! collaborator. Each wrapper converts between plain `u64` encodings and
//! `g2poly::G2Poly`, and its contract states what the called function returns
//! in terms of the specifications in [`crate::poly`].

use vstd::prelude::*;
use vstd::arithmetic::power2::pow2;
use crate::poly::{pxor, pmul, pmod, pdeg, irreducible};
use g2poly::G2Poly;

verus! {

/// Relies on g2poly's `Mul` (carry-less product, computed in 128 bits, so it
/// cannot overflow) and `Rem` for `G2PolyProd` (remainder by repeatedly
/// clearing the top bit with a shifted modulus, defined for a nonzero
/// modulus).
#[verifier::external_body]
pub(crate) fn poly_mul_mod(a: u64, b: u64, m: u64) -> (r: u64)
    requires
        1 <= m,
    ensures
        r as nat == pmod(pmul(a as nat, b as nat), m as nat),
{
    ((G2Poly(a) * G2Poly(b)) % G2Poly(m)).0
}

/// Relies on g2poly's `is_irreducible`, Rabin's irreducibility test. For any
/// polynomial of degree at least one it decides irreducibility over GF(2);
/// the values 0 and 1 are excluded by the precondition.
#[verifier::external_body]
pub(crate) fn poly_is_irreducible(m: u64) -> (r: bool)
    requires
        2 <= m,
    ensures
        r == irreducible(m as nat),
{
    G2Poly(m).is_irreducible()
}

/// Relies on g2poly's `extended_gcd`: it returns `(d, x, y)` with
/// `a*x + b*y == d` in GF(2)[x], the Bézout identity the extended Euclidean
/// algorithm maintains from its initialization onward. `d` is the greatest
/// common divisor: the remainder chain preserves the common divisors of the
/// two inputs, so the last nonzero remainder divides both (that every common
/// divisor divides `d` in turn already follows from the identity). The
/// returned coefficient `x` stays below `2^pdeg(b)`: its degree is
/// `pdeg(b) - pdeg(r)` with `r` the next-to-last nonzero remainder, and with
/// `1 <= a < b` the chain has at least two remainders, so `pdeg(r) >= 1`.
#[verifier::external_body]
pub(crate) fn poly_extended_gcd(a: u64, b: u64) -> (r: (u64, u64, u64))
    requires
        1 <= a < b,
    ensures
        pxor(pmul(a as nat, r.1 as nat), pmul(b as nat, r.2 as nat)) == r.0 as nat,
        crate::poly::pdivides(r.0 as nat, a as nat),
        crate::poly::pdivides(r.0 as nat, b as nat),
        (r.1 as nat) < pow2(pdeg(b as nat)),
{
    let (d, x, y) = g2poly::extended_gcd(G2Poly(a), G2Poly(b));
    (d.0, x.0, y.0)
}

} // verus!

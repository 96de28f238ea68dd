//! Field-parameter resolution: turn a degree `p` and an optional explicit
//! modulus into a validated [`FieldSpec`] holding the modulus and a generator
//! of the multiplicative group.

use vstd::prelude::*;
use vstd::arithmetic::power2::pow2;
use crate::poly::{pdeg, pmod, irreducible, is_primitive};
use crate::g2::poly_is_irreducible;
use crate::repr::degree_of;

verus! {

/// Errors of field construction. `UnsupportedDegree` and `InvalidModulus`
/// reject bad input; `InvariantViolation` marks the exhaustion of a search
/// that is mathematically guaranteed to succeed for valid input (an
/// irreducible polynomial of every positive degree exists over GF(2), and
/// the multiplicative group of every finite field is cyclic), kept as a
/// typed error rather than an unchecked trap.
#[derive(Clone, Copy, Debug, PartialEq, Eq, Structural)]
pub enum ConstructionError {
    /// The requested degree is zero or larger than 32.
    UnsupportedDegree,
    /// The explicitly supplied modulus is not irreducible of the requested
    /// degree.
    InvalidModulus,
    /// A search that is guaranteed to succeed for valid input found nothing.
    InvariantViolation,
}

/// A resolved field definition: degree, irreducible modulus, generator, and
/// the number of field elements.
#[derive(Clone, Copy, Debug, PartialEq, Eq, Structural)]
pub struct FieldSpec {
    /// The field degree: the field has `2^p` elements.
    pub p: u64,
    /// Bit-encoded irreducible polynomial of degree exactly `p`.
    pub modulus: u64,
    /// A generator of the multiplicative group, as a reduced field element.
    pub generator: u64,
    /// The number of field elements, `2^p`.
    pub size: u64,
}

impl FieldSpec {
    /// Well-formedness: the invariant every resolved field definition holds.
    pub open spec fn valid(self) -> bool {
        &&& 1 <= self.p <= 32
        &&& self.size == pow2(self.p as nat)
        &&& pdeg(self.modulus as nat) == self.p
        &&& irreducible(self.modulus as nat)
        &&& 1 <= self.generator < self.size
        &&& is_primitive(self.modulus as nat, self.generator as nat)
    }
}

/// The scan for an automatically resolved modulus found nothing below `c`.
pub open spec fn no_irreducible_below(p: nat, c: nat) -> bool {
    forall|x: nat| pow2(p) < x < c ==> !irreducible(x)
}

/// No generator candidate below `g` has multiplicative order `2^pdeg(m) - 1`.
pub open spec fn no_generator_below(m: nat, g: nat) -> bool {
    forall|h: nat| 1 <= h < g ==> !is_primitive(m, pmod(h, m))
}

/// What `resolve_modulus` promises of a returned modulus: the supplied one,
/// validated, or the first irreducible polynomial of degree `p` in ascending
/// order.
pub open spec fn modulus_resolution_ok(p: nat, explicit: Option<u64>, m: nat) -> bool {
    &&& irreducible(m)
    &&& pdeg(m) == p
    &&& match explicit {
        Some(e) => m == e as nat,
        None => pow2(p) < m < pow2(p + 1) && no_irreducible_below(p, m),
    }
}

/// Resolve the field modulus: validate a supplied polynomial, or scan the
/// degree-`p` range `[2^p + 1, 2^(p+1) - 1]` in ascending order for the first
/// irreducible one.
pub fn resolve_modulus(p: u64, explicit: Option<u64>) -> (r: Result<u64, ConstructionError>)
    requires
        1 <= p <= 32,
    ensures
        match r {
            Ok(m) => modulus_resolution_ok(p as nat, explicit, m as nat),
            Err(e) => match explicit {
                Some(em) => {
                    &&& e == ConstructionError::InvalidModulus
                    &&& !(irreducible(em as nat) && pdeg(em as nat) == p as nat)
                },
                None => {
                    &&& e == ConstructionError::InvariantViolation
                    &&& no_irreducible_below(p as nat, pow2(p as nat + 1))
                },
            },
        },
{
    match explicit {
        Some(em) => {
            if em < 2 {
                proof {
                    assert(pdeg(em as nat) == 0);
                }
                return Err(ConstructionError::InvalidModulus);
            }
            let d = degree_of(em);
            if d != p {
                return Err(ConstructionError::InvalidModulus);
            }
            if poly_is_irreducible(em) {
                Ok(em)
            } else {
                Err(ConstructionError::InvalidModulus)
            }
        },
        None => {
            proof {
                assert(pow2(33) == 0x2_0000_0000) by {
                    vstd::arithmetic::power2::lemma2_to64();
                    vstd::arithmetic::power2::lemma2_to64_rest();
                }
                crate::poly::lemma_pow2_le(p as nat + 1, 33);
                vstd::arithmetic::power2::lemma_pow2_unfold(p as nat + 1);
                vstd::arithmetic::power2::lemma_pow2_pos(p as nat);
            }
            proof {
                vstd::bits::lemma_u64_shl_is_mul(1u64, p);
                vstd::bits::lemma_u64_shl_is_mul(1u64, (p + 1) as u64);
            }
            let start: u64 = (1u64 << p) + 1;
            let end: u64 = (1u64 << (p + 1)) - 1;
            let mut m: u64 = start;
            while m <= end
                invariant
                    pow2(p as nat) + 1 == start,
                    pow2(p as nat + 1) - 1 == end,
                    pow2(p as nat + 1) == 2 * pow2(p as nat),
                    end < u64::MAX,
                    start <= m <= end + 1,
                    explicit is None,
                    no_irreducible_below(p as nat, m as nat),
                decreases end + 1 - m,
            {
                if poly_is_irreducible(m) {
                    proof {
                        crate::poly::lemma_pdeg_of_range(m as nat, p as nat);
                    }
                    return Ok(m);
                }
                m = m + 1;
            }
            Err(ConstructionError::InvariantViolation)
        },
    }
}

/// Decide whether a reduced element's multiplicative order is exactly the
/// group order `2^pdeg(m) - 1`: walk the successive powers through the
/// trusted multiply-reduce primitive, reject as soon as a power below the
/// group order is one, and finally demand that the power at the group order
/// itself is one.
fn has_full_order(m: u64, a: u64, group_order: u64) -> (r: bool)
    requires
        pdeg(m as nat) >= 1,
        group_order as nat == pow2(pdeg(m as nat)) - 1,
    ensures
        r == is_primitive(m as nat, a as nat),
{
    proof {
        assert(m >= 2);
        crate::poly::lemma_pow2_le(1, pdeg(m as nat));
        assert(pow2(1) == 2) by {
            vstd::arithmetic::power2::lemma2_to64();
        }
    }
    let mut x: u64 = 1;
    let mut k: u64 = 0;
    while k < group_order - 1
        invariant
            pdeg(m as nat) >= 1,
            m >= 2,
            group_order as nat == pow2(pdeg(m as nat)) - 1,
            group_order >= 1,
            k <= group_order - 1,
            x as nat == crate::poly::fpow(m as nat, a as nat, k as nat),
            forall|j: nat| 1 <= j <= k ==> crate::poly::fpow(m as nat, a as nat, j) != 1,
        decreases group_order - k,
    {
        x = crate::g2::poly_mul_mod(x, a, m);
        k = k + 1;
        proof {
            assert(x as nat == crate::poly::fpow(m as nat, a as nat, k as nat));
        }
        if x == 1 {
            proof {
                assert(crate::poly::fpow(m as nat, a as nat, k as nat) == 1);
                assert(!is_primitive(m as nat, a as nat));
            }
            return false;
        }
    }
    let last = crate::g2::poly_mul_mod(x, a, m);
    proof {
        assert(k == group_order - 1);
        assert(last as nat == crate::poly::fpow(m as nat, a as nat, group_order as nat));
        if last == 1 {
            assert(crate::poly::no_smaller_power_is_one(m as nat, a as nat));
        }
    }
    last == 1
}

/// Scan generator candidates in ascending order and return the first whose
/// multiplicative order is `2^pdeg(m) - 1`. Each candidate is reduced by the
/// modulus and its order checked by a verified walk over the trusted
/// multiply-reduce primitive. Candidates at or above the modulus are
/// redundant — their residues are smaller values scanned earlier — so the
/// scan stops below the modulus.
pub fn resolve_generator(m: u64) -> (r: Result<u64, ConstructionError>)
    requires
        irreducible(m as nat),
    ensures
        match r {
            Ok(g) => {
                &&& 1 <= g
                &&& (g as nat) < pow2(pdeg(m as nat))
                &&& is_primitive(m as nat, g as nat)
                &&& no_generator_below(m as nat, g as nat)
            },
            Err(e) => {
                &&& e == ConstructionError::InvariantViolation
                &&& no_generator_below(m as nat, m as nat)
            },
        },
{
    proof {
        crate::poly::lemma_pdeg_bounds(m as nat);
        crate::poly::lemma_pow2_le(1, pdeg(m as nat));
        assert(pow2(1) == 2) by {
            vstd::arithmetic::power2::lemma2_to64();
        }
    }
    let d: u64 = degree_of(m);
    proof {
        vstd::arithmetic::power2::lemma2_to64();
        vstd::arithmetic::power2::lemma2_to64_rest();
        crate::poly::lemma_pow2_le(d as nat, 63);
        vstd::bits::lemma_u64_shl_is_mul(1u64, d);
    }
    let group_order: u64 = (1u64 << d) - 1;
    let mut g: u64 = 1;
    while g < m
        invariant
            irreducible(m as nat),
            group_order as nat == pow2(pdeg(m as nat)) - 1,
            pdeg(m as nat) >= 1,
            1 <= g <= m,
            no_generator_below(m as nat, g as nat),
        decreases m - g,
    {
        let gr: u64 = crate::g2::poly_mul_mod(g, 1, m);
        proof {
            crate::poly::lemma_pmul_one(g as nat);
            assert(gr as nat == pmod(g as nat, m as nat));
            crate::poly::lemma_pmod_bound(g as nat, m as nat);
            crate::poly::lemma_pmod_nonzero(g as nat, m as nat);
        }
        if has_full_order(m, gr, group_order) {
            proof {
                let mn = m as nat;
                let gn = g as nat;
                let size = pow2(pdeg(mn));
                assert(is_primitive(mn, pmod(gn, mn)));
                if gn >= size {
                    // The residue of g is a smaller candidate with the same
                    // order, already rejected by the scan: contradiction.
                    let h = pmod(gn, mn);
                    assert(1 <= h < gn);
                    assert(pmod(h, mn) == h);
                    assert(!is_primitive(mn, pmod(h, mn)));
                }
                assert(pmod(gn, mn) == gn);
            }
            return Ok(g);
        }
        g = g + 1;
    }
    Err(ConstructionError::InvariantViolation)
}

/// Resolve a full field definition from the requested degree and an optional
/// explicit modulus.
pub fn resolve(p: u64, explicit: Option<u64>) -> (r: Result<FieldSpec, ConstructionError>)
    ensures
        match r {
            Ok(fs) => {
                &&& fs.valid()
                &&& fs.p == p
                &&& fs.size == pow2(p as nat)
                &&& modulus_resolution_ok(p as nat, explicit, fs.modulus as nat)
                &&& no_generator_below(fs.modulus as nat, fs.generator as nat)
            },
            Err(ConstructionError::UnsupportedDegree) => p == 0 || p > 32,
            Err(ConstructionError::InvalidModulus) => {
                &&& 1 <= p <= 32
                &&& explicit is Some
                &&& !(irreducible(explicit->Some_0 as nat) && pdeg(explicit->Some_0 as nat)
                    == p as nat)
            },
            Err(ConstructionError::InvariantViolation) => {
                &&& 1 <= p <= 32
                &&& (match explicit {
                    None => no_irreducible_below(p as nat, pow2(p as nat + 1)) || (
                    exists|m: nat|
                        #[trigger] modulus_resolution_ok(p as nat, explicit, m)
                            && no_generator_below(m, m)),
                    Some(_) => exists|m: nat|
                        #[trigger] modulus_resolution_ok(p as nat, explicit, m)
                            && no_generator_below(m, m),
                })
            },
        },
        (p == 0 || p > 32) <==> r == Err::<FieldSpec, ConstructionError>(
            ConstructionError::UnsupportedDegree,
        ),
{
    if p == 0 || p > 32 {
        return Err(ConstructionError::UnsupportedDegree);
    }
    let modulus = match resolve_modulus(p, explicit) {
        Ok(m) => m,
        Err(e) => {
            return Err(e);
        },
    };
    let generator = match resolve_generator(modulus) {
        Ok(g) => g,
        Err(e) => {
            proof {
                assert(modulus_resolution_ok(p as nat, explicit, modulus as nat)
                    && no_generator_below(modulus as nat, modulus as nat));
            }
            return Err(e);
        },
    };
    proof {
        assert(pow2(32) == 0x1_0000_0000) by {
            vstd::arithmetic::power2::lemma2_to64();
        }
        crate::poly::lemma_pow2_le(p as nat, 32);
        vstd::bits::lemma_u64_shl_is_mul(1u64, p);
    }
    let size: u64 = 1u64 << p;
    Ok(FieldSpec { p, modulus, generator, size })
}

} // verus!

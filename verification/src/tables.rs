//! Construction of the two lookup tables: the chunked multiplication table
//! and the inversion table.

use vstd::prelude::*;
use vstd::arithmetic::power2::pow2;
use vstd::pervasive::VecAdditionalExecFns;
use crate::poly::{pdeg, fmul, irreducible, lemma_fmul_comm, lemma_fmul_zero, lemma_pdeg_bounds};
use crate::g2::{poly_mul_mod, poly_extended_gcd};

verus! {

/// Value of one multiplication-table cell: the field product of the two
/// shifted chunk values, or zero where a shifted chunk would fall outside the
/// field. The padding is safe because valid field elements never set those
/// high bit positions.
pub open spec fn mul_cell(m: nat, size: nat, i: nat, j: nat, x: nat, y: nat) -> nat {
    if x * pow2(8 * i) < size && y * pow2(8 * j) < size {
        fmul(m, x * pow2(8 * i), y * pow2(8 * j))
    } else {
        0
    }
}

/// One row of the table: all right-hand byte values for fixed `(i, j, x)`.
pub open spec fn mul_row_ok(r: Seq<u64>, m: nat, size: nat, i: nat, j: nat, x: nat) -> bool {
    &&& r.len() == 256
    &&& forall|y: int| 0 <= y < 256 ==> #[trigger] r[y] as nat == mul_cell(m, size, i, j, x, y as nat)
}

/// One plane of the table: all left-hand byte values for fixed `(i, j)`.
pub open spec fn mul_plane_ok(pl: Seq<Vec<u64>>, m: nat, size: nat, i: nat, j: nat) -> bool {
    &&& pl.len() == 256
    &&& forall|x: int| 0 <= x < 256 ==> mul_row_ok(#[trigger] pl[x]@, m, size, i, j, x as nat)
}

/// One slab of the table: all right-hand chunk positions for a fixed left
/// chunk position `i`.
pub open spec fn mul_slab_ok(s: Seq<Vec<Vec<u64>>>, m: nat, size: nat, i: nat, nparts: nat) -> bool {
    &&& s.len() == nparts
    &&& forall|j: int| 0 <= j < nparts ==> mul_plane_ok(#[trigger] s[j]@, m, size, i, j as nat)
}

/// Well-formedness of the whole multiplication table.
pub open spec fn mul_table_wf(t: Seq<Vec<Vec<Vec<u64>>>>, m: nat, size: nat, nparts: nat) -> bool {
    &&& t.len() == nparts
    &&& forall|i: int| 0 <= i < nparts ==> mul_slab_ok(#[trigger] t[i]@, m, size, i as nat, nparts)
}

/// Build the chunked multiplication table: for every pair of chunk positions
/// and every pair of byte values, precompute the reduced product of the two
/// shifted chunks.
pub fn build_mul_table(modulus: u64, size: u64, nparts: usize) -> (t: Vec<Vec<Vec<Vec<u64>>>>)
    requires
        1 <= modulus,
        nparts <= 8,
    ensures
        mul_table_wf(t@, modulus as nat, size as nat, nparts as nat),
{
    proof {
        assert(pow2(56) == 0x100_0000_0000_0000) by {
            vstd::arithmetic::power2::lemma2_to64();
            vstd::arithmetic::power2::lemma2_to64_rest();
        }
    }
    let mut table: Vec<Vec<Vec<Vec<u64>>>> = Vec::new();
    let mut i: usize = 0;
    while i < nparts
        invariant
            1 <= modulus,
            nparts <= 8,
            i <= nparts,
            table@.len() == i,
            pow2(56) == 0x100_0000_0000_0000,
            forall|ii: int| 0 <= ii < i ==> mul_slab_ok(
                #[trigger] table@[ii]@,
                modulus as nat,
                size as nat,
                ii as nat,
                nparts as nat,
            ),
        decreases nparts - i,
    {
        let mut slab: Vec<Vec<Vec<u64>>> = Vec::new();
        let mut j: usize = 0;
        while j < nparts
            invariant
                1 <= modulus,
                nparts <= 8,
                i < nparts,
                j <= nparts,
                slab@.len() == j,
                pow2(56) == 0x100_0000_0000_0000,
                forall|jj: int| 0 <= jj < j ==> mul_plane_ok(
                    #[trigger] slab@[jj]@,
                    modulus as nat,
                    size as nat,
                    i as nat,
                    jj as nat,
                ),
            decreases nparts - j,
        {
            let mut plane: Vec<Vec<u64>> = Vec::new();
            let mut x: usize = 0;
            while x < 256
                invariant
                    1 <= modulus,
                    nparts <= 8,
                    i < nparts,
                    j < nparts,
                    x <= 256,
                    plane@.len() == x,
                    pow2(56) == 0x100_0000_0000_0000,
                    forall|xx: int| 0 <= xx < x ==> mul_row_ok(
                        #[trigger] plane@[xx]@,
                        modulus as nat,
                        size as nat,
                        i as nat,
                        j as nat,
                        xx as nat,
                    ),
                decreases 256 - x,
            {
                let mut row: Vec<u64> = Vec::new();
                let mut y: usize = 0;
                proof {
                    crate::poly::lemma_pow2_le(8 * i as nat, 56);
                    crate::poly::lemma_pow2_le(8 * j as nat, 56);
                    vstd::arithmetic::power2::lemma_pow2_pos(8 * i as nat);
                    vstd::arithmetic::power2::lemma_pow2_pos(8 * j as nat);
                }
                while y < 256
                    invariant
                        1 <= modulus,
                        nparts <= 8,
                        i < nparts,
                        j < nparts,
                        x < 256,
                        y <= 256,
                        row@.len() == y,
                        pow2(56) == 0x100_0000_0000_0000,
                        pow2(8 * i as nat) <= pow2(56),
                        pow2(8 * j as nat) <= pow2(56),
                        pow2(8 * i as nat) >= 1,
                        pow2(8 * j as nat) >= 1,
                        forall|yy: int| 0 <= yy < y ==> #[trigger] row@[yy] as nat == mul_cell(
                            modulus as nat,
                            size as nat,
                            i as nat,
                            j as nat,
                            x as nat,
                            yy as nat,
                        ),
                    decreases 256 - y,
                {
                    proof {
                        assert((x as u64) * pow2(8 * i as nat) <= 255 * pow2(56))
                            by (nonlinear_arith)
                            requires
                                x < 256,
                                pow2(8 * i as nat) <= pow2(56),
                        ;
                        assert((y as u64) * pow2(8 * j as nat) <= 255 * pow2(56))
                            by (nonlinear_arith)
                            requires
                                y < 256,
                                pow2(8 * j as nat) <= pow2(56),
                        ;
                        vstd::bits::lemma_u64_shl_is_mul(x as u64, (8 * i) as u64);
                        vstd::bits::lemma_u64_shl_is_mul(y as u64, (8 * j) as u64);
                    }
                    let xv: u64 = (x as u64) << ((8 * i) as u64);
                    let yv: u64 = (y as u64) << ((8 * j) as u64);
                    let cell: u64 = if xv < size && yv < size {
                        poly_mul_mod(xv, yv, modulus)
                    } else {
                        0
                    };
                    row.push(cell);
                    y = y + 1;
                }
                plane.push(row);
                x = x + 1;
            }
            slab.push(plane);
            j = j + 1;
        }
        table.push(slab);
        i = i + 1;
    }
    table
}

/// Well-formedness of the inversion table: indexed by the field elements,
/// zero maps to zero, and every nonzero element maps to a nonzero element
/// whose field product with it is one.
pub open spec fn inv_table_wf(t: Seq<u64>, m: nat, size: nat) -> bool {
    &&& t.len() == size
    &&& t[0] == 0
    &&& forall|e: int|
        1 <= e < size ==> 1 <= #[trigger] t[e] < size && fmul(m, e as nat, t[e] as nat) == 1
}

/// Build the inversion table. For each nonzero element the extended
/// Euclidean algorithm yields a Bézout coefficient, which is its inverse:
/// the modulus is irreducible, so the greatest common divisor is one and the
/// Bézout identity reduces to the inverse property. Since inversion is an
/// involution, each computed pair fills two entries at once, and entries
/// already filled are skipped.
pub fn build_inv_table(modulus: u64, size: usize) -> (t: Vec<u64>)
    requires
        2 <= modulus,
        irreducible(modulus as nat),
        size as nat == pow2(pdeg(modulus as nat)),
    ensures
        inv_table_wf(t@, modulus as nat, size as nat),
{
    proof {
        lemma_pdeg_bounds(modulus as nat);
    }
    let mut t: Vec<u64> = Vec::new();
    while t.len() < size
        invariant
            forall|e: int| 0 <= e < t@.len() ==> #[trigger] t@[e] == 0,
            t@.len() <= size,
        decreases size - t@.len(),
    {
        t.push(0);
    }
    let mut a: usize = 1;
    while a < size
        invariant
            2 <= modulus,
            irreducible(modulus as nat),
            size as nat == pow2(pdeg(modulus as nat)),
            size <= modulus,
            t@.len() == size,
            t@[0] == 0,
            1 <= a,
            forall|e: int|
                1 <= e < size && #[trigger] t@[e] != 0 ==> 1 <= t@[e] < size && fmul(
                    modulus as nat,
                    e as nat,
                    t@[e] as nat,
                ) == 1,
            forall|e: int| 1 <= e < a ==> #[trigger] t@[e] != 0,
        decreases size - a,
    {
        if t[a] == 0 {
            let bezout = poly_extended_gcd(a as u64, modulus);
            let x = bezout.1;
            proof {
                let mn = modulus as nat;
                let an = a as nat;
                let xn = x as nat;
                // The gcd of a nonzero reduced element and the irreducible
                // modulus is one, so the Bézout identity makes x the inverse.
                crate::poly::lemma_irreducible_coprime(an, bezout.0 as nat, mn);
                crate::poly::lemma_bezout_inverse(an, xn, bezout.2 as nat, mn);
                assert(fmul(mn, an, xn) == 1);
                // The inverse is a nonzero field element, and by
                // commutativity a is in turn the inverse of x.
                if x == 0 {
                    lemma_fmul_zero(mn, an);
                }
                lemma_fmul_comm(mn, an, xn);
            }
            t.set(a, x);
            t.set(x as usize, a as u64);
        }
        a = a + 1;
    }
    t
}

} // verus!

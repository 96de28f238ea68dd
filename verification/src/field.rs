//! The arithmetic engine: a constructed field with its precomputed tables
//! and the runtime semantics of the field operations.

use vstd::prelude::*;
use vstd::arithmetic::power::pow;
use vstd::arithmetic::power2::pow2;
use crate::poly::pxor;
use crate::poly::pdeg;
use crate::poly::fmul;
use crate::poly::fpow;
use crate::repr::lemma_xor_is_pxor;
use crate::resolve::{FieldSpec, ConstructionError};
use crate::chunk::{ceil_log256, chunk_of, lo_chunks};
use crate::tables::{mul_table_wf, inv_table_wf, mul_cell, build_mul_table, build_inv_table};

verus! {

/// The only error observable after a field exists: every other operation is
/// a total function.
#[derive(Clone, Copy, Debug, PartialEq, Eq, Structural)]
pub enum ArithmeticError {
    /// The divisor is the zero element.
    DivisionByZero,
}

/// A constructed field: the resolved parameters together with the frozen
/// multiplication and inversion tables. Built once, then only read.
pub struct Field {
    /// The resolved field parameters.
    pub params: FieldSpec,
    /// Number of 8-bit chunks a field element decomposes into.
    pub part_count: usize,
    /// Chunked multiplication table, `part_count^2 * 256 * 256` entries.
    pub mul_table: Vec<Vec<Vec<Vec<u64>>>>,
    /// Inversion table, one entry per field element.
    pub inv_table: Vec<u64>,
}

impl Field {
    /// The modulus as a mathematical polynomial.
    pub open spec fn modulus_view(self) -> nat {
        self.params.modulus as nat
    }

    /// The field size as a mathematical value.
    pub open spec fn size_view(self) -> nat {
        self.params.size as nat
    }

    /// Well-formedness: parameters are valid, the degree respects the table
    /// construction policy, and both tables hold exactly what their
    /// specifications say.
    pub open spec fn wf(self) -> bool {
        &&& self.params.valid()
        &&& self.params.p <= 17
        &&& 1 <= self.part_count <= 8
        &&& self.size_view() <= pow2(8 * self.part_count as nat)
        &&& mul_table_wf(self.mul_table@, self.modulus_view(), self.size_view(),
            self.part_count as nat)
        &&& inv_table_wf(self.inv_table@, self.modulus_view(), self.size_view())
    }

    /// Build a field from resolved parameters: plan the chunking and
    /// construct both tables. Degrees above 17 are rejected, as the tables
    /// would grow into the multi-gigabyte range.
    pub fn build(params: FieldSpec) -> (r: Result<Field, ConstructionError>)
        requires
            params.valid(),
        ensures
            match r {
                Ok(f) => f.wf() && f.params == params && params.p <= 17,
                Err(e) => e == ConstructionError::UnsupportedDegree && params.p > 17,
            },
    {
        if params.p > 17 {
            return Err(ConstructionError::UnsupportedDegree);
        }
        proof {
            assert(pow2(17) == 0x20000) by {
                vstd::arithmetic::power2::lemma2_to64();
            }
            crate::poly::lemma_pow2_le(params.p as nat, 17);
        }
        let size_w: usize = params.size as usize;
        let nparts: usize = ceil_log256(size_w);
        proof {
            // The chunk count stays at three or below: 256^3 covers 2^17.
            crate::chunk::lemma_pow256_is_pow2(3);
            assert(pow2(24) == 0x100_0000) by {
                vstd::arithmetic::power2::lemma2_to64();
            }
            if nparts > 3 {
                vstd::arithmetic::power::lemma_pow_increases(256, 3, (nparts - 1) as nat);
            }
            crate::chunk::lemma_pow256_is_pow2(nparts as nat);
            // The modulus has positive degree, so it is at least two.
            crate::poly::lemma_pdeg_bounds(params.modulus as nat);
            assert(pow2(1) == 2) by {
                vstd::arithmetic::power2::lemma2_to64();
            }
            crate::poly::lemma_pow2_le(1, pdeg(params.modulus as nat));
        }
        let mul_table = build_mul_table(params.modulus, params.size, nparts);
        let inv_table = build_inv_table(params.modulus, size_w);
        Ok(Field { params, part_count: nparts, mul_table, inv_table })
    }

    /// Field addition: the coefficient-wise sum, a bitwise exclusive or.
    pub fn add(&self, a: u64, b: u64) -> (r: u64)
        requires
            self.wf(),
            a < self.params.size,
            b < self.params.size,
        ensures
            r as nat == pxor(a as nat, b as nat),
            r < self.params.size,
    {
        proof {
            lemma_xor_is_pxor(a, b);
            crate::poly::lemma_pxor_lt(a as nat, b as nat, self.params.p as nat);
        }
        a ^ b
    }

    /// Field subtraction: in characteristic two it coincides with addition.
    pub fn sub(&self, a: u64, b: u64) -> (r: u64)
        requires
            self.wf(),
            a < self.params.size,
            b < self.params.size,
        ensures
            r as nat == pxor(a as nat, b as nat),
            r < self.params.size,
    {
        self.add(a, b)
    }

    /// Additive inverse: every element is its own negation.
    pub fn neg(&self, a: u64) -> (r: u64)
        requires
            self.wf(),
            a < self.params.size,
        ensures
            r == a,
    {
        a
    }

    /// Extract the `idx`-th 8-bit chunk of an element.
    fn chunk_byte(v: u64, idx: usize) -> (r: u64)
        requires
            idx < 8,
        ensures
            r as nat == chunk_of(v as nat, idx as nat),
            r < 256,
    {
        proof {
            vstd::bits::lemma_u64_shr_is_div(v, (8 * idx) as u64);
            vstd::bits::lemma_u64_low_bits_mask_is_mod(v >> ((8 * idx) as u64), 8);
            vstd::bits::lemma_low_bits_mask_values();
            assert(pow2(8) == 256) by {
                vstd::arithmetic::power2::lemma2_to64();
            }
            vstd::arithmetic::div_mod::lemma_mod_bound(
                ((v >> ((8 * idx) as u64)) as nat) as int,
                256,
            );
        }
        (v >> ((8 * idx) as u64)) & 0xff
    }

    /// Field multiplication: decompose both factors into 8-bit chunks, look
    /// up the product of every pair of shifted chunks, and fold the partial
    /// products together with field addition. Correct because the carry-less
    /// product distributes over the chunk decomposition and reduction
    /// distributes over the fold.
    pub fn mul(&self, a: u64, b: u64) -> (r: u64)
        requires
            self.wf(),
            a < self.params.size,
            b < self.params.size,
        ensures
            r as nat == fmul(self.modulus_view(), a as nat, b as nat),
            r < self.params.size,
    {
        let ghost m = self.modulus_view();
        let ghost size = self.size_view();
        let np = self.part_count;
        let mut acc: u64 = 0;
        let mut i: usize = 0;
        proof {
            crate::chunk::lemma_lo_chunks_zero(a as nat);
            crate::poly::lemma_fmul_zero(m, b as nat);
            crate::poly::lemma_pmul_zero_right(0);
        }
        while i < np
            invariant
                self.wf(),
                a < self.params.size,
                b < self.params.size,
                m == self.modulus_view(),
                size == self.size_view(),
                np == self.part_count,
                i <= np,
                acc as nat == fmul(m, lo_chunks(a as nat, i as nat), b as nat),
            decreases np - i,
        {
            let ai = Self::chunk_byte(a, i);
            let ghost cxs = chunk_of(a as nat, i as nat) * pow2(8 * i as nat);
            proof {
                crate::chunk::lemma_lo_chunks_step(a as nat, i as nat);
                assert(cxs <= a as nat);
                crate::chunk::lemma_lo_chunks_zero(b as nat);
                crate::poly::lemma_fmul_zero(m, cxs);
            }
            let mut inner: u64 = 0;
            let mut j: usize = 0;
            while j < np
                invariant
                    self.wf(),
                    a < self.params.size,
                    b < self.params.size,
                    m == self.modulus_view(),
                    size == self.size_view(),
                    np == self.part_count,
                    i < np,
                    j <= np,
                    ai as nat == chunk_of(a as nat, i as nat),
                    ai < 256,
                    cxs == chunk_of(a as nat, i as nat) * pow2(8 * i as nat),
                    cxs <= a as nat,
                    inner as nat == fmul(m, cxs, lo_chunks(b as nat, j as nat)),
                decreases np - j,
            {
                let bj = Self::chunk_byte(b, j);
                let ghost cys = chunk_of(b as nat, j as nat) * pow2(8 * j as nat);
                proof {
                    crate::chunk::lemma_lo_chunks_step(b as nat, j as nat);
                    assert(cys <= b as nat);
                    // the table holds exactly the field product of the two
                    // shifted chunks
                    assert(crate::tables::mul_slab_ok(
                        self.mul_table@[i as int]@,
                        m,
                        size,
                        i as nat,
                        np as nat,
                    ));
                    assert(crate::tables::mul_plane_ok(
                        self.mul_table@[i as int]@[j as int]@,
                        m,
                        size,
                        i as nat,
                        j as nat,
                    ));
                    assert(crate::tables::mul_row_ok(
                        self.mul_table@[i as int]@[j as int]@[ai as int]@,
                        m,
                        size,
                        i as nat,
                        j as nat,
                        ai as nat,
                    ));
                }
                let cell: u64 = self.mul_table[i][j][ai as usize][bj as usize];
                proof {
                    assert(cell as nat == mul_cell(m, size, i as nat, j as nat, ai as nat,
                        bj as nat));
                    assert(cell as nat == fmul(m, cxs, cys));
                    lemma_xor_is_pxor(inner, cell);
                    crate::poly::lemma_fmul_dist(m, cxs, lo_chunks(b as nat, j as nat), cys);
                }
                inner = inner ^ cell;
                j = j + 1;
            }
            proof {
                // all chunks of b are folded in: the inner sum is the product
                // of the shifted chunk of a with b itself
                crate::chunk::lemma_lo_chunks_all(b as nat, np as nat);
                lemma_xor_is_pxor(acc, inner);
                crate::poly::lemma_fmul_dist_right(m, lo_chunks(a as nat, i as nat), cxs, b as nat);
                crate::chunk::lemma_lo_chunks_step(a as nat, i as nat);
            }
            acc = acc ^ inner;
            i = i + 1;
        }
        proof {
            crate::chunk::lemma_lo_chunks_all(a as nat, np as nat);
            crate::poly::lemma_fmul_bound(m, a as nat, b as nat);
        }
        acc
    }

    /// Field division: fail on a zero divisor, otherwise multiply by the
    /// divisor's inverse from the table. The result is the unique element
    /// whose product with the divisor gives back the dividend.
    pub fn div(&self, a: u64, b: u64) -> (r: Result<u64, ArithmeticError>)
        requires
            self.wf(),
            a < self.params.size,
            b < self.params.size,
        ensures
            match r {
                Err(e) => e == ArithmeticError::DivisionByZero && b == 0,
                Ok(c) => {
                    &&& b != 0
                    &&& c < self.params.size
                    &&& fmul(self.modulus_view(), c as nat, b as nat) == a as nat
                },
            },
    {
        if b == 0 {
            return Err(ArithmeticError::DivisionByZero);
        }
        let ghost m = self.modulus_view();
        proof {
            assert(pow2(17) == 0x20000) by {
                vstd::arithmetic::power2::lemma2_to64();
            }
            crate::poly::lemma_pow2_le(self.params.p as nat, 17);
        }
        let ib: u64 = self.inv_table[b as usize];
        proof {
            assert(self.inv_table@[b as int] == ib);
            assert(1 <= ib < self.params.size && fmul(m, b as nat, ib as nat) == 1);
        }
        let c = self.mul(a, ib);
        proof {
            crate::poly::lemma_fmul_assoc(m, a as nat, ib as nat, b as nat);
            crate::poly::lemma_fmul_comm(m, ib as nat, b as nat);
            crate::poly::lemma_fmul_one(m, a as nat);
        }
        Ok(c)
    }

    /// Exponentiation by squaring, most significant exponent bit first, with
    /// the accumulator starting at the multiplicative identity; the zeroth
    /// power of every element is one.
    pub fn pow(&self, a: u64, n: usize) -> (r: u64)
        requires
            self.wf(),
            a < self.params.size,
        ensures
            r as nat == fpow(self.modulus_view(), a as nat, n as nat),
            r < self.params.size,
    {
        let ghost m = self.modulus_view();
        let e: u64 = n as u64;
        let mut val: u64 = 1;
        let mut k: u64 = 64;
        proof {
            assert(pow2(64) == 0x1_0000_0000_0000_0000) by {
                vstd::arithmetic::power2::lemma2_to64_rest();
            }
            vstd::arithmetic::div_mod::lemma_basic_div_specific_divisor(pow2(64) as int);
            assert(e as nat / pow2(64) == 0);
            // one is a valid element: the field has at least two elements
            crate::poly::lemma_pow2_le(1, self.params.p as nat);
            assert(pow2(1) == 2) by {
                vstd::arithmetic::power2::lemma2_to64();
            }
        }
        while k > 0
            invariant
                self.wf(),
                a < self.params.size,
                m == self.modulus_view(),
                k <= 64,
                e == n as u64,
                val as nat == fpow(m, a as nat, e as nat / pow2(k as nat)),
                val < self.params.size,
            decreases k,
        {
            k = k - 1;
            let ghost q1 = e as nat / pow2(k as nat + 1);
            let ghost q2 = e as nat / pow2(k as nat);
            proof {
                vstd::arithmetic::power2::lemma_pow2_unfold(k as nat + 1);
                vstd::arithmetic::power2::lemma_pow2_pos(k as nat);
                vstd::arithmetic::div_mod::lemma_div_denominator(
                    e as int,
                    pow2(k as nat) as int,
                    2,
                );
                assert(q2 / 2 == q1);
                vstd::arithmetic::div_mod::lemma_fundamental_div_mod(q2 as int, 2);
                // the tested bit is exactly the parity of e / 2^k
                vstd::bits::lemma_u64_shr_is_div(e, k);
                vstd::bits::lemma_u64_low_bits_mask_is_mod(e >> k, 1);
                vstd::bits::lemma_low_bits_mask_values();
                assert(pow2(1) == 2) by {
                    vstd::arithmetic::power2::lemma2_to64();
                }
                // squaring doubles the exponent
                crate::poly::lemma_fpow_add(m, a as nat, q1, q1);
            }
            val = self.mul(val, val);
            if (e >> k) & 1 == 1 {
                proof {
                    assert(q2 == 2 * q1 + 1);
                    assert(fpow(m, a as nat, q2) == fmul(m, fpow(m, a as nat, (q2 - 1) as nat),
                        a as nat));
                }
                val = self.mul(val, a);
            } else {
                proof {
                    assert(q2 == 2 * q1);
                }
            }
        }
        proof {
            assert(pow2(0) == 1) by {
                vstd::arithmetic::power2::lemma2_to64();
            }
            assert(e as nat / 1 == e as nat) by (nonlinear_arith);
        }
        val
    }

    /// Convert an integer to a field element by masking it to the field's
    /// bit width.
    pub fn from_int(&self, v: u64) -> (r: u64)
        requires
            self.wf(),
        ensures
            r as nat == v as nat % self.size_view(),
            r < self.params.size,
            v < self.params.size ==> r == v,
    {
        proof {
            vstd::bits::lemma_u64_low_bits_mask_is_mod(v, self.params.p as nat);
            assert(vstd::bits::low_bits_mask(self.params.p as nat)
                == (self.params.size - 1) as nat);
            vstd::arithmetic::power2::lemma_pow2_pos(self.params.p as nat);
            vstd::arithmetic::div_mod::lemma_mod_bound(v as int, self.params.size as int);
            if v < self.params.size {
                vstd::arithmetic::div_mod::lemma_small_mod(v as nat, self.size_view());
            }
        }
        v & (self.params.size - 1)
    }
}

/// Field sum of a finite sequence: left fold of field addition over the
/// additive identity. An empty sequence yields zero.
pub open spec fn xor_fold(s: Seq<u64>) -> nat
    decreases s.len(),
{
    if s.len() == 0 {
        0
    } else {
        pxor(xor_fold(s.drop_last()), s.last() as nat)
    }
}

/// Field product of a finite sequence: left fold of field multiplication
/// over the multiplicative identity. An empty sequence yields one.
pub open spec fn mul_fold(m: nat, s: Seq<u64>) -> nat
    decreases s.len(),
{
    if s.len() == 0 {
        1
    } else {
        fmul(m, mul_fold(m, s.drop_last()), s.last() as nat)
    }
}

impl Field {
    /// Sum of a sequence of field elements.
    pub fn sum(&self, xs: &Vec<u64>) -> (r: u64)
        requires
            self.wf(),
            forall|idx: int| 0 <= idx < xs@.len() ==> #[trigger] xs@[idx] < self.params.size,
        ensures
            r as nat == xor_fold(xs@),
            r < self.params.size,
    {
        let mut acc: u64 = 0;
        let mut i: usize = 0;
        proof {
            assert(xs@.subrange(0, 0) =~= Seq::<u64>::empty());
        }
        while i < xs.len()
            invariant
                self.wf(),
                forall|idx: int| 0 <= idx < xs@.len() ==> #[trigger] xs@[idx] < self.params.size,
                i <= xs@.len(),
                acc as nat == xor_fold(xs@.subrange(0, i as int)),
                acc < self.params.size,
            decreases xs@.len() - i,
    {
            let x = xs[i];
            proof {
                assert(xs@.subrange(0, i + 1).drop_last() =~= xs@.subrange(0, i as int));
                assert(xs@.subrange(0, i + 1).last() == xs@[i as int]);
            }
            acc = self.add(acc, x);
            i = i + 1;
        }
        proof {
            assert(xs@.subrange(0, xs@.len() as int) =~= xs@);
        }
        acc
    }

    /// Product of a sequence of field elements.
    pub fn product(&self, xs: &Vec<u64>) -> (r: u64)
        requires
            self.wf(),
            forall|idx: int| 0 <= idx < xs@.len() ==> #[trigger] xs@[idx] < self.params.size,
        ensures
            r as nat == mul_fold(self.modulus_view(), xs@),
            r < self.params.size,
    {
        let ghost m = self.modulus_view();
        let mut acc: u64 = 1;
        let mut i: usize = 0;
        proof {
            assert(xs@.subrange(0, 0) =~= Seq::<u64>::empty());
            crate::poly::lemma_pow2_le(1, self.params.p as nat);
            assert(pow2(1) == 2) by {
                vstd::arithmetic::power2::lemma2_to64();
            }
        }
        while i < xs.len()
            invariant
                self.wf(),
                m == self.modulus_view(),
                forall|idx: int| 0 <= idx < xs@.len() ==> #[trigger] xs@[idx] < self.params.size,
                i <= xs@.len(),
                acc as nat == mul_fold(m, xs@.subrange(0, i as int)),
                acc < self.params.size,
            decreases xs@.len() - i,
        {
            let x = xs[i];
            proof {
                assert(xs@.subrange(0, i + 1).drop_last() =~= xs@.subrange(0, i as int));
                assert(xs@.subrange(0, i + 1).last() == xs@[i as int]);
            }
            acc = self.mul(acc, x);
            i = i + 1;
        }
        proof {
            assert(xs@.subrange(0, xs@.len() as int) =~= xs@);
        }
        acc
    }
}

} // verus!

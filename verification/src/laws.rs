//! The algebraic laws of a constructed field, stated over the same
//! specification functions that the operation contracts use: `pxor` for
//! addition and subtraction, `fmul` for multiplication and division, and
//! `fpow` for exponentiation.

use vstd::prelude::*;
use vstd::arithmetic::power2::pow2;
use crate::poly::{pxor, pdeg, fmul, fpow};
use crate::resolve::FieldSpec;
use crate::field::mul_fold;

verus! {

/// Field axioms. For all elements `a`, `b`, `c` of a valid field: addition
/// is associative and commutative, zero is its identity, every element is
/// its own additive inverse, multiplication is associative and commutative,
/// one is its identity, zero absorbs, multiplication distributes over
/// addition, and both operations stay inside the field.
pub proof fn lemma_field_axioms(fs: FieldSpec, a: nat, b: nat, c: nat)
    requires
        fs.valid(),
        a < fs.size,
        b < fs.size,
        c < fs.size,
    ensures
        pxor(pxor(a, b), c) == pxor(a, pxor(b, c)),
        pxor(a, b) == pxor(b, a),
        pxor(a, 0) == a,
        pxor(a, a) == 0,
        pxor(a, b) < fs.size,
        fmul(fs.modulus as nat, fmul(fs.modulus as nat, a, b), c) == fmul(
            fs.modulus as nat,
            a,
            fmul(fs.modulus as nat, b, c),
        ),
        fmul(fs.modulus as nat, a, b) == fmul(fs.modulus as nat, b, a),
        fmul(fs.modulus as nat, a, 1) == a,
        fmul(fs.modulus as nat, a, 0) == 0,
        fmul(fs.modulus as nat, a, pxor(b, c)) == pxor(
            fmul(fs.modulus as nat, a, b),
            fmul(fs.modulus as nat, a, c),
        ),
        fmul(fs.modulus as nat, a, b) < fs.size,
{
    let m = fs.modulus as nat;
    crate::poly::lemma_pdeg_bounds(m);
    crate::poly::lemma_pxor_assoc(a, b, c);
    crate::poly::lemma_pxor_comm(a, b);
    crate::poly::lemma_pxor_zero_iff(a, a);
    crate::poly::lemma_pxor_lt(a, b, fs.p as nat);
    crate::poly::lemma_fmul_assoc(m, a, b, c);
    crate::poly::lemma_fmul_comm(m, a, b);
    crate::poly::lemma_fmul_one(m, a);
    crate::poly::lemma_fmul_zero(m, a);
    crate::poly::lemma_fmul_dist(m, a, b, c);
    crate::poly::lemma_fmul_bound(m, a, b);
}

/// The inverse law. If `binv` is an inverse of `b` — as every entry of a
/// well-formed inversion table is — then dividing by `b` and multiplying by
/// `b` gives back the dividend: `(a / b) * b == a`.
pub proof fn lemma_inverse_law(fs: FieldSpec, a: nat, b: nat, binv: nat)
    requires
        fs.valid(),
        a < fs.size,
        b < fs.size,
        fmul(fs.modulus as nat, b, binv) == 1,
    ensures
        fmul(fs.modulus as nat, fmul(fs.modulus as nat, a, binv), b) == a,
{
    let m = fs.modulus as nat;
    crate::poly::lemma_pdeg_bounds(m);
    crate::poly::lemma_fmul_assoc(m, a, binv, b);
    crate::poly::lemma_fmul_comm(m, binv, b);
    crate::poly::lemma_fmul_one(m, a);
}

/// Division is unique: when `b` has an inverse, two elements whose products
/// with `b` agree are equal. In particular the result of `div` is the only
/// element whose product with the divisor gives the dividend, and `b / b`
/// can only be one.
pub proof fn lemma_division_unique(fs: FieldSpec, b: nat, binv: nat, c1: nat, c2: nat)
    requires
        fs.valid(),
        b < fs.size,
        c1 < fs.size,
        c2 < fs.size,
        fmul(fs.modulus as nat, b, binv) == 1,
        fmul(fs.modulus as nat, c1, b) == fmul(fs.modulus as nat, c2, b),
    ensures
        c1 == c2,
{
    let m = fs.modulus as nat;
    crate::poly::lemma_pdeg_bounds(m);
    crate::poly::lemma_fmul_assoc(m, c1, b, binv);
    crate::poly::lemma_fmul_assoc(m, c2, b, binv);
    crate::poly::lemma_fmul_one(m, c1);
    crate::poly::lemma_fmul_one(m, c2);
}

/// Dividing an element by itself gives one: the result `c` of `b / b`
/// satisfies `c * b == b`, and one is the only element that does.
pub proof fn lemma_self_division(fs: FieldSpec, b: nat, binv: nat, c: nat)
    requires
        fs.valid(),
        b < fs.size,
        c < fs.size,
        fmul(fs.modulus as nat, b, binv) == 1,
        fmul(fs.modulus as nat, c, b) == b,
    ensures
        c == 1,
{
    let m = fs.modulus as nat;
    crate::poly::lemma_pdeg_bounds(m);
    crate::poly::lemma_pow2_le(1, fs.p as nat);
    assert(pow2(1) == 2) by {
        vstd::arithmetic::power2::lemma2_to64();
    }
    crate::poly::lemma_fmul_one(m, b);
    lemma_division_unique(fs, b, binv, c, 1);
}

/// The generator's multiplicative order is the full group order: its
/// `(size - 1)`-th power is one and no smaller positive power is.
pub proof fn lemma_generator_order(fs: FieldSpec)
    requires
        fs.valid(),
    ensures
        fpow(fs.modulus as nat, fs.generator as nat, (fs.size - 1) as nat) == 1,
        forall|k: nat|
            1 <= k < fs.size - 1 ==> fpow(fs.modulus as nat, fs.generator as nat, k) != 1,
{
    assert(pow2(pdeg(fs.modulus as nat)) == fs.size as nat) by {
        assert(pdeg(fs.modulus as nat) == fs.p as nat);
    }
}

/// Exponentiation is repeated multiplication: the zeroth power is one, the
/// first power is the element itself, and the `n`-th power is the field
/// product of `n` copies of the element.
pub proof fn lemma_pow_is_repeated_mul(fs: FieldSpec, a: nat, av: u64, n: nat)
    requires
        fs.valid(),
        a < fs.size,
        av as nat == a,
    ensures
        fpow(fs.modulus as nat, a, 0) == 1,
        fpow(fs.modulus as nat, a, 1) == a,
        fpow(fs.modulus as nat, a, n) == mul_fold(fs.modulus as nat, Seq::new(n, |i: int| av)),
    decreases n,
{
    let m = fs.modulus as nat;
    crate::poly::lemma_pdeg_bounds(m);
    crate::poly::lemma_fmul_one(m, a);
    if n == 0 {
        assert(Seq::new(0, |i: int| av) =~= Seq::<u64>::empty());
    } else {
        lemma_pow_is_repeated_mul(fs, a, av, (n - 1) as nat);
        let s = Seq::new(n, |i: int| av);
        assert(s.drop_last() =~= Seq::new((n - 1) as nat, |i: int| av));
        assert(s.last() == av);
    }
}

} // verus!

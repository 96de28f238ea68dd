//! Polynomials over GF(2), encoded as unsigned integers.
//!
//! Bit `i` of the encoding is the coefficient of `x^i`. This module gives the
//! mathematical model: coefficient-wise sum (`pxor`), carry-less product
//! (`pmul`), degree (`pdeg`) and remainder (`pmod`), together with the ring
//! laws that the field arithmetic is proved against.

use vstd::prelude::*;
use vstd::arithmetic::power2::{pow2, lemma_pow2_unfold, lemma_pow2_pos, lemma_pow2_adds, lemma_pow2_strictly_increases};

verus! {

/// Coefficient-wise sum of two GF(2)[x] polynomials: bitwise exclusive or.
pub open spec fn pxor(a: nat, b: nat) -> nat
    decreases a + b,
{
    if a == 0 {
        b
    } else if b == 0 {
        a
    } else {
        2 * pxor(a / 2, b / 2) + (if a % 2 == b % 2 { 0nat } else { 1nat })
    }
}

/// Carry-less product of two GF(2)[x] polynomials.
pub open spec fn pmul(a: nat, b: nat) -> nat
    decreases a,
{
    if a == 0 {
        0
    } else {
        pxor(if a % 2 == 1 { b } else { 0nat }, 2 * pmul(a / 2, b))
    }
}

/// Degree of a nonzero polynomial: the index of its highest set bit.
/// The zero polynomial is mapped to 0 by convention.
pub open spec fn pdeg(a: nat) -> nat
    decreases a,
{
    if a <= 1 {
        0
    } else {
        1 + pdeg(a / 2)
    }
}

/// A nonzero polynomial lies between its top power of two and the next one.
pub proof fn lemma_pdeg_bounds(a: nat)
    requires
        a >= 1,
    ensures
        pow2(pdeg(a)) <= a < 2 * pow2(pdeg(a)),
    decreases a,
{
    if a <= 1 {
        assert(pow2(0) == 1) by {
            vstd::arithmetic::power2::lemma2_to64();
        }
    } else {
        lemma_pdeg_bounds(a / 2);
        lemma_pow2_unfold(pdeg(a));
    }
}

/// Any value in `[2^d, 2^(d+1))` has degree exactly `d`.
pub proof fn lemma_pdeg_of_range(a: nat, d: nat)
    requires
        pow2(d) <= a < 2 * pow2(d),
    ensures
        pdeg(a) == d,
    decreases d,
{
    lemma_pow2_pos(d);
    if d == 0 {
        assert(pow2(0) == 1) by {
            vstd::arithmetic::power2::lemma2_to64();
        }
    } else {
        lemma_pow2_unfold(d);
        assert(pow2((d - 1) as nat) <= a / 2 < 2 * pow2((d - 1) as nat));
        lemma_pdeg_of_range(a / 2, (d - 1) as nat);
        assert(a >= 2);
    }
}

/// Degree is monotone with respect to the powers of two below a value.
pub proof fn lemma_pdeg_ge(a: nat, k: nat)
    requires
        pow2(k) <= a,
    ensures
        pdeg(a) >= k,
{
    lemma_pow2_pos(k);
    lemma_pdeg_bounds(a);
    if pdeg(a) < k {
        lemma_pow2_unfold(k);
        if pdeg(a) < k - 1 {
            lemma_pow2_strictly_increases(pdeg(a), (k - 1) as nat);
        }
        assert(2 * pow2(pdeg(a)) <= 2 * pow2((k - 1) as nat));
        assert(a < pow2(k));
    }
}

/// Doubling a nonzero polynomial raises its degree by one.
pub proof fn lemma_pdeg_double(a: nat)
    requires
        a >= 1,
    ensures
        pdeg(2 * a) == 1 + pdeg(a),
{
    assert(2 * a >= 2);
    assert((2 * a) / 2 == a);
}

/// Degree of a polynomial shifted up by `s` positions.
pub proof fn lemma_pdeg_mul_pow2(m: nat, s: nat)
    requires
        m >= 1,
    ensures
        m * pow2(s) >= 1,
        pdeg(m * pow2(s)) == pdeg(m) + s,
    decreases s,
{
    lemma_pow2_pos(s);
    if s == 0 {
        assert(pow2(0) == 1) by {
            vstd::arithmetic::power2::lemma2_to64();
        }
    } else {
        lemma_pdeg_mul_pow2(m, (s - 1) as nat);
        lemma_pow2_unfold(s);
        assert(m * pow2(s) == 2 * (m * pow2((s - 1) as nat))) by (nonlinear_arith)
            requires pow2(s) == 2 * pow2((s - 1) as nat),
        ;
        lemma_pdeg_double(m * pow2((s - 1) as nat));
    }
}

/// Exclusive or never leaves the power-of-two range of its larger operand.
pub proof fn lemma_pxor_lt(a: nat, b: nat, n: nat)
    requires
        a < pow2(n),
        b < pow2(n),
    ensures
        pxor(a, b) < pow2(n),
    decreases n,
{
    lemma_pow2_pos(n);
    if a == 0 || b == 0 {
    } else {
        assert(n >= 1) by {
            if n == 0 {
                assert(pow2(0) == 1) by {
                    vstd::arithmetic::power2::lemma2_to64();
                }
            }
        }
        lemma_pow2_unfold(n);
        lemma_pxor_lt(a / 2, b / 2, (n - 1) as nat);
    }
}

/// Exclusive or of two values with the same top bit clears that bit.
pub proof fn lemma_pxor_same_top(a: nat, b: nat, d: nat)
    requires
        pow2(d) <= a < 2 * pow2(d),
        pow2(d) <= b < 2 * pow2(d),
    ensures
        pxor(a, b) < pow2(d),
    decreases d,
{
    lemma_pow2_pos(d);
    if d == 0 {
        assert(pow2(0) == 1) by {
            vstd::arithmetic::power2::lemma2_to64();
        }
        assert(a == 1 && b == 1);
        assert(pxor(1, 1) == 2 * pxor(0, 0));
    } else {
        lemma_pow2_unfold(d);
        assert(pow2((d - 1) as nat) <= a / 2 < 2 * pow2((d - 1) as nat));
        assert(pow2((d - 1) as nat) <= b / 2 < 2 * pow2((d - 1) as nat));
        lemma_pxor_same_top(a / 2, b / 2, (d - 1) as nat);
        assert(a >= 2 && b >= 2);
        assert(pxor(a, b) <= 2 * pxor(a / 2, b / 2) + 1);
    }
}

/// Monotonicity of `pow2` in non-strict form.
pub proof fn lemma_pow2_le(e1: nat, e2: nat)
    requires
        e1 <= e2,
    ensures
        pow2(e1) <= pow2(e2),
{
    if e1 < e2 {
        lemma_pow2_strictly_increases(e1, e2);
    }
}

/// The sum of two polynomials is zero exactly when they are equal.
pub proof fn lemma_pxor_zero_iff(a: nat, b: nat)
    ensures
        (pxor(a, b) == 0) <==> (a == b),
    decreases a + b,
{
    if a == 0 || b == 0 {
    } else {
        lemma_pxor_zero_iff(a / 2, b / 2);
    }
}

/// Coefficient-wise sum is commutative.
pub proof fn lemma_pxor_comm(a: nat, b: nat)
    ensures
        pxor(a, b) == pxor(b, a),
    decreases a + b,
{
    if a == 0 || b == 0 {
    } else {
        lemma_pxor_comm(a / 2, b / 2);
    }
}

/// Adding a polynomial twice cancels it out.
pub proof fn lemma_pxor_cancel(a: nat, c: nat)
    ensures
        pxor(a, pxor(a, c)) == c,
    decreases a + c,
{
    if a == 0 {
    } else if c == 0 {
        lemma_pxor_zero_iff(a, a);
    } else if pxor(a, c) == 0 {
        lemma_pxor_zero_iff(a, c);
    } else {
        lemma_pxor_cancel(a / 2, c / 2);
    }
}

/// Coefficient-wise sum is associative.
pub proof fn lemma_pxor_assoc(a: nat, b: nat, c: nat)
    ensures
        pxor(pxor(a, b), c) == pxor(a, pxor(b, c)),
    decreases a + b + c,
{
    if a == 0 || b == 0 || c == 0 {
    } else {
        let ab = pxor(a, b);
        let bc = pxor(b, c);
        if ab == 0 && bc == 0 {
            lemma_pxor_zero_iff(a, b);
            lemma_pxor_zero_iff(b, c);
        } else if ab == 0 {
            lemma_pxor_zero_iff(a, b);
            lemma_pxor_cancel(a, c);
        } else if bc == 0 {
            lemma_pxor_zero_iff(b, c);
            lemma_pxor_comm(a, b);
            lemma_pxor_comm(pxor(b, a), b);
            lemma_pxor_cancel(b, a);
        } else {
            lemma_pxor_assoc(a / 2, b / 2, c / 2);
        }
    }
}

/// Swapping the middle operands of a double sum.
pub proof fn lemma_pxor_exchange(x: nat, y: nat, u: nat, v: nat)
    ensures
        pxor(pxor(x, y), pxor(u, v)) == pxor(pxor(x, u), pxor(y, v)),
{
    lemma_pxor_assoc(x, y, pxor(u, v));
    lemma_pxor_comm(u, v);
    lemma_pxor_assoc(y, v, u);
    lemma_pxor_comm(pxor(y, v), u);
    lemma_pxor_assoc(x, u, pxor(y, v));
}

/// Doubling distributes over the coefficient-wise sum.
pub proof fn lemma_pxor_double(a: nat, b: nat)
    ensures
        pxor(2 * a, 2 * b) == 2 * pxor(a, b),
{
    if a == 0 || b == 0 {
    } else {
        assert((2 * a) / 2 == a && (2 * b) / 2 == b);
        assert((2 * a) % 2 == 0 && (2 * b) % 2 == 0);
    }
}

/// When the summands occupy disjoint bit ranges, the sum is ordinary addition.
pub proof fn lemma_pxor_disjoint(a: nat, b: nat, n: nat)
    requires
        a < pow2(n),
        b % pow2(n) == 0,
    ensures
        pxor(a, b) == a + b,
    decreases n,
{
    lemma_pow2_pos(n);
    if n == 0 {
        assert(pow2(0) == 1) by {
            vstd::arithmetic::power2::lemma2_to64();
        }
    } else if a == 0 || b == 0 {
    } else {
        lemma_pow2_unfold(n);
        let h = pow2((n - 1) as nat);
        assert(pow2(n) == 2 * h);
        let q = b / (2 * h);
        assert(b == (2 * h) * q) by {
            vstd::arithmetic::div_mod::lemma_fundamental_div_mod(b as int, (2 * h) as int);
        }
        assert(b == 2 * (h * q)) by (nonlinear_arith)
            requires b == (2 * h) * q,
        ;
        assert(b % 2 == 0);
        assert(b / 2 == h * q);
        assert((h * q) % h == 0) by {
            vstd::arithmetic::div_mod::lemma_mod_multiples_basic(q as int, h as int);
            vstd::arithmetic::mul::lemma_mul_is_commutative(h as int, q as int);
        }
        lemma_pxor_disjoint(a / 2, b / 2, (n - 1) as nat);
    }
}

/// The product with zero on the right is zero.
pub proof fn lemma_pmul_zero_right(a: nat)
    ensures
        pmul(a, 0) == 0,
    decreases a,
{
    if a == 0 {
    } else {
        lemma_pmul_zero_right(a / 2);
    }
}

/// One is the multiplicative identity.
pub proof fn lemma_pmul_one(a: nat)
    ensures
        pmul(1, a) == a,
        pmul(a, 1) == a,
    decreases a,
{
    assert(pmul(1, a) == pxor(a, 2 * pmul(0, a)));
    assert(pxor(a, 0) == a);
    if a == 0 {
    } else {
        lemma_pmul_one(a / 2);
        assert(pmul(a, 1) == pxor(if a % 2 == 1 { 1nat } else { 0nat }, 2 * pmul(a / 2, 1)));
        assert(pow2(1) == 2) by {
            vstd::arithmetic::power2::lemma2_to64();
        }
        lemma_pxor_comm(if a % 2 == 1 { 1nat } else { 0nat }, 2 * (a / 2));
        lemma_pxor_disjoint(if a % 2 == 1 { 1nat } else { 0nat }, 2 * (a / 2), 1);
    }
}

/// Doubling the left factor doubles the product.
pub proof fn lemma_pmul_double_left(a: nat, b: nat)
    ensures
        pmul(2 * a, b) == 2 * pmul(a, b),
{
    if a == 0 {
    } else {
        assert((2 * a) / 2 == a && (2 * a) % 2 == 0);
        assert(pmul(2 * a, b) == pxor(0, 2 * pmul(a, b)));
    }
}

/// Doubling the right factor doubles the product.
pub proof fn lemma_pmul_double_right(a: nat, b: nat)
    ensures
        pmul(a, 2 * b) == 2 * pmul(a, b),
    decreases a,
{
    if a == 0 {
    } else {
        lemma_pmul_double_right(a / 2, b);
        let low: nat = if a % 2 == 1 { b } else { 0nat };
        let low2: nat = if a % 2 == 1 { 2 * b } else { 0nat };
        assert(low2 == 2 * low);
        assert(pmul(a, 2 * b) == pxor(low2, 2 * (2 * pmul(a / 2, b))));
        lemma_pxor_double(low, 2 * pmul(a / 2, b));
    }
}

/// The product distributes over the coefficient-wise sum on the left factor's
/// side of the recursion.
pub proof fn lemma_pmul_dist_left(a: nat, b: nat, c: nat)
    ensures
        pmul(a, pxor(b, c)) == pxor(pmul(a, b), pmul(a, c)),
    decreases a,
{
    if a == 0 {
    } else {
        lemma_pmul_dist_left(a / 2, b, c);
        let lb: nat = if a % 2 == 1 { b } else { 0nat };
        let lc: nat = if a % 2 == 1 { c } else { 0nat };
        let lbc: nat = if a % 2 == 1 { pxor(b, c) } else { 0nat };
        assert(lbc == pxor(lb, lc));
        let hb = 2 * pmul(a / 2, b);
        let hc = 2 * pmul(a / 2, c);
        assert(pmul(a, pxor(b, c)) == pxor(lbc, 2 * pmul(a / 2, pxor(b, c))));
        lemma_pxor_double(pmul(a / 2, b), pmul(a / 2, c));
        assert(2 * pmul(a / 2, pxor(b, c)) == pxor(hb, hc));
        lemma_pxor_exchange(lb, lc, hb, hc);
        assert(pxor(pxor(lb, lc), pxor(hb, hc)) == pxor(pxor(lb, hb), pxor(lc, hc)));
    }
}

/// Unfold the product along the bits of the right factor.
pub proof fn lemma_pmul_right_unfold(a: nat, b: nat)
    requires
        b >= 1,
    ensures
        pmul(a, b) == pxor(if b % 2 == 1 { a } else { 0nat }, 2 * pmul(a, b / 2)),
{
    let b0: nat = if b % 2 == 1 { 1nat } else { 0nat };
    assert(pow2(1) == 2) by {
        vstd::arithmetic::power2::lemma2_to64();
    }
    lemma_pxor_disjoint(b0, 2 * (b / 2), 1);
    assert(b == pxor(b0, 2 * (b / 2)));
    lemma_pmul_dist_left(a, b0, 2 * (b / 2));
    lemma_pmul_double_right(a, b / 2);
    lemma_pmul_one(a);
    lemma_pmul_zero_right(a);
}

/// The carry-less product is commutative.
pub proof fn lemma_pmul_comm(a: nat, b: nat)
    ensures
        pmul(a, b) == pmul(b, a),
    decreases b,
{
    if b == 0 {
        lemma_pmul_zero_right(a);
    } else {
        lemma_pmul_comm(a, b / 2);
        lemma_pmul_right_unfold(a, b);
    }
}

/// The product distributes over the coefficient-wise sum of left factors.
pub proof fn lemma_pmul_dist_right(a: nat, b: nat, c: nat)
    ensures
        pmul(pxor(a, b), c) == pxor(pmul(a, c), pmul(b, c)),
{
    lemma_pmul_comm(pxor(a, b), c);
    lemma_pmul_dist_left(c, a, b);
    lemma_pmul_comm(a, c);
    lemma_pmul_comm(b, c);
}

/// The carry-less product is associative.
pub proof fn lemma_pmul_assoc(a: nat, b: nat, c: nat)
    ensures
        pmul(pmul(a, b), c) == pmul(a, pmul(b, c)),
    decreases a,
{
    if a == 0 {
    } else {
        lemma_pmul_assoc(a / 2, b, c);
        let lb: nat = if a % 2 == 1 { b } else { 0nat };
        assert(pmul(a, b) == pxor(lb, 2 * pmul(a / 2, b)));
        lemma_pmul_dist_right(lb, 2 * pmul(a / 2, b), c);
        lemma_pmul_double_left(pmul(a / 2, b), c);
        assert(pmul(lb, c) == (if a % 2 == 1 { pmul(b, c) } else { 0nat }));
        assert(pmul(pmul(a, b), c) == pxor(
            if a % 2 == 1 { pmul(b, c) } else { 0nat },
            2 * pmul(a / 2, pmul(b, c)),
        ));
    }
}

/// Multiplying by a power of two is a left shift.
pub proof fn lemma_pmul_pow2(s: nat, b: nat)
    ensures
        pmul(pow2(s), b) == pow2(s) * b,
    decreases s,
{
    lemma_pow2_pos(s);
    if s == 0 {
        assert(pow2(0) == 1) by {
            vstd::arithmetic::power2::lemma2_to64();
        }
        lemma_pmul_one(b);
    } else {
        lemma_pmul_pow2((s - 1) as nat, b);
        lemma_pow2_unfold(s);
        let h = pow2((s - 1) as nat);
        assert(pmul(2 * h, b) == 2 * pmul(h, b)) by {
            lemma_pmul_double_left(h, b);
        }
        assert(2 * (h * b) == (2 * h) * b) by (nonlinear_arith);
    }
}

/// Sum with a strictly higher-degree polynomial keeps the latter's top bit.
pub proof fn lemma_pxor_keeps_top(x: nat, y: nat, d: nat)
    requires
        x < pow2(d),
        pow2(d) <= y < 2 * pow2(d),
    ensures
        pow2(d) <= pxor(x, y) < 2 * pow2(d),
    decreases d,
{
    lemma_pow2_pos(d);
    if x == 0 {
    } else if d == 0 {
        assert(pow2(0) == 1) by {
            vstd::arithmetic::power2::lemma2_to64();
        }
    } else {
        lemma_pow2_unfold(d);
        assert(x / 2 < pow2((d - 1) as nat));
        assert(pow2((d - 1) as nat) <= y / 2 < 2 * pow2((d - 1) as nat));
        lemma_pxor_keeps_top(x / 2, y / 2, (d - 1) as nat);
        assert(y >= 2);
        assert(pxor(x, y) == 2 * pxor(x / 2, y / 2) + (if x % 2 == y % 2 { 0nat } else { 1nat }));
    }
}

/// Degrees add under the carry-less product of nonzero polynomials.
pub proof fn lemma_pmul_deg(a: nat, b: nat)
    requires
        a >= 1,
        b >= 1,
    ensures
        pmul(a, b) >= 1,
        pdeg(pmul(a, b)) == pdeg(a) + pdeg(b),
    decreases a,
{
    if a == 1 {
        lemma_pmul_one(b);
    } else {
        lemma_pmul_deg(a / 2, b);
        let x = pmul(a / 2, b);
        lemma_pdeg_double(x);
        let d = pdeg(2 * x);
        assert(d == 1 + pdeg(a / 2) + pdeg(b));
        lemma_pdeg_bounds(2 * x);
        lemma_pdeg_bounds(b);
        let lb: nat = if a % 2 == 1 { b } else { 0nat };
        assert(lb < pow2(d)) by {
            lemma_pow2_unfold((pdeg(b) + 1) as nat);
            assert(b < pow2(pdeg(b) + 1));
            lemma_pow2_le(pdeg(b) + 1, d);
        }
        lemma_pxor_keeps_top(lb, 2 * x, d);
        lemma_pdeg_of_range(pxor(lb, 2 * x), d);
        assert(pmul(a, b) == pxor(lb, 2 * x));
        lemma_pow2_pos(d);
    }
}

/// Polynomial remainder: repeatedly clear the top bit with a shifted copy of
/// the modulus until the value fits below `2^pdeg(m)`.
pub open spec fn pmod(a: nat, m: nat) -> nat
    recommends
        m >= 1,
    decreases a,
    when m >= 1
    via pmod_decreases
{
    if a < pow2(pdeg(m)) {
        a
    } else {
        pmod(pxor(a, m * pow2((pdeg(a) - pdeg(m)) as nat)), m)
    }
}

#[via_fn]
proof fn pmod_decreases(a: nat, m: nat) {
    if a >= pow2(pdeg(m)) {
        lemma_pmod_step(a, m);
    }
}

/// One reduction step of `pmod` strictly shrinks the value.
pub proof fn lemma_pmod_step(a: nat, m: nat)
    requires
        m >= 1,
        a >= pow2(pdeg(m)),
    ensures
        pxor(a, m * pow2((pdeg(a) - pdeg(m)) as nat)) < pow2(pdeg(a)),
        pow2(pdeg(a)) <= a,
{
    lemma_pow2_pos(pdeg(m));
    lemma_pdeg_ge(a, pdeg(m));
    let s = (pdeg(a) - pdeg(m)) as nat;
    lemma_pdeg_mul_pow2(m, s);
    lemma_pdeg_bounds(a);
    lemma_pdeg_bounds(m);
    let t = m * pow2(s);
    assert(pdeg(t) == pdeg(a));
    lemma_pdeg_bounds(t);
    lemma_pxor_same_top(a, t, pdeg(a));
}

/// The remainder is always below the modulus's top power of two.
pub proof fn lemma_pmod_bound(a: nat, m: nat)
    requires
        m >= 1,
    ensures
        pmod(a, m) < pow2(pdeg(m)),
    decreases a,
{
    if a < pow2(pdeg(m)) {
    } else {
        lemma_pmod_step(a, m);
        lemma_pmod_bound(pxor(a, m * pow2((pdeg(a) - pdeg(m)) as nat)), m);
    }
}

/// A value and its remainder differ by a multiple of the modulus.
pub proof fn lemma_pmod_cong(a: nat, m: nat)
    requires
        m >= 1,
    ensures
        exists|q: nat| pxor(a, pmod(a, m)) == pmul(q, m),
    decreases a,
{
    if a < pow2(pdeg(m)) {
        lemma_pxor_zero_iff(a, a);
        assert(pxor(a, pmod(a, m)) == pmul(0, m));
    } else {
        lemma_pmod_step(a, m);
        let s = (pdeg(a) - pdeg(m)) as nat;
        let t = m * pow2(s);
        let a2 = pxor(a, t);
        lemma_pmod_cong(a2, m);
        let q2 = choose|q2: nat| pxor(a2, pmod(a2, m)) == pmul(q2, m);
        let r = pmod(a, m);
        assert(pmod(a2, m) == r);
        // a == pxor(a2, t)
        lemma_pxor_comm(a, t);
        lemma_pxor_cancel(t, a);
        assert(pxor(t, pxor(t, a)) == a);
        lemma_pxor_comm(t, a);
        assert(pxor(t, a2) == a);
        lemma_pxor_comm(t, a2);
        // pxor(a, r) == pxor(pxor(a2, t), r) == pxor(t, pxor(a2, r))
        lemma_pxor_assoc(a2, t, r);
        lemma_pxor_comm(t, r);
        lemma_pxor_assoc(a2, r, t);
        assert(pxor(a, r) == pxor(pxor(a2, r), t));
        // t is a multiple of m
        lemma_pmul_pow2(s, m);
        vstd::arithmetic::mul::lemma_mul_is_commutative(pow2(s) as int, m as int);
        assert(t == pmul(pow2(s), m));
        lemma_pmul_dist_right(q2, pow2(s), m);
        assert(pxor(a, r) == pmul(pxor(q2, pow2(s)), m));
    }
}

/// Two reduced values congruent modulo `m` are equal.
pub proof fn lemma_cong_unique(r1: nat, r2: nat, q: nat, m: nat)
    requires
        m >= 1,
        r1 < pow2(pdeg(m)),
        r2 < pow2(pdeg(m)),
        pxor(r1, r2) == pmul(q, m),
    ensures
        r1 == r2,
{
    if q == 0 {
        lemma_pxor_zero_iff(r1, r2);
    } else {
        lemma_pmul_deg(q, m);
        lemma_pdeg_bounds(pmul(q, m));
        lemma_pow2_le(pdeg(m), pdeg(q) + pdeg(m));
        lemma_pxor_lt(r1, r2, pdeg(m));
    }
}

/// The remainder is the unique reduced value congruent to the input.
pub proof fn lemma_pmod_unique(a: nat, r: nat, q: nat, m: nat)
    requires
        m >= 1,
        r < pow2(pdeg(m)),
        pxor(a, r) == pmul(q, m),
    ensures
        pmod(a, m) == r,
{
    lemma_pmod_cong(a, m);
    let q1 = choose|q1: nat| pxor(a, pmod(a, m)) == pmul(q1, m);
    lemma_pxor_exchange(a, pmod(a, m), a, r);
    lemma_pxor_zero_iff(a, a);
    assert(pxor(pxor(a, pmod(a, m)), pxor(a, r)) == pxor(pmod(a, m), r));
    lemma_pmul_dist_right(q1, q, m);
    lemma_pmod_bound(a, m);
    lemma_cong_unique(pmod(a, m), r, pxor(q1, q), m);
}

/// Congruent values have equal remainders.
pub proof fn lemma_pmod_congruent(x: nat, y: nat, q: nat, m: nat)
    requires
        m >= 1,
        pxor(x, y) == pmul(q, m),
    ensures
        pmod(x, m) == pmod(y, m),
{
    lemma_pmod_cong(x, m);
    let q1 = choose|q1: nat| pxor(x, pmod(x, m)) == pmul(q1, m);
    lemma_pxor_exchange(x, y, x, pmod(x, m));
    lemma_pxor_zero_iff(x, x);
    assert(pxor(pxor(x, y), pxor(x, pmod(x, m))) == pxor(y, pmod(x, m)));
    lemma_pmul_dist_right(q, q1, m);
    lemma_pmod_bound(x, m);
    lemma_pmod_unique(y, pmod(x, m), pxor(q, q1), m);
}

/// Reduction distributes over the coefficient-wise sum.
pub proof fn lemma_pmod_add(a: nat, b: nat, m: nat)
    requires
        m >= 1,
    ensures
        pmod(pxor(a, b), m) == pxor(pmod(a, m), pmod(b, m)),
{
    lemma_pmod_cong(a, m);
    lemma_pmod_cong(b, m);
    let q1 = choose|q1: nat| pxor(a, pmod(a, m)) == pmul(q1, m);
    let q2 = choose|q2: nat| pxor(b, pmod(b, m)) == pmul(q2, m);
    lemma_pxor_exchange(a, b, pmod(a, m), pmod(b, m));
    lemma_pmul_dist_right(q1, q2, m);
    lemma_pmod_bound(a, m);
    lemma_pmod_bound(b, m);
    lemma_pxor_lt(pmod(a, m), pmod(b, m), pdeg(m));
    lemma_pmod_unique(pxor(a, b), pxor(pmod(a, m), pmod(b, m)), pxor(q1, q2), m);
}

/// A factor may be reduced before multiplying without changing the remainder.
pub proof fn lemma_pmod_mul_cong_left(a: nat, b: nat, m: nat)
    requires
        m >= 1,
    ensures
        pmod(pmul(a, b), m) == pmod(pmul(pmod(a, m), b), m),
{
    lemma_pmod_cong(a, m);
    let q = choose|q: nat| pxor(a, pmod(a, m)) == pmul(q, m);
    lemma_pmul_dist_right(a, pmod(a, m), b);
    assert(pxor(pmul(a, b), pmul(pmod(a, m), b)) == pmul(pxor(a, pmod(a, m)), b));
    lemma_pmul_assoc(q, m, b);
    lemma_pmul_comm(m, b);
    lemma_pmul_assoc(q, b, m);
    assert(pmul(pmul(q, m), b) == pmul(pmul(q, b), m));
    lemma_pmod_congruent(pmul(a, b), pmul(pmod(a, m), b), pmul(q, b), m);
}

/// The same, for the right factor.
pub proof fn lemma_pmod_mul_cong_right(a: nat, b: nat, m: nat)
    requires
        m >= 1,
    ensures
        pmod(pmul(a, b), m) == pmod(pmul(a, pmod(b, m)), m),
{
    lemma_pmul_comm(a, b);
    lemma_pmod_mul_cong_left(b, a, m);
    lemma_pmul_comm(pmod(b, m), a);
}

/// A polynomial is irreducible when it has positive degree and no
/// factorization into two polynomials of positive degree.
pub open spec fn irreducible(m: nat) -> bool {
    pdeg(m) >= 1 && forall|x: nat, y: nat| 2 <= x && 2 <= y ==> pmul(x, y) != m
}

/// A reduced value below a modulus of larger value is never a multiple of it.
pub proof fn lemma_pmod_nonzero(g: nat, m: nat)
    requires
        1 <= g < m,
    ensures
        pmod(g, m) != 0,
{
    if pmod(g, m) == 0 {
        lemma_pmod_cong(g, m);
        let q = choose|q: nat| pxor(g, pmod(g, m)) == pmul(q, m);
        assert(pxor(g, 0) == g);
        assert(g == pmul(q, m));
        if q == 0 {
        } else if q == 1 {
            lemma_pmul_one(m);
        } else {
            assert(pow2(1) == 2) by {
                vstd::arithmetic::power2::lemma2_to64();
            }
            lemma_pdeg_ge(q, 1);
            lemma_pmul_deg(q, m);
            lemma_pdeg_bounds(pmul(q, m));
            lemma_pdeg_bounds(m);
            lemma_pow2_le(1 + pdeg(m), pdeg(q) + pdeg(m));
            lemma_pow2_unfold(1 + pdeg(m));
            assert(g >= pow2(1 + pdeg(m)));
        }
    }
}

/// Divisibility of GF(2)[x] polynomials.
pub open spec fn pdivides(d: nat, x: nat) -> bool {
    exists|q: nat| pmul(q, d) == x
}

/// A common divisor of a reduced nonzero element and an irreducible modulus
/// can only be one: the modulus has no factor of intermediate degree, and it
/// cannot itself divide an element of smaller degree.
pub proof fn lemma_irreducible_coprime(a: nat, d: nat, m: nat)
    requires
        irreducible(m),
        1 <= a < pow2(pdeg(m)),
        pdivides(d, a),
        pdivides(d, m),
    ensures
        d == 1,
{
    let q1 = choose|q1: nat| pmul(q1, d) == a;
    let q2 = choose|q2: nat| pmul(q2, d) == m;
    assert(m >= 2);
    if d == 0 {
        lemma_pmul_zero_right(q2);
    } else if d >= 2 {
        if q2 == 0 {
        } else if q2 == 1 {
            lemma_pmul_one(d);
            assert(m == d);
            // then m divides a, which is too small to be a nonzero multiple
            if q1 == 0 {
            } else {
                lemma_pmul_deg(q1, m);
                lemma_pdeg_bounds(a);
                lemma_pow2_le(pdeg(m), pdeg(q1) + pdeg(m));
                assert(a >= pow2(pdeg(m)));
            }
        } else {
            assert(pmul(q2, d) != m);
        }
    }
}

/// A Bézout identity with value one makes the coefficient a multiplicative
/// inverse.
pub proof fn lemma_bezout_inverse(a: nat, x: nat, y: nat, m: nat)
    requires
        pdeg(m) >= 1,
        pxor(pmul(a, x), pmul(m, y)) == 1,
    ensures
        fmul(m, a, x) == 1,
{
    let prod = pmul(a, x);
    let mult = pmul(m, y);
    lemma_pxor_cancel(prod, mult);
    assert(pxor(prod, pxor(prod, mult)) == mult);
    assert(pxor(prod, 1) == mult);
    lemma_pmul_comm(m, y);
    lemma_pmod_congruent(prod, 1, y, m);
    assert(pow2(1) == 2) by {
        vstd::arithmetic::power2::lemma2_to64();
    }
    lemma_pow2_le(1, pdeg(m));
    assert(pmod(1, m) == 1);
}

/// No power of `g` below the multiplicative group order `2^pdeg(m) - 1`
/// equals one.
pub open spec fn no_smaller_power_is_one(m: nat, g: nat) -> bool {
    forall|k: nat| 1 <= k < (pow2(pdeg(m)) - 1) ==> fpow(m, g, k) != 1
}

/// A primitive element: its powers reach one exactly at the group order
/// `2^pdeg(m) - 1` and never before.
pub open spec fn is_primitive(m: nat, g: nat) -> bool {
    &&& fpow(m, g, (pow2(pdeg(m)) - 1) as nat) == 1
    &&& no_smaller_power_is_one(m, g)
}

/// Multiplication of field elements: carry-less product reduced by the modulus.
pub open spec fn fmul(m: nat, a: nat, b: nat) -> nat {
    pmod(pmul(a, b), m)
}

/// Exponentiation of a field element by repeated multiplication.
pub open spec fn fpow(m: nat, a: nat, k: nat) -> nat
    decreases k,
{
    if k == 0 {
        1
    } else {
        fmul(m, fpow(m, a, (k - 1) as nat), a)
    }
}

/// Field multiplication is commutative.
pub proof fn lemma_fmul_comm(m: nat, a: nat, b: nat)
    ensures
        fmul(m, a, b) == fmul(m, b, a),
{
    lemma_pmul_comm(a, b);
}

/// Field multiplication is associative.
pub proof fn lemma_fmul_assoc(m: nat, a: nat, b: nat, c: nat)
    requires
        m >= 1,
    ensures
        fmul(m, fmul(m, a, b), c) == fmul(m, a, fmul(m, b, c)),
{
    lemma_pmod_mul_cong_left(pmul(a, b), c, m);
    lemma_pmul_assoc(a, b, c);
    lemma_pmod_mul_cong_right(a, pmul(b, c), m);
}

/// One is the multiplicative identity on reduced values.
pub proof fn lemma_fmul_one(m: nat, a: nat)
    requires
        m >= 1,
        a < pow2(pdeg(m)),
    ensures
        fmul(m, a, 1) == a,
        fmul(m, 1, a) == a,
{
    lemma_pmul_one(a);
}

/// Zero absorbs under field multiplication.
pub proof fn lemma_fmul_zero(m: nat, a: nat)
    requires
        m >= 1,
    ensures
        fmul(m, a, 0) == 0,
        fmul(m, 0, a) == 0,
{
    lemma_pmul_zero_right(a);
    lemma_pow2_pos(pdeg(m));
}

/// Field multiplication distributes over field addition.
pub proof fn lemma_fmul_dist(m: nat, a: nat, b: nat, c: nat)
    requires
        m >= 1,
    ensures
        fmul(m, a, pxor(b, c)) == pxor(fmul(m, a, b), fmul(m, a, c)),
{
    lemma_pmul_dist_left(a, b, c);
    lemma_pmod_add(pmul(a, b), pmul(a, c), m);
}

/// Field multiplication distributes over field addition of left factors.
pub proof fn lemma_fmul_dist_right(m: nat, a: nat, b: nat, c: nat)
    requires
        m >= 1,
    ensures
        fmul(m, pxor(a, b), c) == pxor(fmul(m, a, c), fmul(m, b, c)),
{
    lemma_pmul_comm(pxor(a, b), c);
    lemma_fmul_dist(m, c, a, b);
    lemma_pmul_comm(a, c);
    lemma_pmul_comm(b, c);
}

/// The result of a field multiplication is reduced.
pub proof fn lemma_fmul_bound(m: nat, a: nat, b: nat)
    requires
        m >= 1,
    ensures
        fmul(m, a, b) < pow2(pdeg(m)),
{
    lemma_pmod_bound(pmul(a, b), m);
}

/// Powers of a field element are reduced, provided the modulus has positive
/// degree.
pub proof fn lemma_fpow_bound(m: nat, a: nat, k: nat)
    requires
        m >= 1,
        pdeg(m) >= 1,
    ensures
        fpow(m, a, k) < pow2(pdeg(m)),
{
    if k == 0 {
        lemma_pow2_pos(pdeg(m));
        lemma_pow2_unfold(pdeg(m));
        lemma_pow2_pos((pdeg(m) - 1) as nat);
    } else {
        lemma_fmul_bound(m, fpow(m, a, (k - 1) as nat), a);
    }
}

/// Exponents add: the power of a sum of exponents is the field product of the
/// powers.
pub proof fn lemma_fpow_add(m: nat, a: nat, i: nat, j: nat)
    requires
        m >= 1,
        pdeg(m) >= 1,
    ensures
        fpow(m, a, i + j) == fmul(m, fpow(m, a, i), fpow(m, a, j)),
    decreases j,
{
    if j == 0 {
        lemma_fpow_bound(m, a, i);
        lemma_fmul_one(m, fpow(m, a, i));
    } else {
        lemma_fpow_add(m, a, i, (j - 1) as nat);
        assert(i + j - 1 == i + (j - 1) as nat);
        lemma_fmul_assoc(m, fpow(m, a, i), fpow(m, a, (j - 1) as nat), a);
        assert(fpow(m, a, i + j) == fmul(m, fpow(m, a, (i + j - 1) as nat), a));
    }
}

} // verus!

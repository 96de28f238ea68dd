//! Chunk planning: how many 8-bit chunks are needed to represent all values
//! in `[0, n)`. This count sizes the multiplication table.

use vstd::prelude::*;
use vstd::arithmetic::power::pow;
use vstd::arithmetic::power2::pow2;

verus! {

/// One multiplication step of the base-256 power.
pub proof fn lemma_pow256_step(e: nat)
    ensures
        pow(256, e + 1) == 256 * pow(256, e),
{
    vstd::arithmetic::power::lemma_pow1(256);
    vstd::arithmetic::power::lemma_pow_adds(256, 1, e);
}

/// `pow(256, c)` is the same as `2^(8c)`.
pub proof fn lemma_pow256_is_pow2(c: nat)
    ensures
        pow(256, c) == pow2(8 * c),
    decreases c,
{
    if c == 0 {
        vstd::arithmetic::power::lemma_pow0(256);
        assert(pow2(0) == 1) by {
            vstd::arithmetic::power2::lemma2_to64();
        }
    } else {
        lemma_pow256_is_pow2((c - 1) as nat);
        assert(pow2(8) == 256) by {
            vstd::arithmetic::power2::lemma2_to64();
        }
        vstd::arithmetic::power2::lemma_pow2_adds(8, 8 * (c - 1) as nat);
        assert(8 * c == 8 + 8 * (c - 1) as nat);
        lemma_pow256_step((c - 1) as nat);
        assert(pow(256, c) == 256 * pow(256, (c - 1) as nat));
    }
}

/// The `i`-th 8-bit chunk of a value: `x = sum of chunk(x, i) * 2^(8i)`.
pub open spec fn chunk_of(x: nat, i: nat) -> nat {
    (x / pow2(8 * i)) % 256
}

/// The value truncated to its first `k` chunks.
pub open spec fn lo_chunks(x: nat, k: nat) -> nat {
    x % pow2(8 * k)
}

/// Peeling off the next chunk: the first `k + 1` chunks are the first `k`
/// chunks plus the `k`-th chunk shifted into place, and the two parts occupy
/// disjoint bit ranges, so the sum is also their coefficient-wise sum.
pub proof fn lemma_lo_chunks_step(x: nat, k: nat)
    ensures
        lo_chunks(x, k + 1) == lo_chunks(x, k) + chunk_of(x, k) * pow2(8 * k),
        lo_chunks(x, k + 1) == crate::poly::pxor(lo_chunks(x, k), chunk_of(x, k) * pow2(8 * k)),
        chunk_of(x, k) * pow2(8 * k) <= lo_chunks(x, k + 1) <= x,
{
    let y = pow2(8 * k);
    vstd::arithmetic::power2::lemma_pow2_pos(8 * k);
    vstd::arithmetic::power2::lemma_pow2_adds(8 * k, 8);
    assert(pow2(8) == 256) by {
        vstd::arithmetic::power2::lemma2_to64();
    }
    assert(8 * (k + 1) == 8 * k + 8);
    vstd::arithmetic::div_mod::lemma_breakdown(x as int, y as int, 256);
    assert(x % (y * 256) as nat == y * chunk_of(x, k) + lo_chunks(x, k));
    assert(y * chunk_of(x, k) == chunk_of(x, k) * y) by (nonlinear_arith);
    // the shifted chunk is a multiple of 2^(8k), the low part is below it
    vstd::arithmetic::div_mod::lemma_mod_multiples_basic(chunk_of(x, k) as int, y as int);
    vstd::arithmetic::div_mod::lemma_mod_bound(x as int, y as int);
    crate::poly::lemma_pxor_comm(lo_chunks(x, k), chunk_of(x, k) * y);
    crate::poly::lemma_pxor_disjoint(lo_chunks(x, k), chunk_of(x, k) * y, 8 * k);
    // the truncation never exceeds the value itself
    vstd::arithmetic::power2::lemma_pow2_pos(8 * (k + 1));
    vstd::arithmetic::div_mod::lemma_mod_decreases(x, pow2(8 * (k + 1)));
}

/// A value below `2^(8k)` is untouched by truncation to `k` chunks.
pub proof fn lemma_lo_chunks_all(x: nat, k: nat)
    requires
        x < pow2(8 * k),
    ensures
        lo_chunks(x, k) == x,
{
    vstd::arithmetic::power2::lemma_pow2_pos(8 * k);
    vstd::arithmetic::div_mod::lemma_small_mod(x, pow2(8 * k));
}

/// Truncation to zero chunks leaves nothing.
pub proof fn lemma_lo_chunks_zero(x: nat)
    ensures
        lo_chunks(x, 0) == 0,
{
    assert(pow2(0) == 1) by {
        vstd::arithmetic::power2::lemma2_to64();
    }
    assert(x % 1 == 0) by (nonlinear_arith);
}

/// The number of 8-bit chunks needed to represent all values in `[0, n)`:
/// zero for an empty range, otherwise the least `c >= 1` with `n <= 256^c`.
pub fn ceil_log256(n: usize) -> (r: usize)
    ensures
        n == 0 ==> r == 0,
        n >= 1 ==> {
            &&& 1 <= r
            &&& n as nat <= pow(256, r as nat)
            &&& (r > 1 ==> pow(256, (r - 1) as nat) < n as nat)
        },
{
    if n == 0 {
        return 0;
    }
    let mut c: usize = 1;
    let mut v: usize = n;
    proof {
        assert(pow(256, 0nat) == 1) by {
            vstd::arithmetic::power::lemma_pow0(256);
        }
        assert(pow(256, 8nat) == pow2(64)) by {
            lemma_pow256_is_pow2(8);
        }
        assert(usize::MAX < pow2(64)) by {
            vstd::arithmetic::power2::lemma2_to64();
            vstd::arithmetic::power2::lemma2_to64_rest();
        }
    }
    while v > 256
        invariant
            1 <= c,
            1 <= v,
            n >= 1,
            n as nat <= pow(256, (c - 1) as nat) * v,
            pow(256, (c - 1) as nat) * (v - 1) < n as nat,
            c > 1 ==> pow(256, (c - 1) as nat) < n as nat,
            (n as nat) < pow(256, 8nat),
            c <= 9,
        decreases v,
    {
        proof {
            // The chunk count stays small: 256^(c-1) < n < 256^8 forces c <= 8.
            if c >= 9 {
                if c - 1 > 8 {
                    vstd::arithmetic::power::lemma_pow_strictly_increases(256, 8, (c - 1) as nat);
                }
                assert(false);
            }
            assert(pow2(8) == 256) by {
                vstd::arithmetic::power2::lemma2_to64();
            }
            vstd::bits::lemma_usize_shr_is_div((v - 1) as usize, 8);
        }
        let q: usize = (v - 1) >> 8;
        let ghost prev_v = v as nat;
        let ghost prev_c = c as nat;
        v = q + 1;
        c = c + 1;
        proof {
            let e = (prev_c - 1) as nat;
            assert(pow(256, prev_c) == 256 * pow(256, e)) by {
                lemma_pow256_step(e);
            }
            vstd::arithmetic::power::lemma_pow_positive(256, e);
            assert(q >= 1);
            // upper bound: n <= 256^e * prev_v <= 256^prev_c * (q + 1)
            assert(prev_v <= 256 * (q + 1));
            assert(pow(256, e) * prev_v <= pow(256, e) * (256 * (q + 1))) by (nonlinear_arith)
                requires
                    pow(256, e) >= 1,
                    prev_v <= 256 * (q + 1),
            ;
            assert(pow(256, e) * (256 * (q + 1)) == (256 * pow(256, e)) * (q + 1))
                by (nonlinear_arith);
            // lower bound: 256^prev_c * q <= 256^e * (prev_v - 1) < n
            assert(256 * q <= prev_v - 1);
            assert(pow(256, e) * (256 * q) <= pow(256, e) * (prev_v - 1)) by (nonlinear_arith)
                requires
                    pow(256, e) >= 1,
                    256 * q <= prev_v - 1,
            ;
            assert((256 * pow(256, e)) * q == pow(256, e) * (256 * q)) by (nonlinear_arith);
            assert(pow(256, prev_c) * q < n as nat);
            // minimality: q >= 1 gives 256^prev_c <= 256^prev_c * q < n
            assert(pow(256, prev_c) * 1 <= pow(256, prev_c) * q) by (nonlinear_arith)
                requires
                    pow(256, prev_c) >= 1,
                    q >= 1,
            ;
        }
    }
    proof {
        let e = (c - 1) as nat;
        assert(pow(256, c as nat) == 256 * pow(256, e)) by {
            lemma_pow256_step(e);
        }
        vstd::arithmetic::power::lemma_pow_positive(256, e);
        assert(pow(256, e) * v <= pow(256, e) * 256) by (nonlinear_arith)
            requires
                pow(256, e) >= 1,
                v <= 256,
        ;
        assert(pow(256, e) * 256 == 256 * pow(256, e)) by (nonlinear_arith);
    }
    c
}

} // verus!


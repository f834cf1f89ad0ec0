//! Integer square root: the one piece of nonlinear numeric machinery the
//! solver needs.  Link lengths and step directions are derived from
//! Euclidean norms, so distances are floor square roots of `u128` sums of
//! squares.

use vstd::prelude::*;

verus! {

/// Floor of the mathematical square root of `n`.
pub open spec fn sqrt_nat(n: nat) -> nat
    decreases n,
{
    if n == 0 {
        0
    } else {
        let r = sqrt_nat((n - 1) as nat);
        if (r + 1) * (r + 1) <= n {
            r + 1
        } else {
            r
        }
    }
}

/// `sqrt_nat(n)` really is the floor square root: its square is at most `n`
/// and the next square is beyond `n`.
pub proof fn lemma_sqrt_nat(n: nat)
    ensures
        sqrt_nat(n) * sqrt_nat(n) <= n,
        n < (sqrt_nat(n) + 1) * (sqrt_nat(n) + 1),
    decreases n,
{
    let s = sqrt_nat(n);
    if n == 0 {
        assert(s == 0);
        assert(n < (s + 1) * (s + 1)) by (nonlinear_arith)
            requires
                s == 0,
                n == 0,
        ;
    } else {
        lemma_sqrt_nat((n - 1) as nat);
        let r = sqrt_nat((n - 1) as nat);
        if (r + 1) * (r + 1) <= n {
            assert(s == r + 1);
            assert(s * s <= n && n < (s + 1) * (s + 1)) by (nonlinear_arith)
                requires
                    s == r + 1,
                    (n - 1) < (r + 1) * (r + 1),
                    (r + 1) * (r + 1) <= n,
            ;
        } else {
            assert(s == r);
            assert(s * s <= n && n < (s + 1) * (s + 1)) by (nonlinear_arith)
                requires
                    s == r,
                    r * r <= n - 1,
                    !((r + 1) * (r + 1) <= n),
            ;
        }
    }
}

/// The floor square root is the unique `r` with `r^2 <= n < (r+1)^2`.
pub proof fn lemma_sqrt_unique(n: nat, r: nat)
    requires
        r * r <= n,
        n < (r + 1) * (r + 1),
    ensures
        r == sqrt_nat(n),
{
    lemma_sqrt_nat(n);
    let s = sqrt_nat(n);
    assert(r == s) by (nonlinear_arith)
        requires
            r * r <= n,
            n < (r + 1) * (r + 1),
            s * s <= n,
            n < (s + 1) * (s + 1),
    ;
}

/// Upper bound on inputs accepted by [`isqrt`]: `2^68`, comfortably above
/// the largest squared distance between two in-range working positions
/// (`3 * (2^32)^2 = 3 * 2^64`).
pub const MAX_SQRT_ARG: u128 = 295147905179352825856;

/// Floor square root, computed by binary search.
pub fn isqrt(n: u128) -> (r: u64)
    requires
        n < MAX_SQRT_ARG,
    ensures
        r == sqrt_nat(n as nat),
        r * r <= n,
        n < (r + 1) * (r + 1),
{
    let mut lo: u128 = 0;
    // 2^34 squared is 2^68, one beyond any accepted input.
    let mut hi: u128 = 17179869184;
    assert(hi * hi == 295147905179352825856);
    while lo + 1 < hi
        invariant
            lo < hi <= 17179869184,
            lo * lo <= n,
            n < hi * hi,
        decreases hi - lo,
    {
        let mid: u128 = lo + (hi - lo) / 2;
        assert(mid * mid <= 17179869184 * 17179869184) by (nonlinear_arith)
            requires
                mid <= 17179869184,
        ;
        if mid * mid <= n {
            lo = mid;
        } else {
            hi = mid;
        }
    }
    proof {
        lemma_sqrt_unique(n as nat, lo as nat);
    }
    lo as u64
}

/// Truncating division (toward zero), matching the machine's signed
/// division for a positive divisor.
pub open spec fn div_trunc(a: int, b: int) -> int {
    if a >= 0 {
        a / b
    } else {
        -((-a) / b)
    }
}

/// Truncating signed division by a positive divisor.
pub fn div_i64(a: i64, b: i64) -> (r: i64)
    requires
        b >= 1,
        a != i64::MIN,
    ensures
        r == div_trunc(a as int, b as int),
{
    if a >= 0 {
        (a as u64 / b as u64) as i64
    } else {
        -((((-a) as u64) / (b as u64)) as i64)
    }
}

} // verus!

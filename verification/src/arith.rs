//! Integer square root, used for the randomized policy's acceptance
//! threshold `floor(sqrt(initial_free_cells - minimum_remainder))`.

use vstd::prelude::*;

verus! {

/// `floor(sqrt(n))`, defined by counting up.
pub open spec fn spec_isqrt(n: nat) -> nat
    decreases n,
{
    if n == 0 {
        0
    } else {
        let p = spec_isqrt((n - 1) as nat);
        if (p + 1) * (p + 1) <= n {
            p + 1
        } else {
            p
        }
    }
}

/// `spec_isqrt(n)` brackets `n` between two consecutive squares.
pub proof fn lemma_isqrt_bounds(n: nat)
    ensures
        spec_isqrt(n) * spec_isqrt(n) <= n,
        n < (spec_isqrt(n) + 1) * (spec_isqrt(n) + 1),
    decreases n,
{
    if n > 0 {
        lemma_isqrt_bounds((n - 1) as nat);
        let p = spec_isqrt((n - 1) as nat);
        if (p + 1) * (p + 1) <= n {
            let s = spec_isqrt(n);
            assert(s == p + 1);
            assert(n - 1 < (p + 1) * (p + 1));
            assert(n == (p + 1) * (p + 1));
            assert(n < (s + 1) * (s + 1)) by (nonlinear_arith)
                requires
                    n == (p + 1) * (p + 1),
                    s == p + 1,
                    p >= 0,
            ;
        } else {
            assert(spec_isqrt(n) == p);
            assert(p * p <= n - 1 <= n);
            assert(n < (spec_isqrt(n) + 1) * (spec_isqrt(n) + 1));
        }
    } else {
        assert(spec_isqrt(0nat) == 0);
        let s = spec_isqrt(n);
        assert(n < (s + 1) * (s + 1)) by (nonlinear_arith)
            requires
                n == 0,
                s == 0,
        ;
    }
}

/// Any value bracketed between consecutive squares is `spec_isqrt(n)`.
pub proof fn lemma_isqrt_unique(n: nat, r: nat)
    requires
        r * r <= n,
        n < (r + 1) * (r + 1),
    ensures
        r == spec_isqrt(n),
{
    let s = spec_isqrt(n);
    lemma_isqrt_bounds(n);
    assert(r == s) by (nonlinear_arith)
        requires
            r * r <= n,
            n < (r + 1) * (r + 1),
            s * s <= n,
            n < (s + 1) * (s + 1),
    ;
}

/// `floor(sqrt(n))`, by binary search over the answer.
pub fn isqrt(n: usize) -> (r: usize)
    ensures
        r == spec_isqrt(n as nat),
{
    if n == 0 {
        return 0;
    }
    let mut lo: usize = 1;
    let mut hi: usize = n;
    proof {
        assert(n < (n + 1) * (n + 1)) by (nonlinear_arith)
            requires
                n >= 1,
        ;
    }
    while lo < hi
        invariant
            1 <= lo <= hi <= n,
            lo * lo <= n,
            n < (hi + 1) * (hi + 1),
        decreases hi - lo,
    {
        let mid = lo + (hi - lo + 1) / 2;
        if mid <= n / mid {
            proof {
                vstd::arithmetic::div_mod::lemma_fundamental_div_mod(n as int, mid as int);
                assert(mid * mid <= n) by (nonlinear_arith)
                    requires
                        1 <= mid,
                        mid <= n / mid,
                        n / mid * mid + n % mid == n,
                        0 <= n % mid,
                ;
            }
            lo = mid;
        } else {
            proof {
                vstd::arithmetic::div_mod::lemma_fundamental_div_mod(n as int, mid as int);
                assert(n < mid * mid) by (nonlinear_arith)
                    requires
                        1 <= mid,
                        mid > n / mid,
                        n / mid * mid + n % mid == n,
                        n % mid < mid,
                ;
            }
            hi = mid - 1;
        }
    }
    proof {
        lemma_isqrt_unique(n as nat, lo as nat);
    }
    lo
}

} // verus!

use vstd::prelude::*;

verus! {

/// A prior probability of 1.0, in fixed point: priors live in 0 ..= PRIOR_SCALE.
pub const PRIOR_SCALE: u64 = 1_000_000;

/// Fixed-point scale of the square root of a visit count.
pub const SQRT_SCALE: u64 = 1024;

/// Denominator of a selection score. It equals 2 * PRIOR_SCALE * SQRT_SCALE,
/// so that the exploration term C * prior * sqrt(parent visits) / (1 + visits)
/// with C = 1/2 reduces to prior * sqrt_fixed / (1 + visits).
pub const SCORE_SCALE: u64 = 2 * PRIOR_SCALE * SQRT_SCALE;

/// Largest visit count a node may reach; keeps every score computation inside u64.
pub const VISIT_LIMIT: u64 = 4_000_000_000;

/// Floor of the square root of `n`.
pub open spec fn sqrt_floor(n: nat) -> nat
    decreases n,
{
    if n == 0 {
        0
    } else {
        let r = sqrt_floor((n - 1) as nat);
        if (r + 1) * (r + 1) <= n {
            r + 1
        } else {
            r
        }
    }
}

/// `sqrt_floor(n)` is the unique r with r^2 <= n < (r+1)^2.
pub proof fn lemma_sqrt_floor_bounds(n: nat)
    ensures
        sqrt_floor(n) * sqrt_floor(n) <= n,
        n < (sqrt_floor(n) + 1) * (sqrt_floor(n) + 1),
    decreases n,
{
    if n > 0 {
        lemma_sqrt_floor_bounds((n - 1) as nat);
        let r = sqrt_floor((n - 1) as nat);
        let s = sqrt_floor(n);
        if (r + 1) * (r + 1) <= n {
            assert(s == r + 1);
            assert(s * s <= n);
            assert(n < (r + 2) * (r + 2)) by (nonlinear_arith)
                requires
                    n - 1 < (r + 1) * (r + 1),
            ;
            assert(n < (s + 1) * (s + 1));
        } else {
            assert(s == r);
            assert(s * s <= n);
            assert(n < (s + 1) * (s + 1));
        }
    } else {
        assert(sqrt_floor(n) == 0);
        assert(n < (sqrt_floor(n) + 1) * (sqrt_floor(n) + 1)) by (nonlinear_arith)
            requires
                n == 0,
                sqrt_floor(n) == 0,
        ;
    }
}

pub proof fn lemma_sqrt_floor_unique(n: nat, r: nat)
    requires
        r * r <= n,
        n < (r + 1) * (r + 1),
    ensures
        r == sqrt_floor(n),
{
    lemma_sqrt_floor_bounds(n);
    let s = sqrt_floor(n);
    if r < s {
        assert((r + 1) * (r + 1) <= s * s) by (nonlinear_arith)
            requires
                r + 1 <= s,
        ;
    }
    if s < r {
        assert((s + 1) * (s + 1) <= r * r) by (nonlinear_arith)
            requires
                s + 1 <= r,
        ;
    }
}

/// Integer square root by bisection.
pub fn isqrt(n: u64) -> (r: u64)
    requires
        n <= 0x10_0000_0000_0000,
    ensures
        r == sqrt_floor(n as nat),
{
    let mut lo: u64 = 0;
    let mut hi: u64 = 0x400_0001;
    while lo + 1 < hi
        invariant
            lo < hi <= 0x400_0001,
            (lo as nat) * (lo as nat) <= n as nat,
            (n as nat) < (hi as nat) * (hi as nat),
        decreases hi - lo,
    {
        let mid = lo + (hi - lo) / 2;
        proof {
            assert(mid * mid <= 0x400_0000 * 0x400_0000) by (nonlinear_arith)
                requires
                    0 <= mid <= 0x400_0000,
            ;
        }
        if mid * mid <= n {
            lo = mid;
        } else {
            hi = mid;
        }
    }
    proof {
        lemma_sqrt_floor_unique(n as nat, lo as nat);
    }
    lo
}

/// The square root of a visit count, in fixed point: floor(sqrt(v) * SQRT_SCALE).
pub open spec fn sqrt_fixed(v: int) -> int {
    sqrt_floor((v * (SQRT_SCALE * SQRT_SCALE)) as nat) as int
}

/// Selection score of a child with outcome sum `w`, visit count `v` and prior
/// `p`, under a parent with `parent_v` visits. It is the in-search rule
///   exploitation + C * prior * sqrt(parent visits) / (1 + visits)
/// with C = 1/2 and exploitation = w / v (0 when unvisited), evaluated in
/// fixed point with denominator SCORE_SCALE and shifted up by SCORE_SCALE so
/// that every score is non-negative. The shift adds the same constant to
/// every child, so comparisons between children are unchanged.
pub open spec fn sel_score(w: int, v: int, p: int, parent_v: int) -> int {
    let explore = (p * sqrt_fixed(parent_v)) / (1 + v);
    if v == 0 {
        SCORE_SCALE + explore
    } else {
        (SCORE_SCALE * (w + v)) / v + explore
    }
}

/// Among unvisited children of a visited parent, the selection score is
/// strictly increasing in the prior.
pub proof fn lemma_score_orders_unvisited_by_prior(p1: int, p2: int, parent_v: int)
    requires
        0 <= p1 < p2,
        1 <= parent_v,
    ensures
        sel_score(0, 0, p1, parent_v) < sel_score(0, 0, p2, parent_v),
{
    let n = (parent_v * (SQRT_SCALE * SQRT_SCALE)) as nat;
    let s = sqrt_floor(n);
    assert(parent_v * 1048576 >= 1048576) by (nonlinear_arith)
        requires
            parent_v >= 1,
    ;
    assert(n >= 1048576);
    lemma_sqrt_floor_bounds(n);
    assert(s >= SQRT_SCALE) by {
        if s < SQRT_SCALE {
            assert((s + 1) * (s + 1) <= 1048576) by (nonlinear_arith)
                requires
                    s + 1 <= 1024,
            ;
        }
    }
    assert(p1 * s < p2 * s) by (nonlinear_arith)
        requires
            0 <= p1 < p2,
            s >= 1,
    ;
    assert((p1 * s) / 1 == p1 * s);
    assert((p2 * s) / 1 == p2 * s);
}

} // verus!

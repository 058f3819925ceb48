//! Distance values that record whether they are squared or linear, so the two are never mixed.
use vstd::prelude::*;
use crate::types::{euclidean_distance_squared as sq_dist_exec, sq_dist};

verus! {

/// A linear distance, as a whole number of channel steps.
#[derive(Debug, Clone, Copy, PartialEq, Eq, Structural)]
pub struct EuclideanDistance(pub u128);

/// A squared distance, exact.
#[derive(Debug, Clone, Copy, PartialEq, Eq, Structural)]
pub struct SquaredEuclideanDistance(pub u128);

/// `r` is the integer square root of `n`, rounded down.
pub open spec fn is_floor_sqrt(n: int, r: int) -> bool {
    0 <= r && r * r <= n < (r + 1) * (r + 1)
}

/// `r` is the integer square root of `n`, rounded up.
pub open spec fn is_ceil_sqrt(n: int, r: int) -> bool {
    &&& 0 <= r
    &&& n <= r * r
    &&& (r == 0 || (r - 1) * (r - 1) < n)
}

/// The squared distance between two vectors.
pub fn euclidean_distance_squared<const D: usize>(a: &[u8; D], b: &[u8; D]) -> (r:
    SquaredEuclideanDistance)
    ensures
        r.0 == sq_dist(a@, b@),
{
    SquaredEuclideanDistance(sq_dist_exec(a, b))
}

/// Integer square root, rounded down.
pub fn floor_sqrt(n: u128) -> (r: u128)
    ensures
        is_floor_sqrt(n as int, r as int),
        r < 0x1_0000_0000_0000_0000,
{
    let mut lo: u128 = 0;
    let mut hi: u128 = 0x1_0000_0000_0000_0000;
    assert(hi * hi > u128::MAX) by (nonlinear_arith)
        requires
            hi == 0x1_0000_0000_0000_0000u128,
    ;
    while hi - lo > 1
        invariant
            lo < hi <= 0x1_0000_0000_0000_0000,
            lo * lo <= n,
            n < hi * hi,
        decreases hi - lo,
    {
        let mid = lo + (hi - lo) / 2;
        assert(mid * mid <= 0xffff_ffff_ffff_ffffu128 * 0xffff_ffff_ffff_ffffu128) by (nonlinear_arith)
            requires
                mid < 0x1_0000_0000_0000_0000u128,
        ;
        if mid * mid <= n {
            lo = mid;
        } else {
            hi = mid;
        }
    }
    lo
}

/// Integer square root, rounded up.
pub fn ceil_sqrt(n: u128) -> (r: u128)
    ensures
        is_ceil_sqrt(n as int, r as int),
{
    let r = floor_sqrt(n);
    if r * r == n {
        proof {
            let ri = r as int;
            let ni = n as int;
            assert(ri == 0 || (ri - 1) * (ri - 1) < ni) by (nonlinear_arith)
                requires
                    ni == ri * ri,
                    ri >= 0,
            ;
        }
        r
    } else {
        let s = r + 1;
        assert((s - 1) * (s - 1) < n);
        assert(n <= s * s);
        s
    }
}

impl SquaredEuclideanDistance {
    /// The linear distance, rounded down.
    pub fn sqrt(&self) -> (r: EuclideanDistance)
        ensures
            is_floor_sqrt(self.0 as int, r.0 as int),
    {
        EuclideanDistance(floor_sqrt(self.0))
    }

    /// The linear distance, rounded up.
    pub fn sqrt_ceil(&self) -> (r: EuclideanDistance)
        ensures
            is_ceil_sqrt(self.0 as int, r.0 as int),
    {
        EuclideanDistance(ceil_sqrt(self.0))
    }
}

} // verus!

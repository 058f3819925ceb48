//! The triangle inequality for squared distances between integer vectors, which the
//! bound-pruning algorithm rests on.
use vstd::prelude::*;
use crate::types::{lemma_sq_dist_upto_bounds, sq, sq_dist, sq_dist_upto};

verus! {

/// Sum over the first `n` channels of `(x - y) * (y - z)`.
pub open spec fn cross_upto(x: Seq<u8>, y: Seq<u8>, z: Seq<u8>, n: nat) -> int
    decreases n,
{
    if n == 0 {
        0
    } else {
        cross_upto(x, y, z, (n - 1) as nat) + (x[n - 1] - y[n - 1]) * (y[n - 1] - z[n - 1])
    }
}

proof fn lemma_expand(x: Seq<u8>, y: Seq<u8>, z: Seq<u8>, n: nat)
    requires
        n <= x.len(),
        n <= y.len(),
        n <= z.len(),
    ensures
        sq_dist_upto(x, z, n) == sq_dist_upto(x, y, n) + 2 * cross_upto(x, y, z, n) + sq_dist_upto(
            y,
            z,
            n,
        ),
    decreases n,
{
    if n > 0 {
        lemma_expand(x, y, z, (n - 1) as nat);
        let u = x[n - 1] - y[n - 1];
        let v = y[n - 1] - z[n - 1];
        assert(sq(x[n - 1] - z[n - 1]) == sq(u) + 2 * (u * v) + sq(v)) by (nonlinear_arith)
            requires
                x[n - 1] - z[n - 1] == u + v,
        ;
    }
}

proof fn lemma_cauchy_step(a: int, b: int, p: int, u: int, v: int)
    requires
        a >= 0,
        b >= 0,
        p * p <= a * b,
    ensures
        (p + u * v) * (p + u * v) <= (a + u * u) * (b + v * v),
{
    let xx = v * v;
    let yy = u * u;
    let w = u * v;
    assert(w * w == xx * yy) by (nonlinear_arith)
        requires
            xx == v * v,
            yy == u * u,
            w == u * v,
    ;
    assert(xx >= 0 && yy >= 0) by (nonlinear_arith)
        requires
            xx == v * v,
            yy == u * u,
    ;
    let s = a * xx + b * yy;
    let t = 2 * p * w;
    let e = a * xx - b * yy;
    assert(s >= 0) by (nonlinear_arith)
        requires
            a >= 0,
            b >= 0,
            xx >= 0,
            yy >= 0,
            s == a * xx + b * yy,
    ;
    let q = xx * yy;
    let m1 = (a * b) * q;
    let m2 = (p * p) * q;
    assert(s * s == e * e + 4 * m1) by (nonlinear_arith)
        requires
            s == a * xx + b * yy,
            e == a * xx - b * yy,
            q == xx * yy,
            m1 == (a * b) * q,
    ;
    assert(e * e >= 0) by (nonlinear_arith);
    assert(q >= 0) by (nonlinear_arith)
        requires
            xx >= 0,
            yy >= 0,
            q == xx * yy,
    ;
    assert(m1 >= m2) by (nonlinear_arith)
        requires
            p * p <= a * b,
            q >= 0,
            m1 == (a * b) * q,
            m2 == (p * p) * q,
    ;
    assert(t * t == 4 * m2) by (nonlinear_arith)
        requires
            t == 2 * p * w,
            w * w == q,
            m2 == (p * p) * q,
    ;
    assert(t * t <= s * s);
    assert(t <= s) by (nonlinear_arith)
        requires
            s >= 0,
            t * t <= s * s,
    ;
    assert((p + w) * (p + w) == p * p + t + w * w) by (nonlinear_arith)
        requires
            t == 2 * p * w,
    ;
    assert((a + yy) * (b + xx) == a * b + s + xx * yy) by (nonlinear_arith)
        requires
            s == a * xx + b * yy,
    ;
}

/// Cauchy-Schwarz for the differences `x - y` and `y - z`.
proof fn lemma_cauchy(x: Seq<u8>, y: Seq<u8>, z: Seq<u8>, n: nat)
    requires
        n <= x.len(),
        n <= y.len(),
        n <= z.len(),
    ensures
        cross_upto(x, y, z, n) * cross_upto(x, y, z, n) <= sq_dist_upto(x, y, n) * sq_dist_upto(
            y,
            z,
            n,
        ),
    decreases n,
{
    if n > 0 {
        lemma_cauchy(x, y, z, (n - 1) as nat);
        lemma_sq_dist_upto_bounds(x, y, (n - 1) as nat);
        lemma_sq_dist_upto_bounds(y, z, (n - 1) as nat);
        lemma_cauchy_step(
            sq_dist_upto(x, y, (n - 1) as nat),
            sq_dist_upto(y, z, (n - 1) as nat),
            cross_upto(x, y, z, (n - 1) as nat),
            x[n - 1] - y[n - 1],
            y[n - 1] - z[n - 1],
        );
    }
}

/// If `x` is within `a` of `y` and `y` within `b` of `z`, then `x` is within `a + b` of `z`.
pub proof fn lemma_triangle(x: Seq<u8>, y: Seq<u8>, z: Seq<u8>, a: int, b: int)
    requires
        x.len() == y.len(),
        y.len() == z.len(),
        a >= 0,
        b >= 0,
        sq_dist(x, y) <= a * a,
        sq_dist(y, z) <= b * b,
    ensures
        sq_dist(x, z) <= (a + b) * (a + b),
{
    let n = x.len();
    lemma_expand(x, y, z, n);
    lemma_cauchy(x, y, z, n);
    lemma_sq_dist_upto_bounds(x, y, n);
    lemma_sq_dist_upto_bounds(y, z, n);
    let p = cross_upto(x, y, z, n);
    let dx = sq_dist(x, y);
    let dz = sq_dist(y, z);
    assert(p * p <= (a * b) * (a * b)) by (nonlinear_arith)
        requires
            p * p <= dx * dz,
            0 <= dx <= a * a,
            0 <= dz <= b * b,
    ;
    assert(p <= a * b) by (nonlinear_arith)
        requires
            p * p <= (a * b) * (a * b),
            a >= 0,
            b >= 0,
    ;
    assert(dx + 2 * p + dz <= (a + b) * (a + b)) by (nonlinear_arith)
        requires
            dx <= a * a,
            dz <= b * b,
            p <= a * b,
    ;
}

/// If `x` is strictly within `a` of `y` and `y` within `b` of `z`, then `x` is strictly within
/// `a + b` of `z`.
pub proof fn lemma_triangle_strict(x: Seq<u8>, y: Seq<u8>, z: Seq<u8>, a: int, b: int)
    requires
        x.len() == y.len(),
        y.len() == z.len(),
        a >= 0,
        b >= 0,
        sq_dist(x, y) < a * a,
        sq_dist(y, z) <= b * b,
    ensures
        sq_dist(x, z) < (a + b) * (a + b),
{
    let n = x.len();
    lemma_expand(x, y, z, n);
    lemma_cauchy(x, y, z, n);
    lemma_sq_dist_upto_bounds(x, y, n);
    lemma_sq_dist_upto_bounds(y, z, n);
    let p = cross_upto(x, y, z, n);
    let dx = sq_dist(x, y);
    let dz = sq_dist(y, z);
    assert(p * p <= (a * b) * (a * b)) by (nonlinear_arith)
        requires
            p * p <= dx * dz,
            0 <= dx <= a * a,
            0 <= dz <= b * b,
    ;
    assert(p <= a * b) by (nonlinear_arith)
        requires
            p * p <= (a * b) * (a * b),
            a >= 0,
            b >= 0,
    ;
    assert(dx + 2 * p + dz < (a + b) * (a + b)) by (nonlinear_arith)
        requires
            dx < a * a,
            dz <= b * b,
            p <= a * b,
    ;
}

} // verus!

//! Vectors of color channels and the arithmetic the clustering engine needs on them.
use vstd::prelude::*;

verus! {

/// Vectors laid out as the compute device reads them.
pub trait GPUVector {
}

impl GPUVector for [u8; 4] {
}

/// The square of an integer.
pub open spec fn sq(x: int) -> int {
    x * x
}

/// Sum of the squared channel differences over the first `n` channels.
pub open spec fn sq_dist_upto(a: Seq<u8>, b: Seq<u8>, n: nat) -> int
    decreases n,
{
    if n == 0 {
        0
    } else {
        sq_dist_upto(a, b, (n - 1) as nat) + sq(a[n - 1] - b[n - 1])
    }
}

/// Squared Euclidean distance between two vectors of the same dimension.
pub open spec fn sq_dist(a: Seq<u8>, b: Seq<u8>) -> int {
    sq_dist_upto(a, b, a.len())
}

pub proof fn lemma_sq_dist_upto_bounds(a: Seq<u8>, b: Seq<u8>, n: nat)
    requires
        n <= a.len(),
        n <= b.len(),
    ensures
        0 <= sq_dist_upto(a, b, n) <= 65025 * n,
    decreases n,
{
    if n > 0 {
        lemma_sq_dist_upto_bounds(a, b, (n - 1) as nat);
        let d = a[n - 1] - b[n - 1];
        assert(0 <= d * d <= 65025) by (nonlinear_arith)
            requires
                -255 <= d <= 255,
        ;
    }
}

pub proof fn lemma_sq_dist_self(a: Seq<u8>, n: nat)
    requires
        n <= a.len(),
    ensures
        sq_dist_upto(a, a, n) == 0,
    decreases n,
{
    if n > 0 {
        lemma_sq_dist_self(a, (n - 1) as nat);
    }
}

pub proof fn lemma_sq_dist_symmetric(a: Seq<u8>, b: Seq<u8>, n: nat)
    requires
        n <= a.len(),
        n <= b.len(),
    ensures
        sq_dist_upto(a, b, n) == sq_dist_upto(b, a, n),
    decreases n,
{
    if n > 0 {
        lemma_sq_dist_symmetric(a, b, (n - 1) as nat);
        let d = a[n - 1] - b[n - 1];
        assert(d * d == (-d) * (-d)) by (nonlinear_arith);
    }
}

pub proof fn lemma_sq_dist_zero(a: Seq<u8>, b: Seq<u8>, n: nat)
    requires
        n <= a.len(),
        n <= b.len(),
        sq_dist_upto(a, b, n) == 0,
    ensures
        forall|c: int| 0 <= c < n ==> a[c] == b[c],
    decreases n,
{
    if n > 0 {
        lemma_sq_dist_upto_bounds(a, b, (n - 1) as nat);
        let d = a[n - 1] - b[n - 1];
        assert(d * d >= 0) by (nonlinear_arith);
        assert(d == 0) by (nonlinear_arith)
            requires
                d * d == 0,
        ;
        lemma_sq_dist_zero(a, b, (n - 1) as nat);
    }
}

/// Vectors at squared distance zero are equal.
pub proof fn lemma_sq_dist_zero_eq(a: Seq<u8>, b: Seq<u8>)
    requires
        a.len() == b.len(),
        sq_dist(a, b) == 0,
    ensures
        a == b,
{
    lemma_sq_dist_zero(a, b, a.len());
    assert(a =~= b);
}

/// Whether two vectors hold the same channels.
pub fn same_vector<const D: usize>(a: &[u8; D], b: &[u8; D]) -> (r: bool)
    ensures
        r == (a@ == b@),
{
    for c in 0..D
        invariant
            forall|m: int| 0 <= m < c ==> a@[m] == b@[m],
    {
        if a[c] != b[c] {
            return false;
        }
    }
    assert(a@ =~= b@);
    true
}

/// The squared difference of two channels.
fn channel_diff_sq(a: u8, b: u8) -> (r: u128)
    ensures
        r == sq(a - b),
        r <= 65025,
{
    let d: i32 = a as i32 - b as i32;
    assert(0 <= d * d <= 65025) by (nonlinear_arith)
        requires
            -255 <= d <= 255,
    ;
    (d * d) as u128
}

/// Squared Euclidean distance over the first `n` channels.
pub fn sq_dist_prefix<const D: usize>(a: &[u8; D], b: &[u8; D], n: usize) -> (r: u128)
    requires
        n <= D,
    ensures
        r == sq_dist_upto(a@, b@, n as nat),
{
    let mut acc: u128 = 0;
    for c in 0..n
        invariant
            n <= D,
            acc == sq_dist_upto(a@, b@, c as nat),
    {
        proof {
            lemma_sq_dist_upto_bounds(a@, b@, c as nat);
            assert(65025 * c <= 65025 * 0xffff_ffff_ffff_ffffu128) by (nonlinear_arith)
                requires
                    c <= 0xffff_ffff_ffff_ffffu128,
            ;
        }
        acc = acc + channel_diff_sq(a[c], b[c]);
    }
    acc
}

/// Squared Euclidean distance between two vectors.
pub fn euclidean_distance_squared<const D: usize>(a: &[u8; D], b: &[u8; D]) -> (r: u128)
    ensures
        r == sq_dist(a@, b@),
{
    sq_dist_prefix(a, b, D)
}

} // verus!

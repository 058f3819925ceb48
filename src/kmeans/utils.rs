//! The mathematical model of one clustering run, and the steps shared by every algorithm.
use vstd::prelude::*;
use crate::types::{euclidean_distance_squared, lemma_sq_dist_self, sq_dist};

verus! {

/// The views of a sequence of vectors.
pub open spec fn views<const D: usize>(s: Seq<[u8; D]>) -> Seq<Seq<u8>> {
    s.map_values(|a: [u8; D]| a@)
}

/// Index of the first closest vector among the first `n` of `cs` (`n >= 1`).
pub open spec fn nearest_upto(p: Seq<u8>, cs: Seq<Seq<u8>>, n: nat) -> nat
    decreases n,
{
    if n <= 1 {
        0
    } else {
        let b = nearest_upto(p, cs, (n - 1) as nat);
        if sq_dist(p, cs[n - 1]) < sq_dist(p, cs[b as int]) {
            (n - 1) as nat
        } else {
            b
        }
    }
}

/// Index of the closest centroid to `p`; ties go to the lowest index.
pub open spec fn nearest(p: Seq<u8>, cs: Seq<Seq<u8>>) -> nat {
    nearest_upto(p, cs, cs.len())
}

/// `j` is a closest centroid to `p`.
pub open spec fn is_nearest(p: Seq<u8>, cs: Seq<Seq<u8>>, j: int) -> bool {
    &&& 0 <= j < cs.len()
    &&& forall|i: int| 0 <= i < cs.len() ==> sq_dist(p, cs[j]) <= sq_dist(p, cs[i])
}

/// `j` is the closest centroid to `p` of lowest index.
pub open spec fn is_first_nearest(p: Seq<u8>, cs: Seq<Seq<u8>>, j: int) -> bool {
    &&& is_nearest(p, cs, j)
    &&& forall|i: int| 0 <= i < j ==> sq_dist(p, cs[j]) < sq_dist(p, cs[i])
}

pub proof fn lemma_nearest_upto(p: Seq<u8>, cs: Seq<Seq<u8>>, n: nat)
    requires
        1 <= n <= cs.len(),
    ensures
        is_first_nearest(p, cs.take(n as int), nearest_upto(p, cs, n) as int),
    decreases n,
{
    if n > 1 {
        lemma_nearest_upto(p, cs, (n - 1) as nat);
        assert(cs.take(n as int).take((n - 1) as int) =~= cs.take((n - 1) as int));
    }
}

pub proof fn lemma_nearest(p: Seq<u8>, cs: Seq<Seq<u8>>)
    requires
        cs.len() >= 1,
    ensures
        is_first_nearest(p, cs, nearest(p, cs) as int),
{
    lemma_nearest_upto(p, cs, cs.len());
    assert(cs.take(cs.len() as int) =~= cs);
}

/// The assignment of every point to its closest centroid.
pub open spec fn assign(data: Seq<Seq<u8>>, cs: Seq<Seq<u8>>) -> Seq<usize> {
    Seq::new(data.len(), |i: int| nearest(data[i], cs) as usize)
}

/// Number of the first `n` points assigned to cluster `j`.
pub open spec fn cluster_count(asg: Seq<usize>, j: int, n: nat) -> nat
    decreases n,
{
    if n == 0 {
        0
    } else {
        cluster_count(asg, j, (n - 1) as nat) + if asg[n - 1] == j {
            1nat
        } else {
            0nat
        }
    }
}

/// Sum of channel `c` over the first `n` points assigned to cluster `j`.
pub open spec fn cluster_sum(data: Seq<Seq<u8>>, asg: Seq<usize>, j: int, c: int, n: nat) -> nat
    decreases n,
{
    if n == 0 {
        0
    } else {
        cluster_sum(data, asg, j, c, (n - 1) as nat) + if asg[n - 1] == j {
            data[n - 1][c] as nat
        } else {
            0nat
        }
    }
}

/// The mean of `count` values summing to `sum`, rounded to the nearest integer (halves up).
pub open spec fn mean(sum: nat, count: nat) -> nat {
    (sum + count / 2) / count
}

/// The centroid of cluster `j`: the mean of its points, or `prev` if it has none.
pub open spec fn cluster_centroid(
    data: Seq<Seq<u8>>,
    asg: Seq<usize>,
    j: int,
    prev: Seq<u8>,
) -> Seq<u8> {
    let count = cluster_count(asg, j, data.len());
    if count == 0 {
        prev
    } else {
        Seq::new(prev.len(), |c: int| mean(cluster_sum(data, asg, j, c, data.len()), count) as u8)
    }
}

/// The centroids recomputed from an assignment; an empty cluster keeps its previous centroid.
pub open spec fn recompute(data: Seq<Seq<u8>>, asg: Seq<usize>, prev: Seq<Seq<u8>>) -> Seq<
    Seq<u8>,
> {
    Seq::new(prev.len(), |j: int| cluster_centroid(data, asg, j, prev[j]))
}

/// Every centroid moved by strictly less than `tol` (compared by index).
#[verifier::opaque]
pub open spec fn converged(old: Seq<Seq<u8>>, new: Seq<Seq<u8>>, tol: int) -> bool {
    forall|j: int| 0 <= j < old.len() && j < new.len() ==> sq_dist(old[j], new[j]) < tol * tol
}

/// Every point of `data` has `dim` channels.
pub open spec fn all_dim(data: Seq<Seq<u8>>, dim: nat) -> bool {
    forall|i: int| 0 <= i < data.len() ==> data[i].len() == dim
}

/// Every assignment names one of `k` clusters.
pub open spec fn in_range(asg: Seq<usize>, k: nat) -> bool {
    forall|i: int| 0 <= i < asg.len() ==> asg[i] < k
}

pub proof fn lemma_cluster_count_le(asg: Seq<usize>, j: int, n: nat)
    ensures
        cluster_count(asg, j, n) <= n,
    decreases n,
{
    if n > 0 {
        lemma_cluster_count_le(asg, j, (n - 1) as nat);
    }
}

pub proof fn lemma_cluster_sum_le(data: Seq<Seq<u8>>, asg: Seq<usize>, j: int, c: int, n: nat)
    requires
        n <= data.len(),
        0 <= c,
        forall|i: int| 0 <= i < data.len() ==> c < (#[trigger] data[i]).len(),
    ensures
        cluster_sum(data, asg, j, c, n) <= 255 * cluster_count(asg, j, n),
    decreases n,
{
    if n > 0 {
        lemma_cluster_sum_le(data, asg, j, c, (n - 1) as nat);
    }
}

/// A mean of values no larger than 255 is no larger than 255.
pub proof fn lemma_mean_le(sum: nat, count: nat)
    requires
        count > 0,
        sum <= 255 * count,
    ensures
        mean(sum, count) <= 255,
{
    assert((sum + count / 2) / count <= 255) by (nonlinear_arith)
        requires
            count > 0,
            sum <= 255 * count,
    ;
}

/// A centroid set has always converged against itself, for any tolerance other than zero
/// (with zero no movement is strictly below the bound).
pub proof fn lemma_converged_reflexive(cs: Seq<Seq<u8>>, tol: int)
    requires
        tol != 0,
    ensures
        converged(cs, cs, tol),
{
    reveal(converged);
    assert forall|j: int| 0 <= j < cs.len() && j < cs.len() implies sq_dist(cs[j], cs[j]) < tol
        * tol by {
        lemma_sq_dist_self(cs[j], cs[j].len());
        assert(tol * tol > 0) by (nonlinear_arith)
            requires
                tol != 0,
        ;
    }
}

/// Index of the centroid closest to `pixel`; of several equally close, the first.
pub fn find_closest_centroid<const D: usize>(pixel: &[u8; D], centroids: &[[u8; D]]) -> (r: usize)
    requires
        centroids@.len() > 0,
    ensures
        r == nearest(pixel@, views(centroids@)),
        is_first_nearest(pixel@, views(centroids@), r as int),
{
    let ghost cs = views(centroids@);
    let mut min_distance = euclidean_distance_squared(pixel, &centroids[0]);
    let mut min_index: usize = 0;
    let mut i: usize = 1;
    while i < centroids.len()
        invariant
            1 <= i <= centroids@.len(),
            cs == views(centroids@),
            min_index == nearest_upto(pixel@, cs, i as nat),
            min_distance == sq_dist(pixel@, cs[min_index as int]),
        decreases centroids@.len() - i,
    {
        let distance = euclidean_distance_squared(pixel, &centroids[i]);
        if distance < min_distance {
            min_distance = distance;
            min_index = i;
        }
        i = i + 1;
    }
    proof {
        lemma_nearest(pixel@, cs);
    }
    min_index
}

/// True when every centroid moved by strictly less than `tolerance`, pairing centroids by index.
pub fn has_converged<const D: usize>(
    initial_centroids: &[[u8; D]],
    final_centroids: &[[u8; D]],
    tolerance: u64,
) -> (r: bool)
    ensures
        r == converged(views(initial_centroids@), views(final_centroids@), tolerance as int),
{
    let ghost old_cs = views(initial_centroids@);
    let ghost new_cs = views(final_centroids@);
    let t = tolerance as u128;
    assert(t * t <= 0xffff_ffff_ffff_ffffu128 * 0xffff_ffff_ffff_ffffu128) by (nonlinear_arith)
        requires
            t <= 0xffff_ffff_ffff_ffffu128,
    ;
    let limit: u128 = t * t;
    let mut j: usize = 0;
    while j < initial_centroids.len() && j < final_centroids.len()
        invariant
            j <= initial_centroids@.len(),
            j <= final_centroids@.len(),
            old_cs == views(initial_centroids@),
            new_cs == views(final_centroids@),
            limit == tolerance * tolerance,
            forall|m: int| 0 <= m < j ==> sq_dist(old_cs[m], new_cs[m]) < tolerance * tolerance,
        decreases initial_centroids@.len() - j,
    {
        if euclidean_distance_squared(&initial_centroids[j], &final_centroids[j]) >= limit {
            proof {
                reveal(converged);
                assert(old_cs[j as int] == initial_centroids@[j as int]@);
                assert(new_cs[j as int] == final_centroids@[j as int]@);
            }
            return false;
        }
        j = j + 1;
    }
    proof {
        reveal(converged);
    }
    true
}

} // verus!

verus! {

/// Per-cluster channel sums of the first `n` points, as accumulated by an assignment.
pub open spec fn sums_match<const D: usize>(
    sums: Seq<[u128; D]>,
    data: Seq<Seq<u8>>,
    asg: Seq<usize>,
    n: nat,
) -> bool {
    forall|j: int, c: int|
        0 <= j < sums.len() && 0 <= c < D ==> (#[trigger] sums[j][c]) == cluster_sum(
            data,
            asg,
            j,
            c,
            n,
        )
}

/// Per-cluster point counts of the first `n` points.
pub open spec fn counts_match(counts: Seq<usize>, asg: Seq<usize>, n: nat) -> bool {
    forall|j: int| 0 <= j < counts.len() ==> (#[trigger] counts[j]) == cluster_count(asg, j, n)
}

/// The channel sums and point counts of every cluster under an assignment.
pub fn accumulate<const D: usize>(data: &[[u8; D]], assignments: &[usize], k: usize) -> (r: (
    Vec<[u128; D]>,
    Vec<usize>,
))
    requires
        assignments@.len() == data@.len(),
        in_range(assignments@, k as nat),
    ensures
        r.0@.len() == k,
        r.1@.len() == k,
        sums_match(r.0@, views(data@), assignments@, data@.len()),
        counts_match(r.1@, assignments@, data@.len()),
{
    let ghost dv = views(data@);
    let mut sums: Vec<[u128; D]> = vec![[0u128; D]; k];
    let mut counts: Vec<usize> = vec![0usize; k];
    for i in 0..data.len()
        invariant
            dv == views(data@),
            assignments@.len() == data@.len(),
            in_range(assignments@, k as nat),
            sums@.len() == k,
            counts@.len() == k,
            sums_match(sums@, dv, assignments@, i as nat),
            counts_match(counts@, assignments@, i as nat),
    {
        let j = assignments[i];
        let point = &data[i];
        let ghost before = sums@[j as int];
        let mut s = sums[j];
        proof {
            lemma_cluster_count_le(assignments@, j as int, i as nat);
        }
        for c in 0..D
            invariant
                j < k,
                sums@.len() == k,
                before == sums@[j as int],
                dv == views(data@),
                i < data@.len(),
                point == data@[i as int],
                cluster_count(assignments@, j as int, i as nat) <= i,
                sums_match(sums@, dv, assignments@, i as nat),
                forall|m: int| 0 <= m < c ==> s[m] == before[m] + point[m],
                forall|m: int| c <= m < D ==> s[m] == before[m],
        {
            proof {
                lemma_cluster_sum_le(dv, assignments@, j as int, c as int, i as nat);
                assert(before[c as int] == cluster_sum(dv, assignments@, j as int, c as int, i as nat));
                assert(255 * i <= 255 * 0xffff_ffff_ffff_ffffu128) by (nonlinear_arith)
                    requires
                        i <= 0xffff_ffff_ffff_ffffu128,
                ;
            }
            s[c] = s[c] + point[c] as u128;
        }
        sums.set(j, s);
        counts.set(j, counts[j] + 1);
        proof {
            assert forall|jj: int, c: int| 0 <= jj < sums@.len() && 0 <= c < D implies (
            #[trigger] sums@[jj][c]) == cluster_sum(dv, assignments@, jj, c, (i + 1) as nat) by {
                assert(dv[i as int] == data@[i as int]@);
                if jj != j {
                }
            }
        }
    }
    (sums, counts)
}

/// The centroid of a non-empty cluster from its channel sums and point count.
pub fn centroid_from_sum<const D: usize>(sum: &[u128; D], count: usize) -> (r: [u8; D])
    requires
        count > 0,
        forall|c: int| 0 <= c < D ==> sum[c] <= 255 * count,
    ensures
        forall|c: int| 0 <= c < D ==> r[c] == mean(sum[c] as nat, count as nat),
{
    let mut out: [u8; D] = [0u8; D];
    let cnt = count as u128;
    for c in 0..D
        invariant
            cnt == count,
            count > 0,
            forall|m: int| 0 <= m < D ==> sum[m] <= 255 * count,
            forall|m: int| 0 <= m < c ==> out[m] == mean(sum[m] as nat, count as nat),
    {
        proof {
            lemma_mean_le(sum[c as int] as nat, count as nat);
        }
        let v = (sum[c] + cnt / 2) / cnt;
        out[c] = v as u8;
    }
    out
}

/// The centroids recomputed from an assignment: each cluster's rounded mean, or its previous
/// centroid when no point is assigned to it.
pub fn recompute_centroids<const D: usize>(
    data: &[[u8; D]],
    assignments: &[usize],
    centroids: &[[u8; D]],
) -> (r: Vec<[u8; D]>)
    requires
        assignments@.len() == data@.len(),
        in_range(assignments@, centroids@.len()),
    ensures
        views(r@) == recompute(views(data@), assignments@, views(centroids@)),
{
    let ghost dv = views(data@);
    let (sums, counts) = accumulate(data, assignments, centroids.len());
    let mut out: Vec<[u8; D]> = Vec::new();
    for j in 0..centroids.len()
        invariant
            dv == views(data@),
            sums@.len() == centroids@.len(),
            counts@.len() == centroids@.len(),
            sums_match(sums@, dv, assignments@, data@.len()),
            counts_match(counts@, assignments@, data@.len()),
            out@.len() == j,
            forall|m: int|
                0 <= m < j ==> (#[trigger] out@[m])@ == cluster_centroid(
                    dv,
                    assignments@,
                    m,
                    centroids@[m]@,
                ),
    {
        if counts[j] == 0 {
            out.push(centroids[j]);
        } else {
            proof {
                assert forall|c: int| 0 <= c < D implies sums@[j as int][c] <= 255 * counts@[j as int] by {
                    assert(sums@[j as int][c] == cluster_sum(dv, assignments@, j as int, c, data@.len()));
                    lemma_cluster_sum_le(dv, assignments@, j as int, c, data@.len());
                }
            }
            let cen = centroid_from_sum(&sums[j], counts[j]);
            out.push(cen);
            proof {
                let want = cluster_centroid(dv, assignments@, j as int, centroids@[j as int]@);
                assert(cen@ =~= want);
            }
        }
    }
    proof {
        assert(views(out@) =~= recompute(dv, assignments@, views(centroids@)));
    }
    out
}

} // verus!

verus! {

/// Moving point `i` to cluster `nj` changes each cluster's count by its arrival or departure.
pub proof fn lemma_cluster_count_update(asg: Seq<usize>, i: int, nj: usize, j: int, n: nat)
    requires
        0 <= i < n <= asg.len(),
    ensures
        cluster_count(asg.update(i, nj), j, n) + (if asg[i] == j {
            1int
        } else {
            0int
        }) == cluster_count(asg, j, n) + (if nj == j {
            1int
        } else {
            0int
        }),
    decreases n,
{
    if n - 1 > i {
        lemma_cluster_count_update(asg, i, nj, j, (n - 1) as nat);
    } else {
        lemma_cluster_count_same(asg, asg.update(i, nj), j, (n - 1) as nat);
    }
}

/// Moving point `i` to cluster `nj` changes each cluster's sums by its arrival or departure.
pub proof fn lemma_cluster_sum_update(
    data: Seq<Seq<u8>>,
    asg: Seq<usize>,
    i: int,
    nj: usize,
    j: int,
    c: int,
    n: nat,
)
    requires
        0 <= i < n <= asg.len(),
        n <= data.len(),
    ensures
        cluster_sum(data, asg.update(i, nj), j, c, n) + (if asg[i] == j {
            data[i][c] as int
        } else {
            0int
        }) == cluster_sum(data, asg, j, c, n) + (if nj == j {
            data[i][c] as int
        } else {
            0int
        }),
    decreases n,
{
    if n - 1 > i {
        lemma_cluster_sum_update(data, asg, i, nj, j, c, (n - 1) as nat);
    } else {
        lemma_cluster_sum_same(data, asg, asg.update(i, nj), j, c, (n - 1) as nat);
    }
}

/// Counts over a prefix depend only on the assignments in that prefix.
pub proof fn lemma_cluster_count_same(a: Seq<usize>, b: Seq<usize>, j: int, n: nat)
    requires
        n <= a.len(),
        n <= b.len(),
        forall|m: int| 0 <= m < n ==> a[m] == b[m],
    ensures
        cluster_count(a, j, n) == cluster_count(b, j, n),
    decreases n,
{
    if n > 0 {
        lemma_cluster_count_same(a, b, j, (n - 1) as nat);
    }
}

/// Sums over a prefix depend only on the assignments in that prefix.
pub proof fn lemma_cluster_sum_same(
    data: Seq<Seq<u8>>,
    a: Seq<usize>,
    b: Seq<usize>,
    j: int,
    c: int,
    n: nat,
)
    requires
        n <= a.len(),
        n <= b.len(),
        forall|m: int| 0 <= m < n ==> a[m] == b[m],
    ensures
        cluster_sum(data, a, j, c, n) == cluster_sum(data, b, j, c, n),
    decreases n,
{
    if n > 0 {
        lemma_cluster_sum_same(data, a, b, j, c, (n - 1) as nat);
    }
}

} // verus!

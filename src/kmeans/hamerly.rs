//! The bound-accelerated refinement: per-point distance bounds and per-centroid neighbor and
//! move distances let most points skip the search for their closest centroid.
use vstd::prelude::*;
use crate::distance::{
    ceil_sqrt, euclidean_distance_squared, floor_sqrt, is_ceil_sqrt, is_floor_sqrt, EuclideanDistance,
};
use crate::geometry::{lemma_triangle, lemma_triangle_strict};
use crate::kmeans::utils::{is_nearest, mean, nearest, nearest_upto, lemma_nearest, views};
use crate::types::{lemma_sq_dist_symmetric, lemma_sq_dist_upto_bounds, sq_dist};

verus! {

/// `u` bounds from above the distance from `p` to centroid `a`.
pub open spec fn upper_ok(p: Seq<u8>, cs: Seq<Seq<u8>>, a: int, u: int) -> bool {
    sq_dist(p, cs[a]) <= u * u
}

/// `l` bounds from below the distance from `p` to every centroid other than `a`.
pub open spec fn lower_ok(p: Seq<u8>, cs: Seq<Seq<u8>>, a: int, l: int) -> bool {
    forall|j: int| 0 <= j < cs.len() && j != a ==> l * l <= #[trigger] sq_dist(p, cs[j])
}

/// `l` is the distance from `p` to the closest centroid other than `a`, rounded down; with no
/// other centroid, the root of `u128::MAX` rounded down.
#[verifier::opaque]
pub open spec fn second_distance(p: Seq<u8>, cs: Seq<Seq<u8>>, a: int, l: int) -> bool {
    if cs.len() <= 1 {
        is_floor_sqrt(u128::MAX as int, l)
    } else {
        exists|j: int|
            0 <= j < cs.len() && j != a && (forall|m: int|
                0 <= m < cs.len() && m != a ==> sq_dist(p, cs[j]) <= #[trigger] sq_dist(p, cs[m]))
                && is_floor_sqrt(#[trigger] sq_dist(p, cs[j]), l)
    }
}

/// The closest centroid to `p` (the first of equals), with the distance to it rounded up and
/// the distance to the next closest rounded down.
fn find_best_and_second_best<const D: usize>(centroids: &[[u8; D]], point: &[u8; D]) -> (r: (
    EuclideanDistance,
    EuclideanDistance,
    usize,
))
    requires
        centroids@.len() > 0,
    ensures
        r.2 == nearest(point@, views(centroids@)),
        r.2 < centroids@.len(),
        is_ceil_sqrt(sq_dist(point@, views(centroids@)[r.2 as int]), r.0.0 as int),
        lower_ok(point@, views(centroids@), r.2 as int, r.1.0 as int),
        second_distance(point@, views(centroids@), r.2 as int, r.1.0 as int),
{
    let ghost cv = views(centroids@);
    let mut best_distance: u128 = u128::MAX;
    let mut second_best_distance: u128 = u128::MAX;
    let mut best_index: usize = 0;
    for j in 0..centroids.len()
        invariant
            cv == views(centroids@),
            centroids@.len() > 0,
            j == 0 ==> best_distance == u128::MAX && best_index == 0,
            j > 0 ==> best_index == nearest_upto(point@, cv, j as nat),
            j > 0 ==> best_distance == sq_dist(point@, cv[best_index as int]),
            best_index < centroids@.len(),
            forall|m: int| 0 <= m < j ==> best_distance <= #[trigger] sq_dist(point@, cv[m]),
            best_distance <= second_best_distance,
            best_index <= j,
            j > 0 ==> best_index < j,
            forall|m: int|
                0 <= m < j && m != best_index ==> second_best_distance <= #[trigger] sq_dist(
                    point@,
                    cv[m],
                ),
            j <= 1 ==> second_best_distance == u128::MAX,
            j >= 2 ==> exists|m: int|
                0 <= m < j && m != best_index && second_best_distance == #[trigger] sq_dist(
                    point@,
                    cv[m],
                ),
    {
        let distance = euclidean_distance_squared(point, &centroids[j]).0;
        proof {
            assert(cv[j as int] == centroids@[j as int]@);
            lemma_sq_dist_upto_bounds(point@, cv[j as int], D as nat);
            assert(65025 * D <= 65025 * 0xffff_ffff_ffff_ffffu128) by (nonlinear_arith)
                requires
                    D <= 0xffff_ffff_ffff_ffffu128,
            ;
        }
        let ghost old_best = best_index;
        if distance < best_distance {
            second_best_distance = best_distance;
            best_distance = distance;
            best_index = j;
            proof {
                if j >= 1 {
                    assert(second_best_distance == sq_dist(point@, cv[old_best as int]));
                }
            }
        } else if distance < second_best_distance {
            second_best_distance = distance;
            assert(second_best_distance == sq_dist(point@, cv[j as int]));
        }
    }
    proof {
        crate::kmeans::utils::lemma_nearest(point@, cv);
        assert(cv.take(cv.len() as int) =~= cv);
    }
    let best = ceil_sqrt(best_distance);
    let second = floor_sqrt(second_best_distance);
    proof {
        assert forall|m: int| 0 <= m < cv.len() && m != best_index implies second * second
            <= #[trigger] sq_dist(point@, cv[m]) by {
            assert(second_best_distance <= sq_dist(point@, cv[m]));
        }
        reveal(second_distance);
        if cv.len() >= 2 {
            let m = choose|m: int|
                0 <= m < cv.len() && m != best_index && second_best_distance == #[trigger] sq_dist(
                    point@,
                    cv[m],
                );
            assert(is_floor_sqrt(sq_dist(point@, cv[m]), second as int));
        }
    }
    (EuclideanDistance(best), EuclideanDistance(second), best_index)
}

} // verus!

verus! {

/// `nb` bounds from below the distance from centroid `a` to every other centroid.
pub open spec fn neighbor_ok(cs: Seq<Seq<u8>>, a: int, nb: int) -> bool {
    forall|j: int| 0 <= j < cs.len() && j != a ==> nb * nb <= #[trigger] sq_dist(cs[a], cs[j])
}

/// For each centroid, the distance to its closest other centroid, rounded down.
fn compute_neighbor_distances<const D: usize>(centroids: &[[u8; D]]) -> (r: Vec<EuclideanDistance>)
    ensures
        r@.len() == centroids@.len(),
        forall|a: int|
            0 <= a < centroids@.len() ==> neighbor_ok(views(centroids@), a, (#[trigger] r@[a]).0 as int),
        forall|a: int|
            0 <= a < centroids@.len() ==> second_distance(
                views(centroids@)[a],
                views(centroids@),
                a,
                (#[trigger] r@[a]).0 as int,
            ),
{
    let ghost cv = views(centroids@);
    let mut distances: Vec<EuclideanDistance> = Vec::new();
    for i in 0..centroids.len()
        invariant
            cv == views(centroids@),
            distances@.len() == i,
            forall|a: int| 0 <= a < i ==> neighbor_ok(cv, a, (#[trigger] distances@[a]).0 as int),
            forall|a: int| 0 <= a < i ==> second_distance(cv[a], cv, a, (#[trigger] distances@[a]).0 as int),
    {
        let mut closest: u128 = u128::MAX;
        for j in 0..centroids.len()
            invariant
                cv == views(centroids@),
                i < centroids@.len(),
                forall|m: int| 0 <= m < j && m != i ==> closest <= #[trigger] sq_dist(cv[i as int], cv[m]),
                (j == 0 || (j == 1 && i == 0)) ==> closest == u128::MAX,
                !(j == 0 || (j == 1 && i == 0)) ==> exists|m: int|
                    0 <= m < j && m != i && closest == #[trigger] sq_dist(cv[i as int], cv[m]),
        {
            if i != j {
                let d = euclidean_distance_squared(&centroids[i], &centroids[j]).0;
                proof {
                    assert(cv[i as int] == centroids@[i as int]@);
                    assert(cv[j as int] == centroids@[j as int]@);
                    lemma_sq_dist_upto_bounds(cv[i as int], cv[j as int], D as nat);
                    assert(65025 * D <= 65025 * 0xffff_ffff_ffff_ffffu128) by (nonlinear_arith)
                        requires
                            D <= 0xffff_ffff_ffff_ffffu128,
                    ;
                }
                if d < closest {
                    closest = d;
                }
            }
        }
        let nb = floor_sqrt(closest);
        distances.push(EuclideanDistance(nb));
        proof {
            assert forall|m: int| 0 <= m < cv.len() && m != i implies nb * nb <= #[trigger] sq_dist(
                cv[i as int],
                cv[m],
            ) by {
                assert(closest <= sq_dist(cv[i as int], cv[m]));
            }
            assert(neighbor_ok(cv, i as int, distances@[i as int].0 as int));
            reveal(second_distance);
            if cv.len() >= 2 {
                let m = choose|m: int|
                    0 <= m < cv.len() && m != i && closest == #[trigger] sq_dist(cv[i as int], cv[m]);
                assert(is_floor_sqrt(sq_dist(cv[i as int], cv[m]), nb as int));
            }
            assert(second_distance(cv[i as int], cv, i as int, distances@[i as int].0 as int));
        }
    }
    distances
}

/// The centroids moved to their clusters' means (an empty cluster keeps its centroid), with the
/// distance each one moved, rounded up.
fn move_centroids<const D: usize>(
    centroids: &[[u8; D]],
    centroid_sums: &[[u128; D]],
    centroid_counts: &[usize],
) -> (r: (Vec<[u8; D]>, Vec<EuclideanDistance>))
    requires
        centroid_sums@.len() == centroids@.len(),
        centroid_counts@.len() == centroids@.len(),
        forall|j: int, c: int|
            0 <= j < centroids@.len() && 0 <= c < D ==> #[trigger] centroid_sums@[j][c] <= 255
                * centroid_counts@[j],
    ensures
        r.0@.len() == centroids@.len(),
        r.1@.len() == centroids@.len(),
        forall|j: int|
            0 <= j < centroids@.len() ==> (#[trigger] r.0@[j])@ == if centroid_counts@[j] == 0 {
                centroids@[j]@
            } else {
                Seq::new(D as nat, |c: int| mean(centroid_sums@[j][c] as nat, centroid_counts@[j] as nat) as u8)
            },
        forall|j: int|
            0 <= j < centroids@.len() ==> is_ceil_sqrt(
                sq_dist(centroids@[j]@, r.0@[j]@),
                (#[trigger] r.1@[j]).0 as int,
            ),
{
    let mut new_centroids: Vec<[u8; D]> = Vec::new();
    let mut moves: Vec<EuclideanDistance> = Vec::new();
    for j in 0..centroids.len()
        invariant
            centroid_sums@.len() == centroids@.len(),
            centroid_counts@.len() == centroids@.len(),
            forall|jj: int, c: int|
                0 <= jj < centroids@.len() && 0 <= c < D ==> #[trigger] centroid_sums@[jj][c] <= 255
                    * centroid_counts@[jj],
            new_centroids@.len() == j,
            moves@.len() == j,
            forall|m: int|
                0 <= m < j ==> (#[trigger] new_centroids@[m])@ == if centroid_counts@[m] == 0 {
                    centroids@[m]@
                } else {
                    Seq::new(D as nat, |c: int| mean(centroid_sums@[m][c] as nat, centroid_counts@[m] as nat) as u8)
                },
            forall|m: int|
                0 <= m < j ==> is_ceil_sqrt(
                    sq_dist(centroids@[m]@, new_centroids@[m]@),
                    (#[trigger] moves@[m]).0 as int,
                ),
    {
        let next = if centroid_counts[j] == 0 {
            centroids[j]
        } else {
            let c = crate::kmeans::utils::centroid_from_sum(&centroid_sums[j], centroid_counts[j]);
            proof {
                let want = Seq::new(D as nat, |cc: int| mean(centroid_sums@[j as int][cc] as nat, centroid_counts@[j as int] as nat) as u8);
                assert(c@ =~= want);
            }
            c
        };
        let mv = euclidean_distance_squared(&centroids[j], &next).sqrt_ceil();
        new_centroids.push(next);
        moves.push(mv);
    }
    (new_centroids, moves)
}

/// The largest move, the index of a centroid that made it, and the largest move among the
/// other centroids (zero when there is none).
fn largest_two_moves(distances: &[EuclideanDistance]) -> (r: (u128, usize, u128))
    requires
        distances@.len() > 0,
    ensures
        r.0 == distances@[r.1 as int].0,
        largest_pair(distances@, r.1 as int, r.2 as int),
{
    let mut r1: u128 = 0;
    let mut r2: u128 = 0;
    let mut r1_index: usize = 0;
    for i in 0..distances.len()
        invariant
            distances@.len() > 0,
            r1_index < distances@.len(),
            i > 0 ==> r1 == distances@[r1_index as int].0,
            i == 0 ==> r1 == 0 && r1_index == 0,
            r2 <= r1,
            forall|j: int| 0 <= j < i ==> (#[trigger] distances@[j]).0 <= r1,
            forall|j: int| 0 <= j < i && j != r1_index ==> (#[trigger] distances@[j]).0 <= r2,
            forall|j: int| 0 <= j < r1_index ==> (#[trigger] distances@[j]).0 < r1,
            r1_index <= i,
            i > 0 ==> r1_index < i,
            r2 == 0 || exists|j: int| 0 <= j < i && j != r1_index && r2 == (#[trigger] distances@[j]).0,
    {
        let d = distances[i].0;
        let ghost old_index = r1_index;
        if d > r1 {
            r2 = r1;
            r1 = d;
            r1_index = i;
            proof {
                if i > 0 {
                    assert(r2 == distances@[old_index as int].0);
                }
            }
        } else if d > r2 {
            r2 = d;
            assert(r2 == distances@[i as int].0);
        } else if i == 0 {
            r1_index = 0;
        }
    }
    (r1, r1_index, r2)
}

/// `r1` is the lowest index of a largest move, and `r2` the largest move among the other
/// centroids (zero when there is none).
pub open spec fn largest_pair(ds: Seq<EuclideanDistance>, r1: int, r2: int) -> bool {
    &&& 0 <= r1 < ds.len()
    &&& forall|j: int| 0 <= j < ds.len() ==> (#[trigger] ds[j]).0 <= ds[r1].0
    &&& forall|j: int| 0 <= j < r1 ==> (#[trigger] ds[j]).0 < ds[r1].0
    &&& forall|j: int| 0 <= j < ds.len() && j != r1 ==> (#[trigger] ds[j]).0 <= r2
    &&& r2 == 0 || exists|j: int| 0 <= j < ds.len() && j != r1 && r2 == (#[trigger] ds[j]).0
}

/// Point `m`'s bounds were moved from `(up0, lo0)` to `(up, lo)`: the upper bound grew by its
/// own centroid's move, the lower bound shrank by the largest move among the other centroids.
pub open spec fn bound_moved(
    up0: Seq<EuclideanDistance>,
    lo0: Seq<EuclideanDistance>,
    up: Seq<EuclideanDistance>,
    lo: Seq<EuclideanDistance>,
    ds: Seq<EuclideanDistance>,
    clusters: Seq<usize>,
    r1: int,
    r2: int,
    m: int,
) -> bool {
    &&& up[m].0 == sat_add(up0[m].0 as int, ds[clusters[m] as int].0 as int)
    &&& lo[m].0 == sat_sub(
        lo0[m].0 as int,
        if clusters[m] == r1 {
            r2
        } else {
            ds[r1].0 as int
        },
    )
}

/// `a + b`, or `u128::MAX` when that is larger.
pub open spec fn sat_add(a: int, b: int) -> int {
    if a + b > u128::MAX {
        u128::MAX as int
    } else {
        a + b
    }
}

/// `a - b`, or zero when that is negative.
pub open spec fn sat_sub(a: int, b: int) -> int {
    if a < b {
        0
    } else {
        a - b
    }
}

/// Loosens every point's bounds by how far the centroids moved: its upper bound grows by its own
/// centroid's move, its lower bound shrinks by the largest move among the other centroids.
fn update_bounds(
    upper_bounds: &mut Vec<EuclideanDistance>,
    lower_bounds: &mut Vec<EuclideanDistance>,
    distances: &[EuclideanDistance],
    clusters: &[usize],
)
    requires
        distances@.len() > 0,
        old(upper_bounds)@.len() == clusters@.len(),
        old(lower_bounds)@.len() == clusters@.len(),
        forall|i: int| 0 <= i < clusters@.len() ==> #[trigger] clusters@[i] < distances@.len(),
    ensures
        final(upper_bounds)@.len() == clusters@.len(),
        final(lower_bounds)@.len() == clusters@.len(),
        forall|i: int|
            0 <= i < clusters@.len() ==> (#[trigger] final(upper_bounds)@[i]).0 as int == old(
                upper_bounds,
            )@[i].0 + distances@[clusters@[i] as int].0 || final(upper_bounds)@[i].0 == u128::MAX,
        forall|i: int, j: int|
            0 <= i < clusters@.len() && 0 <= j < distances@.len() && j != clusters@[i] ==> (
            #[trigger] final(lower_bounds)@[i]).0 == 0 || final(lower_bounds)@[i].0 + (
            #[trigger] distances@[j]).0 <= old(lower_bounds)@[i].0,
        exists|r1: int, r2: int|
            #[trigger] largest_pair(distances@, r1, r2) && forall|i: int|
                0 <= i < clusters@.len() ==> #[trigger] bound_moved(
                    old(upper_bounds)@,
                    old(lower_bounds)@,
                    final(upper_bounds)@,
                    final(lower_bounds)@,
                    distances@,
                    clusters@,
                    r1,
                    r2,
                    i,
                ),
{
    let (r1, r1_index, r2) = largest_two_moves(distances);
    let ghost up0 = upper_bounds@;
    let ghost lo0 = lower_bounds@;
    for i in 0..clusters.len()
        invariant
            distances@.len() > 0,
            r1_index < distances@.len(),
            r1 == distances@[r1_index as int].0,
            forall|j: int| 0 <= j < distances@.len() ==> (#[trigger] distances@[j]).0 <= r1,
            forall|j: int| 0 <= j < distances@.len() && j != r1_index ==> (#[trigger] distances@[j]).0 <= r2,
            forall|m: int| 0 <= m < clusters@.len() ==> #[trigger] clusters@[m] < distances@.len(),
            up0.len() == clusters@.len(),
            lo0.len() == clusters@.len(),
            upper_bounds@.len() == clusters@.len(),
            lower_bounds@.len() == clusters@.len(),
            forall|m: int| i <= m < clusters@.len() ==> #[trigger] upper_bounds@[m] == up0[m],
            forall|m: int| i <= m < clusters@.len() ==> #[trigger] lower_bounds@[m] == lo0[m],
            forall|m: int|
                0 <= m < i ==> (#[trigger] upper_bounds@[m]).0 as int == up0[m].0
                    + distances@[clusters@[m] as int].0 || upper_bounds@[m].0 == u128::MAX,
            forall|m: int, j: int|
                0 <= m < i && 0 <= j < distances@.len() && j != clusters@[m] ==> (
                #[trigger] lower_bounds@[m]).0 == 0 || lower_bounds@[m].0 + (
                #[trigger] distances@[j]).0 <= lo0[m].0,
            largest_pair(distances@, r1_index as int, r2 as int),
            forall|m: int|
                0 <= m < i ==> #[trigger] bound_moved(
                    up0,
                    lo0,
                    upper_bounds@,
                    lower_bounds@,
                    distances@,
                    clusters@,
                    r1_index as int,
                    r2 as int,
                    m,
                ),
    {
        let a = clusters[i];
        let ghost up_prev = upper_bounds@;
        let ghost lo_start = lower_bounds@;
        let up = upper_bounds[i].0.saturating_add(distances[a].0);
        upper_bounds.set(i, EuclideanDistance(up));
        let shrink = if a == r1_index {
            r2
        } else {
            r1
        };
        let lo = lower_bounds[i].0.saturating_sub(shrink);
        assert(up as int == sat_add(up0[i as int].0 as int, distances@[a as int].0 as int));
        assert(lo as int == sat_sub(lo0[i as int].0 as int, shrink as int));
        let ghost lo_prev = lower_bounds@;
        lower_bounds.set(i, EuclideanDistance(lo));
        proof {
            assert forall|m: int| 0 <= m < i + 1 implies #[trigger] bound_moved(
                up0,
                lo0,
                upper_bounds@,
                lower_bounds@,
                distances@,
                clusters@,
                r1_index as int,
                r2 as int,
                m,
            ) by {
                if m < i {
                    assert(lower_bounds@[m] == lo_prev[m]);
                    assert(upper_bounds@[m] == up_prev[m]);
                    assert(lo_prev[m] == lo_start[m]);
                    assert(bound_moved(up0, lo0, up_prev, lo_start, distances@, clusters@, r1_index as int, r2 as int, m));
                } else {
                    assert(upper_bounds@[m].0 == up);
                    assert(lower_bounds@[m].0 == lo);
                    assert(clusters@[m] == a);
                    assert(shrink as int == if clusters@[m] == r1_index {
                        r2 as int
                    } else {
                        distances@[r1_index as int].0 as int
                    });
                }
            }
        }
    }
    proof {
        assert(largest_pair(distances@, r1_index as int, r2 as int));
    }
}

} // verus!

verus! {

proof fn lemma_skip_by_lower(p: Seq<u8>, cs: Seq<Seq<u8>>, a: int, u: int, l: int)
    requires
        0 <= a < cs.len(),
        0 <= u <= l,
        upper_ok(p, cs, a, u),
        lower_ok(p, cs, a, l),
    ensures
        is_nearest(p, cs, a),
{
    assert(u * u <= l * l) by (nonlinear_arith)
        requires
            0 <= u <= l,
    ;
    assert forall|j: int| 0 <= j < cs.len() implies sq_dist(p, cs[a]) <= sq_dist(p, cs[j]) by {
        if j != a {
            assert(l * l <= sq_dist(p, cs[j]));
        }
    }
}

proof fn lemma_skip_by_neighbor(p: Seq<u8>, cs: Seq<Seq<u8>>, a: int, u: int, nb: int)
    requires
        0 <= a < cs.len(),
        forall|j: int| 0 <= j < cs.len() ==> (#[trigger] cs[j]).len() == p.len(),
        0 <= u,
        2 * u <= nb,
        upper_ok(p, cs, a, u),
        neighbor_ok(cs, a, nb),
    ensures
        is_nearest(p, cs, a),
{
    assert forall|j: int| 0 <= j < cs.len() implies sq_dist(p, cs[a]) <= sq_dist(p, cs[j]) by {
        if j != a && sq_dist(p, cs[j]) < sq_dist(p, cs[a]) {
            lemma_sq_dist_symmetric(p, cs[j], p.len());
            lemma_sq_dist_symmetric(cs[a], cs[j], p.len());
            lemma_triangle_strict(cs[j], p, cs[a], u, u);
            assert(nb * nb >= (u + u) * (u + u)) by (nonlinear_arith)
                requires
                    0 <= u,
                    2 * u <= nb,
            ;
            assert(nb * nb <= sq_dist(cs[a], cs[j]));
        }
    }
}

proof fn lemma_relax_upper(p: Seq<u8>, ca: Seq<u8>, ca2: Seq<u8>, u: int, mv: int, u2: int)
    requires
        p.len() == ca.len(),
        ca.len() == ca2.len(),
        p.len() <= usize::MAX,
        u >= 0,
        sq_dist(p, ca) <= u * u,
        is_ceil_sqrt(sq_dist(ca, ca2), mv),
        u2 == u + mv || u2 == u128::MAX,
    ensures
        sq_dist(p, ca2) <= u2 * u2,
{
    if u2 == u + mv {
        lemma_triangle(p, ca, ca2, u, mv);
    } else {
        lemma_sq_dist_upto_bounds(p, ca2, p.len());
        assert(65025 * p.len() <= u2 * u2) by (nonlinear_arith)
            requires
                p.len() <= 0xffff_ffff_ffff_ffffu128,
                u2 == 0xffff_ffff_ffff_ffff_ffff_ffff_ffff_ffffu128,
        ;
    }
}

proof fn lemma_relax_lower(p: Seq<u8>, cj: Seq<u8>, cj2: Seq<u8>, l: int, l2: int, mv: int)
    requires
        p.len() == cj.len(),
        cj.len() == cj2.len(),
        l >= 0,
        l2 >= 0,
        l * l <= sq_dist(p, cj),
        is_ceil_sqrt(sq_dist(cj, cj2), mv),
        l2 == 0 || l2 + mv <= l,
    ensures
        l2 * l2 <= sq_dist(p, cj2),
{
    lemma_sq_dist_upto_bounds(p, cj2, p.len());
    if l2 != 0 && sq_dist(p, cj2) < l2 * l2 {
        lemma_sq_dist_symmetric(cj, cj2, p.len());
        lemma_triangle_strict(p, cj2, cj, l2, mv);
        assert((l2 + mv) * (l2 + mv) <= l * l) by (nonlinear_arith)
            requires
                0 <= l2 + mv <= l,
        ;
    }
}

/// One round of the accelerated algorithm from the centroids `prev`: each point goes to a
/// closest centroid of `prev` (of several equally close ones, any), the centroids are recomputed
/// from that assignment, and `done` records whether they moved by less than `tol`.
pub open spec fn hamerly_step(
    data: Seq<Seq<u8>>,
    prev: Seq<Seq<u8>>,
    tol: int,
    asg: Seq<usize>,
    cs: Seq<Seq<u8>>,
    done: bool,
) -> bool {
    &&& asg.len() == data.len()
    &&& forall|i: int| 0 <= i < data.len() ==> is_nearest(data[i], prev, #[trigger] asg[i] as int)
    &&& cs == crate::kmeans::utils::recompute(data, asg, prev)
    &&& done == crate::kmeans::utils::converged(prev, cs, tol)
}

/// A state of a run: the assignment, the centroids, and whether the run has converged.
pub type RunState = (Seq<usize>, Seq<Seq<u8>>, bool);

/// One round of the accelerated algorithm from `before` to `after`: a converged run stays as it
/// is, otherwise [`hamerly_step`] from the centroids of `before`.
pub open spec fn hamerly_round(data: Seq<Seq<u8>>, tol: int, before: RunState, after: RunState) -> bool {
    if before.2 {
        after == before
    } else {
        hamerly_step(data, before.1, tol, after.0, after.1, after.2)
    }
}

/// `tr` lists the states of an accelerated run from the centroids `cs0`, one per round.
pub open spec fn hamerly_trace(data: Seq<Seq<u8>>, cs0: Seq<Seq<u8>>, tol: int, tr: Seq<RunState>) -> bool {
    &&& tr.len() >= 1
    &&& tr[0].1 == cs0
    &&& !tr[0].2
    &&& tr[0].0.len() == data.len()
    &&& forall|u: int| 0 <= u < tr.len() - 1 ==> #[trigger] hamerly_round(data, tol, tr[u], tr[u + 1])
}

/// `(asg, cs, done)` is a state the accelerated algorithm can be in after `t` rounds from the
/// centroids `cs0`.
#[verifier::opaque]
pub open spec fn hamerly_reachable(
    data: Seq<Seq<u8>>,
    cs0: Seq<Seq<u8>>,
    tol: int,
    t: nat,
    asg: Seq<usize>,
    cs: Seq<Seq<u8>>,
    done: bool,
) -> bool {
    exists|tr: Seq<RunState>|
        #[trigger] hamerly_trace(data, cs0, tol, tr) && tr.len() == t + 1 && tr.last() == (
            asg,
            cs,
            done,
        )
}

/// A converged run's trace extends to any later round with copies of its last state.
proof fn lemma_pad_trace(data: Seq<Seq<u8>>, cs0: Seq<Seq<u8>>, tol: int, tr: Seq<RunState>, u: nat)
    requires
        hamerly_trace(data, cs0, tol, tr),
        tr.len() <= u + 1,
        tr.last().2 || tr.len() == u + 1,
    ensures
        hamerly_reachable(data, cs0, tol, u, tr.last().0, tr.last().1, tr.last().2),
{
    let last = tr.last();
    let pad = tr + Seq::new((u + 1 - tr.len()) as nat, |x: int| last);
    assert forall|v: int| 0 <= v < pad.len() - 1 implies #[trigger] hamerly_round(data, tol, pad[v], pad[v + 1]) by {
        if v + 1 < tr.len() {
            assert(hamerly_round(data, tol, tr[v], tr[v + 1]));
        } else {
            assert(pad[v] == last);
            assert(pad[v + 1] == last);
        }
    }
    assert(hamerly_trace(data, cs0, tol, pad));
    assert(pad.last() == last);
    reveal(hamerly_reachable);
}


} // verus!

verus! {

/// The per-point bounds are valid for the centroids `cs` and the assignment `asg`.
pub open spec fn bounds_ok(
    data: Seq<Seq<u8>>,
    cs: Seq<Seq<u8>>,
    asg: Seq<usize>,
    upper: Seq<EuclideanDistance>,
    lower: Seq<EuclideanDistance>,
) -> bool {
    forall|i: int|
        0 <= i < data.len() ==> upper_ok(data[i], cs, asg[i] as int, (#[trigger] upper[i]).0 as int)
            && lower_ok(data[i], cs, asg[i] as int, lower[i].0 as int)
}

/// Changing the assignment and bounds of point `i` alone, to valid ones, keeps all bounds valid.
proof fn lemma_bounds_after_point(
    data: Seq<Seq<u8>>,
    cs: Seq<Seq<u8>>,
    asg0: Seq<usize>,
    up0: Seq<EuclideanDistance>,
    lo0: Seq<EuclideanDistance>,
    asg: Seq<usize>,
    up: Seq<EuclideanDistance>,
    lo: Seq<EuclideanDistance>,
    i: int,
)
    requires
        0 <= i < data.len(),
        bounds_ok(data, cs, asg0, up0, lo0),
        asg.len() == asg0.len() && up.len() == up0.len() && lo.len() == lo0.len(),
        asg0.len() == data.len() && up0.len() == data.len() && lo0.len() == data.len(),
        forall|m: int| 0 <= m < asg.len() && m != i ==> asg[m] == asg0[m],
        forall|m: int| 0 <= m < up.len() && m != i ==> up[m] == up0[m],
        forall|m: int| 0 <= m < lo.len() && m != i ==> lo[m] == lo0[m],
        upper_ok(data[i], cs, asg[i] as int, up[i].0 as int),
        lower_ok(data[i], cs, asg[i] as int, lo[i].0 as int),
    ensures
        bounds_ok(data, cs, asg, up, lo),
{
    assert forall|m: int| 0 <= m < data.len() implies upper_ok(data[m], cs, asg[m] as int, (#[trigger] up[m]).0 as int)
        && lower_ok(data[m], cs, asg[m] as int, lo[m].0 as int) by {
        if m != i {
            assert(up0[m] == up[m]);
            assert(lo0[m] == lo[m]);
            assert(asg0[m] == asg[m]);
            assert(upper_ok(data[m], cs, asg0[m] as int, up0[m].0 as int));
            assert(lower_ok(data[m], cs, asg0[m] as int, lo0[m].0 as int));
        }
    }
}

/// Assigns every point to its closest centroid, with exact bounds.
fn initialize_hamerly<const D: usize>(data: &[[u8; D]], centroids: &[[u8; D]]) -> (r: (
    Vec<usize>,
    Vec<EuclideanDistance>,
    Vec<EuclideanDistance>,
))
    requires
        centroids@.len() > 0,
    ensures
        r.0@.len() == data@.len(),
        r.1@.len() == data@.len(),
        r.2@.len() == data@.len(),
        crate::kmeans::utils::in_range(r.0@, centroids@.len() as nat),
        bounds_ok(views(data@), views(centroids@), r.0@, r.1@, r.2@),
        forall|i: int|
            0 <= i < data@.len() ==> #[trigger] r.0@[i] as nat == nearest(
                views(data@)[i],
                views(centroids@),
            ),
        forall|i: int|
            0 <= i < data@.len() ==> is_ceil_sqrt(
                sq_dist(views(data@)[i], views(centroids@)[r.0@[i] as int]),
                (#[trigger] r.1@[i]).0 as int,
            ),
        forall|i: int|
            0 <= i < data@.len() ==> second_distance(
                views(data@)[i],
                views(centroids@),
                r.0@[i] as int,
                (#[trigger] r.2@[i]).0 as int,
            ),
{
    let ghost dv = views(data@);
    let ghost cv = views(centroids@);
    let mut clusters: Vec<usize> = Vec::new();
    let mut upper_bounds: Vec<EuclideanDistance> = Vec::new();
    let mut lower_bounds: Vec<EuclideanDistance> = Vec::new();
    for i in 0..data.len()
        invariant
            dv == views(data@),
            cv == views(centroids@),
            centroids@.len() > 0,
            clusters@.len() == i,
            upper_bounds@.len() == i,
            lower_bounds@.len() == i,
            forall|m: int| 0 <= m < i ==> #[trigger] clusters@[m] < centroids@.len(),
            forall|m: int|
                0 <= m < i ==> upper_ok(dv[m], cv, clusters@[m] as int, (#[trigger] upper_bounds@[m]).0 as int)
                    && lower_ok(dv[m], cv, clusters@[m] as int, lower_bounds@[m].0 as int),
            forall|m: int| 0 <= m < i ==> #[trigger] clusters@[m] as nat == nearest(dv[m], cv),
            forall|m: int|
                0 <= m < i ==> is_ceil_sqrt(
                    sq_dist(dv[m], cv[clusters@[m] as int]),
                    (#[trigger] upper_bounds@[m]).0 as int,
                ),
            forall|m: int|
                0 <= m < i ==> second_distance(
                    dv[m],
                    cv,
                    clusters@[m] as int,
                    (#[trigger] lower_bounds@[m]).0 as int,
                ),
    {
        let (best, second, best_index) = find_best_and_second_best(centroids, &data[i]);
        proof {
            assert(dv[i as int] == data@[i as int]@);
            lemma_nearest(dv[i as int], cv);
        }
        clusters.push(best_index);
        upper_bounds.push(best);
        lower_bounds.push(second);
    }
    (clusters, upper_bounds, lower_bounds)
}

} // verus!

verus! {

/// Bound-accelerated k-means from the given initial centroids. Each round assigns every point to
/// a closest centroid (a point whose bounds show its centroid is still a closest one keeps it)
/// and recomputes the centroids from that assignment; rounds stop at the first one whose
/// centroids moved by less than `tolerance`, or after `max_iterations` rounds.
#[verifier::spinoff_prover]
#[verifier::rlimit(60)]
pub fn hamerly_from_centroids<const D: usize>(
    data: &[[u8; D]],
    initial_centroids: Vec<[u8; D]>,
    max_iterations: usize,
    tolerance: u64,
) -> (r: (Vec<usize>, Vec<[u8; D]>))
    requires
        initial_centroids@.len() > 0,
    ensures
        r.0@.len() == data@.len(),
        r.1@.len() == initial_centroids@.len(),
        crate::kmeans::utils::in_range(r.0@, initial_centroids@.len() as nat),
        exists|d: bool|
            #[trigger] hamerly_reachable(
                views(data@),
                views(initial_centroids@),
                tolerance as int,
                max_iterations as nat,
                r.0@,
                views(r.1@),
                d,
            ),
        max_iterations == 0 ==> r.0@ == crate::kmeans::utils::assign(
            views(data@),
            views(initial_centroids@),
        ),
{
    let ghost dv = views(data@);
    let k = initial_centroids.len();
    let n = data.len();
    let mut centroids = initial_centroids;
    let (mut clusters, mut upper_bounds, mut lower_bounds) = initialize_hamerly(data, centroids.as_slice());
    let (mut centroid_sums, mut centroid_counts) = crate::kmeans::utils::accumulate(data, clusters.as_slice(), k);
    let ghost cs0 = views(centroids@);
    let ghost tol = tolerance as int;
    let mut iterations: usize = 0;
    let mut done = false;
    let ghost mut trace: Seq<RunState> = seq![(clusters@, views(centroids@), false)];
    proof {
        assert(clusters@ =~= crate::kmeans::utils::assign(dv, cs0));
    }
    while iterations < max_iterations && !done
        invariant
            dv == views(data@),
            n == data@.len(),
            k == centroids@.len(),
            k > 0,
            clusters@.len() == n,
            upper_bounds@.len() == n,
            lower_bounds@.len() == n,
            centroid_sums@.len() == k,
            centroid_counts@.len() == k,
            crate::kmeans::utils::in_range(clusters@, k as nat),
            crate::kmeans::utils::sums_match(centroid_sums@, dv, clusters@, n as nat),
            crate::kmeans::utils::counts_match(centroid_counts@, clusters@, n as nat),
            !done ==> bounds_ok(dv, views(centroids@), clusters@, upper_bounds@, lower_bounds@),
            tol == tolerance as int,
            iterations <= max_iterations,
            hamerly_trace(dv, cs0, tol, trace),
            cs0 == views(initial_centroids@),
            trace.len() == iterations + 1,
            trace.last() == (clusters@, views(centroids@), done),
            iterations == 0 ==> clusters@ == crate::kmeans::utils::assign(dv, cs0),
        decreases max_iterations - iterations,
    {
        let ghost cv = views(centroids@);
        let neighbor_distances = compute_neighbor_distances(centroids.as_slice());
        // Reassign only the points whose bounds leave room for a closer centroid.
        for i in 0..n
            invariant
                dv == views(data@),
                cv == views(centroids@),
                n == data@.len(),
                k == centroids@.len(),
                k > 0,
                neighbor_distances@.len() == k,
                forall|a: int| 0 <= a < k ==> neighbor_ok(cv, a, (#[trigger] neighbor_distances@[a]).0 as int),
                clusters@.len() == n,
                upper_bounds@.len() == n,
                lower_bounds@.len() == n,
                centroid_sums@.len() == k,
                centroid_counts@.len() == k,
                crate::kmeans::utils::in_range(clusters@, k as nat),
                crate::kmeans::utils::sums_match(centroid_sums@, dv, clusters@, n as nat),
                crate::kmeans::utils::counts_match(centroid_counts@, clusters@, n as nat),
                bounds_ok(dv, cv, clusters@, upper_bounds@, lower_bounds@),
                forall|m: int| 0 <= m < i ==> is_nearest(dv[m], cv, #[trigger] clusters@[m] as int),
        {
            let a = clusters[i];
            let point = &data[i];
            let ghost up_before = upper_bounds@;
            let ghost lo_before = lower_bounds@;
            let ghost asg_before = clusters@;
            proof {
                assert(dv[i as int] == point@);
                assert(upper_ok(dv[i as int], cv, a as int, upper_bounds@[i as int].0 as int));
                assert(forall|j: int| 0 <= j < cv.len() ==> (#[trigger] cv[j]).len() == D);
            }
            let half = neighbor_distances[a].0 / 2;
            let m = if lower_bounds[i].0 > half {
                lower_bounds[i].0
            } else {
                half
            };
            // No other centroid can be closer: skip the point.
            if upper_bounds[i].0 <= m {
                proof {
                    if m == lower_bounds@[i as int].0 {
                        lemma_skip_by_lower(point@, cv, a as int, upper_bounds@[i as int].0 as int, m as int);
                    } else {
                        lemma_skip_by_neighbor(point@, cv, a as int, upper_bounds@[i as int].0 as int, neighbor_distances@[a as int].0 as int);
                    }
                }
            } else {
                // Tighten the upper bound to the exact distance and test again.
                let tight = euclidean_distance_squared(&centroids[a], point).sqrt_ceil();
                proof {
                    assert(cv[a as int] == centroids@[a as int]@);
                    lemma_sq_dist_symmetric(cv[a as int], point@, D as nat);
                }
                upper_bounds.set(i, tight);
                if tight.0 <= m {
                    proof {
                        if m == lower_bounds@[i as int].0 {
                            lemma_skip_by_lower(point@, cv, a as int, tight.0 as int, m as int);
                        } else {
                            lemma_skip_by_neighbor(point@, cv, a as int, tight.0 as int, neighbor_distances@[a as int].0 as int);
                        }
                    }
                } else {
                    // Full search; a point that changes cluster moves its share of the sums.
                    let (best, second, best_index) = find_best_and_second_best(centroids.as_slice(), point);
                    proof {
                        lemma_nearest(point@, cv);
                    }
                    upper_bounds.set(i, best);
                    lower_bounds.set(i, second);
                    if best_index != a {
                        let ghost old_asg = clusters@;
                        let ghost new_asg = clusters@.update(i as int, best_index);
                        proof {
                            assert forall|j: int, c: int| 0 <= j < k && 0 <= c < D implies
                                #[trigger] cluster_sum_of(dv, new_asg, j, c, n as nat) + (if old_asg[i as int] == j { dv[i as int][c] as int } else { 0int })
                                == cluster_sum_of(dv, old_asg, j, c, n as nat) + (if best_index == j { dv[i as int][c] as int } else { 0int }) by {
                                crate::kmeans::utils::lemma_cluster_sum_update(dv, old_asg, i as int, best_index, j, c, n as nat);
                            }
                        }
                        let ghost sums_before = centroid_sums@;
                        let mut s_old = centroid_sums[a];
                        let mut s_new = centroid_sums[best_index];
                        for c in 0..D
                            invariant
                                forall|mm: int| 0 <= mm < c ==> s_old[mm] + point@[mm] == centroid_sums@[a as int][mm],
                                forall|mm: int| c <= mm < D ==> s_old[mm] == centroid_sums@[a as int][mm],
                                forall|mm: int| 0 <= mm < c ==> s_new[mm] == centroid_sums@[best_index as int][mm] + point@[mm],
                                forall|mm: int| c <= mm < D ==> s_new[mm] == centroid_sums@[best_index as int][mm],
                                a < k,
                                best_index < k,
                                a != best_index,
                                centroid_sums@.len() == k,
                                dv[i as int] == point@,
                                forall|j: int, cc: int| 0 <= j < k && 0 <= cc < D ==>
                                    #[trigger] cluster_sum_of(dv, new_asg, j, cc, n as nat) + (if old_asg[i as int] == j { dv[i as int][cc] as int } else { 0int })
                                    == cluster_sum_of(dv, old_asg, j, cc, n as nat) + (if best_index == j { dv[i as int][cc] as int } else { 0int }),
                                crate::kmeans::utils::sums_match(centroid_sums@, dv, old_asg, n as nat),
                                old_asg[i as int] == a,
                                dv == views(data@),
                                i < n,
                                dv.len() == n,
                                new_asg.len() == n,
                                n == data@.len(),
                                crate::kmeans::utils::in_range(new_asg, k as nat),
                        {
                            proof {
                                assert(centroid_sums@[a as int][c as int] == cluster_sum_of(dv, old_asg, a as int, c as int, n as nat));
                                assert(cluster_sum_of(dv, new_asg, a as int, c as int, n as nat) >= 0);
                                assert(centroid_sums@[best_index as int][c as int] == cluster_sum_of(dv, old_asg, best_index as int, c as int, n as nat));
                                crate::kmeans::utils::lemma_cluster_sum_le(dv, new_asg, best_index as int, c as int, n as nat);
                                crate::kmeans::utils::lemma_cluster_count_le(new_asg, best_index as int, n as nat);
                                assert(cluster_sum_of(dv, new_asg, best_index as int, c as int, n as nat) + (if old_asg[i as int] == best_index as int { dv[i as int][c as int] as int } else { 0int })
                                    == cluster_sum_of(dv, old_asg, best_index as int, c as int, n as nat) + (if best_index == best_index as int { dv[i as int][c as int] as int } else { 0int }));
                                let cnt = crate::kmeans::utils::cluster_count(new_asg, best_index as int, n as nat);
                                assert(255 * cnt <= 255 * n) by (nonlinear_arith)
                                    requires
                                        cnt <= n,
                                ;
                                assert(255 * n <= 255 * 0xffff_ffff_ffff_ffffu128) by (nonlinear_arith)
                                    requires
                                        n <= 0xffff_ffff_ffff_ffffu128,
                                ;
                            }
                            s_old[c] = s_old[c] - point[c] as u128;
                            s_new[c] = s_new[c] + point[c] as u128;
                        }
                        proof {
                            crate::kmeans::utils::lemma_cluster_count_update(old_asg, i as int, best_index, a as int, n as nat);
                            crate::kmeans::utils::lemma_cluster_count_update(old_asg, i as int, best_index, best_index as int, n as nat);
                            crate::kmeans::utils::lemma_cluster_count_le(new_asg, best_index as int, n as nat);
                        }
                        centroid_sums.set(a, s_old);
                        centroid_sums.set(best_index, s_new);
                        centroid_counts.set(a, centroid_counts[a] - 1);
                        centroid_counts.set(best_index, centroid_counts[best_index] + 1);
                        clusters.set(i, best_index);
                        proof {
                            assert(clusters@ == new_asg);
                            assert forall|j: int, c: int| 0 <= j < k && 0 <= c < D implies
                                (#[trigger] centroid_sums@[j][c]) == cluster_sum_of(dv, new_asg, j, c, n as nat) by {
                                assert(sums_before[j][c] == cluster_sum_of(dv, old_asg, j, c, n as nat));
                                if j == a as int {
                                    assert(centroid_sums@[j][c] == s_old[c]);
                                } else if j == best_index as int {
                                    assert(centroid_sums@[j][c] == s_new[c]);
                                } else {
                                    assert(centroid_sums@[j] == sums_before[j]);
                                }
                                assert(cluster_sum_of(dv, new_asg, j, c, n as nat) + (if old_asg[i as int] == j { dv[i as int][c] as int } else { 0int })
                                    == cluster_sum_of(dv, old_asg, j, c, n as nat) + (if best_index == j { dv[i as int][c] as int } else { 0int }));
                            }
                            assert forall|j: int| 0 <= j < k implies (#[trigger] centroid_counts@[j]) == crate::kmeans::utils::cluster_count(new_asg, j, n as nat) by {
                                crate::kmeans::utils::lemma_cluster_count_update(old_asg, i as int, best_index, j, n as nat);
                            }
                        }
                    }
                }
            }
            proof {
                assert(is_nearest(dv[i as int], cv, clusters@[i as int] as int));
                assert(upper_ok(dv[i as int], cv, clusters@[i as int] as int, upper_bounds@[i as int].0 as int));
                assert(lower_ok(dv[i as int], cv, clusters@[i as int] as int, lower_bounds@[i as int].0 as int));
                lemma_bounds_after_point(dv, cv, asg_before, up_before, lo_before, clusters@, upper_bounds@, lower_bounds@, i as int);
                assert forall|mm: int| 0 <= mm < i + 1 implies is_nearest(dv[mm], cv, #[trigger] clusters@[mm] as int) by {
                    if mm != i {
                        assert(clusters@[mm] == asg_before[mm]);
                    }
                }
            }
        }
        proof {
            assert forall|j: int, c: int| 0 <= j < k && 0 <= c < D implies #[trigger] centroid_sums@[j][c] <= 255 * centroid_counts@[j] by {
                assert(centroid_sums@[j][c] == crate::kmeans::utils::cluster_sum(dv, clusters@, j, c, n as nat));
                crate::kmeans::utils::lemma_cluster_sum_le(dv, clusters@, j, c, n as nat);
            }
        }
        // Move the centroids, check for convergence, and loosen the bounds by the moves.
        let (new_centroids, move_distances) = move_centroids(centroids.as_slice(), centroid_sums.as_slice(), centroid_counts.as_slice());
        proof {
            let rc = crate::kmeans::utils::recompute(dv, clusters@, cv);
            assert forall|j: int| 0 <= j < k implies views(new_centroids@)[j] == rc[j] by {
                assert(cv[j] == centroids@[j]@);
                assert(cv[j].len() == D);
                let count = crate::kmeans::utils::cluster_count(clusters@, j, n as nat);
                assert(centroid_counts@[j] == count);
                if count != 0 {
                    assert forall|c: int| 0 <= c < D implies centroid_sums@[j][c] == crate::kmeans::utils::cluster_sum(dv, clusters@, j, c, n as nat) by {}
                    assert(new_centroids@[j]@ =~= rc[j]);
                }
            }
            assert(views(new_centroids@) =~= rc);
        }
        let converged = crate::kmeans::utils::has_converged(centroids.as_slice(), new_centroids.as_slice(), tolerance);
        let ghost up_old = upper_bounds@;
        let ghost lo_old = lower_bounds@;
        centroids = new_centroids;
        done = converged;
        proof {
            assert(hamerly_step(dv, cv, tol, clusters@, views(centroids@), done));
            let old_trace = trace;
            trace = trace.push((clusters@, views(centroids@), done));
            assert forall|v: int| 0 <= v < trace.len() - 1 implies #[trigger] hamerly_round(dv, tol, trace[v], trace[v + 1]) by {
                if v + 1 < old_trace.len() {
                    assert(hamerly_round(dv, tol, old_trace[v], old_trace[v + 1]));
                }
            }
        }
        if !converged {
            update_bounds(&mut upper_bounds, &mut lower_bounds, move_distances.as_slice(), clusters.as_slice());
            proof {
                let ncv = views(centroids@);
                assert forall|i: int| 0 <= i < n implies upper_ok(dv[i], ncv, clusters@[i] as int, (#[trigger] upper_bounds@[i]).0 as int)
                    && lower_ok(dv[i], ncv, clusters@[i] as int, lower_bounds@[i].0 as int) by {
                    let a = clusters@[i] as int;
                    assert(dv[i] == data@[i]@);
                    assert(ncv[a] == centroids@[a]@);
                    assert(upper_ok(dv[i], cv, a, up_old[i].0 as int));
                    lemma_relax_upper(dv[i], cv[a], ncv[a], up_old[i].0 as int, move_distances@[a].0 as int, upper_bounds@[i].0 as int);
                    assert forall|j: int| 0 <= j < ncv.len() && j != a implies (lower_bounds@[i].0 as int) * (lower_bounds@[i].0 as int) <= #[trigger] sq_dist(dv[i], ncv[j]) by {
                        assert(ncv[j] == centroids@[j]@);
                        assert((lo_old[i].0 as int) * (lo_old[i].0 as int) <= sq_dist(dv[i], cv[j]));
                        assert(lower_bounds@[i].0 == 0 || lower_bounds@[i].0 + move_distances@[j].0 <= lo_old[i].0);
                        lemma_relax_lower(dv[i], cv[j], ncv[j], lo_old[i].0 as int, lower_bounds@[i].0 as int, move_distances@[j].0 as int);
                    }
                }
            }
        }
        iterations = iterations + 1;
    }
    proof {
        lemma_pad_trace(dv, cs0, tol, trace, max_iterations as nat);
        assert(cs0 == views(initial_centroids@));
    }
    let res = (clusters, centroids);
    assert(res.1@ == centroids@);
    proof {
        assert(hamerly_reachable(dv, cs0, tol, max_iterations as nat, res.0@, views(res.1@), done));
    }
    res
}

/// The states of a naive run, round by round, up to round `t`.
pub open spec fn lloyd_trace(data: Seq<Seq<u8>>, cs0: Seq<Seq<u8>>, tol: int, t: nat) -> Seq<RunState> {
    Seq::new(t + 1, |u: int| crate::kmeans::lloyd::lloyd_state(data, cs0, tol, u as nat))
}

/// Every naive run is a run of the accelerated algorithm from the same centroids: the naive
/// algorithm's choice of the lowest-index closest centroid is one of the choices a round of the
/// accelerated algorithm allows.
pub proof fn lemma_lloyd_run_is_hamerly_run(
    data: Seq<Seq<u8>>,
    cs0: Seq<Seq<u8>>,
    tol: int,
    t: nat,
)
    requires
        data.len() > 0 ==> cs0.len() > 0,
        cs0.len() <= usize::MAX,
    ensures
        hamerly_trace(data, cs0, tol, lloyd_trace(data, cs0, tol, t)),
        hamerly_reachable(
            data,
            cs0,
            tol,
            t,
            crate::kmeans::lloyd::lloyd_state(data, cs0, tol, t).0,
            crate::kmeans::lloyd::lloyd_state(data, cs0, tol, t).1,
            crate::kmeans::lloyd::lloyd_state(data, cs0, tol, t).2,
        ),
{
    let tr = lloyd_trace(data, cs0, tol, t);
    assert forall|u: int| 0 <= u < tr.len() - 1 implies #[trigger] hamerly_round(data, tol, tr[u], tr[u + 1]) by {
        let ps = crate::kmeans::lloyd::lloyd_state(data, cs0, tol, u as nat);
        crate::kmeans::lloyd::lemma_lloyd_state_shape(data, cs0, tol, u as nat);
        assert(tr[u] == ps);
        assert(tr[u + 1] == crate::kmeans::lloyd::lloyd_state(data, cs0, tol, (u + 1) as nat));
        if !ps.2 {
            let cs = ps.1;
            let a = crate::kmeans::utils::assign(data, cs);
            assert forall|i: int| 0 <= i < data.len() implies is_nearest(data[i], cs, #[trigger] a[i] as int) by {
                lemma_nearest(data[i], cs);
                assert(a[i] as int == nearest(data[i], cs));
            }
        }
    }
    assert(hamerly_trace(data, cs0, tol, tr));
    assert(tr.last() == crate::kmeans::lloyd::lloyd_state(data, cs0, tol, t));
    reveal(hamerly_reachable);
}

/// No point is equally close to two centroids in any of the first `t` states of the naive run.
pub open spec fn no_ties(data: Seq<Seq<u8>>, cs0: Seq<Seq<u8>>, tol: int, t: nat) -> bool {
    forall|u: nat, i: int, j: int|
        u < t && 0 <= i < data.len() && #[trigger] is_nearest(
            data[i],
            crate::kmeans::lloyd::lloyd_state(data, cs0, tol, u).1,
            j,
        ) ==> j == nearest(data[i], crate::kmeans::lloyd::lloyd_state(data, cs0, tol, u).1)
}

proof fn lemma_trace_matches_lloyd(
    data: Seq<Seq<u8>>,
    cs0: Seq<Seq<u8>>,
    tol: int,
    tr: Seq<RunState>,
    u: nat,
)
    requires
        data.len() > 0 ==> cs0.len() > 0,
        cs0.len() <= usize::MAX,
        hamerly_trace(data, cs0, tol, tr),
        u < tr.len(),
        no_ties(data, cs0, tol, (tr.len() - 1) as nat),
    ensures
        tr[u as int].1 == crate::kmeans::lloyd::lloyd_state(data, cs0, tol, u).1,
        tr[u as int].2 == crate::kmeans::lloyd::lloyd_state(data, cs0, tol, u).2,
        u >= 1 ==> tr[u as int].0 == crate::kmeans::lloyd::lloyd_state(data, cs0, tol, u).0,
    decreases u,
{
    if u > 0 {
        let v = (u - 1) as nat;
        lemma_trace_matches_lloyd(data, cs0, tol, tr, v);
        crate::kmeans::lloyd::lemma_lloyd_state_shape(data, cs0, tol, v);
        assert(hamerly_round(data, tol, tr[v as int], tr[v as int + 1]));
        let ps = crate::kmeans::lloyd::lloyd_state(data, cs0, tol, v);
        if v == 0 {
            assert(!tr[0].2);
        }
        if tr[v as int].2 {
            assert(v >= 1);
        } else {
            let pc = ps.1;
            let cur = tr[u as int];
            let a = crate::kmeans::utils::assign(data, pc);
            assert forall|i: int| 0 <= i < data.len() implies cur.0[i] == a[i] by {
                assert(is_nearest(data[i], pc, cur.0[i] as int));
                assert(cur.0[i] as int == nearest(data[i], pc));
            }
            assert(cur.0 =~= a);
        }
    }
}

/// When no point is ever equally close to two centroids of the naive run, the accelerated
/// algorithm reaches exactly the naive run's state: the same centroids and convergence, and
/// after at least one round the same assignment.
pub proof fn lemma_hamerly_matches_lloyd_without_ties(
    data: Seq<Seq<u8>>,
    cs0: Seq<Seq<u8>>,
    tol: int,
    t: nat,
    asg: Seq<usize>,
    cs: Seq<Seq<u8>>,
    done: bool,
)
    requires
        data.len() > 0 ==> cs0.len() > 0,
        cs0.len() <= usize::MAX,
        no_ties(data, cs0, tol, t),
        hamerly_reachable(data, cs0, tol, t, asg, cs, done),
    ensures
        cs == crate::kmeans::lloyd::lloyd_state(data, cs0, tol, t).1,
        done == crate::kmeans::lloyd::lloyd_state(data, cs0, tol, t).2,
        t >= 1 ==> asg == crate::kmeans::lloyd::lloyd_state(data, cs0, tol, t).0,
{
    reveal(hamerly_reachable);
    let tr = choose|tr: Seq<RunState>|
        #[trigger] hamerly_trace(data, cs0, tol, tr) && tr.len() == t + 1 && tr.last() == (
            asg,
            cs,
            done,
        );
    lemma_trace_matches_lloyd(data, cs0, tol, tr, t);
}

/// Sum of channel `c` over the first `n` points assigned to cluster `j`.
pub open spec fn cluster_sum_of(data: Seq<Seq<u8>>, asg: Seq<usize>, j: int, c: int, n: nat) -> int {
    crate::kmeans::utils::cluster_sum(data, asg, j, c, n) as int
}

} // verus!

verus! {

/// Bound-accelerated k-means with the configured initializer, `k`, tolerance and round limit.
pub fn kmeans_hamerly<const D: usize>(
    data: &[[u8; D]],
    config: &crate::kmeans::config::KMeansConfig,
) -> (r: (Vec<usize>, Vec<[u8; D]>))
    requires
        data@.len() * D <= usize::MAX,
        config.k >= 1,
    ensures
        r.0@.len() == data@.len(),
        r.1@.len() <= config.k,
        config.k <= crate::kmeans::initializer::distinct_count(views(data@)) ==> r.1@.len()
            == config.k,
        crate::kmeans::utils::in_range(r.0@, config.k as nat),
        exists|cs0: Seq<Seq<u8>>|
            crate::kmeans::initializer::initial_ok(cs0, views(data@), config.k as nat)
                && #[trigger] cs0.len() == r.1@.len(),
        data@.len() > 0 ==> exists|cs0: Seq<Seq<u8>>, done: bool|
            crate::kmeans::initializer::initial_ok(cs0, views(data@), config.k as nat)
                && #[trigger] hamerly_reachable(
                views(data@),
                cs0,
                config.tolerance as int,
                config.max_iterations as nat,
                r.0@,
                views(r.1@),
                done,
            ),
{
    let centroids = config.initializer.initialize_centroids(data, config.k, config.seed);
    let ghost cs0 = views(centroids@);
    if centroids.len() == 0 {
        let empty: Vec<usize> = Vec::new();
        proof {
            assert(cs0.len() == 0);
        }
        return (empty, centroids);
    }
    let r = hamerly_from_centroids(data, centroids, config.max_iterations, config.tolerance);
    proof {
        assert(cs0.len() == r.1@.len());
        let done = choose|done: bool|
            #[trigger] hamerly_reachable(
                views(data@),
                cs0,
                config.tolerance as int,
                config.max_iterations as nat,
                r.0@,
                views(r.1@),
                done,
            );
        assert(hamerly_reachable(
            views(data@),
            cs0,
            config.tolerance as int,
            config.max_iterations as nat,
            r.0@,
            views(r.1@),
            done,
        ));
    }
    r
}

} // verus!

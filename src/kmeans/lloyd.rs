//! The naive refinement: assign every point, recompute every centroid, repeat.
use vstd::prelude::*;
use crate::kmeans::config::KMeansConfig;
use crate::kmeans::initializer::initial_ok;
use crate::kmeans::utils::{
    assign, converged, find_closest_centroid, has_converged, in_range, recompute, recompute_centroids, views,
};

verus! {

/// The state of a naive run after `t` rounds, from the centroids `cs0`:
/// the assignment, the centroids, and whether the run has converged.
pub open spec fn lloyd_state(data: Seq<Seq<u8>>, cs0: Seq<Seq<u8>>, tol: int, t: nat) -> (
    Seq<usize>,
    Seq<Seq<u8>>,
    bool,
)
    decreases t,
{
    if t == 0 {
        (Seq::new(data.len(), |i: int| 0usize), cs0, false)
    } else {
        let prev = lloyd_state(data, cs0, tol, (t - 1) as nat);
        if prev.2 {
            prev
        } else {
            let a = assign(data, prev.1);
            let c = recompute(data, a, prev.1);
            (a, c, converged(prev.1, c, tol))
        }
    }
}

/// Once a run has converged, further rounds change nothing.
pub proof fn lemma_lloyd_state_stays(data: Seq<Seq<u8>>, cs0: Seq<Seq<u8>>, tol: int, t: nat, u: nat)
    requires
        t <= u,
        lloyd_state(data, cs0, tol, t).2,
    ensures
        lloyd_state(data, cs0, tol, u) == lloyd_state(data, cs0, tol, t),
    decreases u - t,
{
    if t < u {
        lemma_lloyd_state_stays(data, cs0, tol, t, (u - 1) as nat);
    }
}

/// Every state of a run keeps one assignment per point, `k` centroids, and assignments below `k`.
pub proof fn lemma_lloyd_state_shape(data: Seq<Seq<u8>>, cs0: Seq<Seq<u8>>, tol: int, t: nat)
    requires
        data.len() > 0 ==> cs0.len() > 0,
    ensures
        lloyd_state(data, cs0, tol, t).0.len() == data.len(),
        lloyd_state(data, cs0, tol, t).1.len() == cs0.len(),
        in_range(lloyd_state(data, cs0, tol, t).0, cs0.len()),
    decreases t,
{
    if t > 0 {
        lemma_lloyd_state_shape(data, cs0, tol, (t - 1) as nat);
        let prev = lloyd_state(data, cs0, tol, (t - 1) as nat);
        if !prev.2 {
            assert forall|i: int| 0 <= i < data.len() implies (#[trigger] assign(data, prev.1)[i])
                < cs0.len() by {
                crate::kmeans::utils::lemma_nearest(data[i], prev.1);
            }
        }
    }
}

/// Naive k-means from the given initial centroids: rounds of assignment and recomputation
/// until the centroids move by less than `tolerance` or `max_iterations` rounds have run.
pub fn lloyd_from_centroids<const D: usize>(
    data: &[[u8; D]],
    initial_centroids: Vec<[u8; D]>,
    max_iterations: usize,
    tolerance: u64,
) -> (r: (Vec<usize>, Vec<[u8; D]>))
    requires
        data@.len() > 0 ==> initial_centroids@.len() > 0,
    ensures
        r.0@ == lloyd_state(
            views(data@),
            views(initial_centroids@),
            tolerance as int,
            max_iterations as nat,
        ).0,
        views(r.1@) == lloyd_state(
            views(data@),
            views(initial_centroids@),
            tolerance as int,
            max_iterations as nat,
        ).1,
        r.0@.len() == data@.len(),
        r.1@.len() == initial_centroids@.len(),
        in_range(r.0@, initial_centroids@.len() as nat),
{
    let ghost dv = views(data@);
    let ghost cs0 = views(initial_centroids@);
    let ghost tol = tolerance as int;
    let n = data.len();
    let mut centroids = initial_centroids;
    let mut assignments: Vec<usize> = vec![0usize; n];
    let mut iterations: usize = 0;
    let mut done = false;
    proof {
        assert(assignments@ =~= Seq::new(dv.len(), |i: int| 0usize));
    }
    while iterations < max_iterations && !done
        invariant
            dv == views(data@),
            tol == tolerance as int,
            n == data@.len(),
            iterations <= max_iterations,
            centroids@.len() == cs0.len(),
            n > 0 ==> cs0.len() > 0,
            lloyd_state(dv, cs0, tol, iterations as nat) == (
                assignments@,
                views(centroids@),
                done,
            ),
        decreases max_iterations - iterations,
    {
        let ghost cv = views(centroids@);
        let ghost t = iterations as nat;
        let mut next: Vec<usize> = Vec::new();
        for i in 0..n
            invariant
                dv == views(data@),
                cv == views(centroids@),
                n == data@.len(),
                n > 0 ==> centroids@.len() > 0,
                next@.len() == i,
                forall|m: int| 0 <= m < i ==> next@[m] == assign(dv, cv)[m],
                forall|m: int| 0 <= m < i ==> next@[m] < centroids@.len(),
        {
            let j = find_closest_centroid(&data[i], centroids.as_slice());
            proof {
                assert(data@[i as int]@ == dv[i as int]);
            }
            next.push(j);
        }
        proof {
            assert(next@ =~= assign(dv, cv));
        }
        assignments = next;
        let new_centroids = recompute_centroids(data, assignments.as_slice(), centroids.as_slice());
        done = has_converged(centroids.as_slice(), new_centroids.as_slice(), tolerance);
        centroids = new_centroids;
        iterations = iterations + 1;
        proof {
            let a = assign(dv, cv);
            let c = recompute(dv, a, cv);
            assert(lloyd_state(dv, cs0, tol, t + 1) == (a, c, converged(cv, c, tol)));
            assert(assignments@ == a);
            assert(views(centroids@) == c);
            assert(centroids@.len() == views(centroids@).len());
        }
    }
    proof {
        if iterations < max_iterations {
            lemma_lloyd_state_stays(dv, cs0, tol, iterations as nat, max_iterations as nat);
        }
        lemma_lloyd_state_shape(dv, cs0, tol, max_iterations as nat);
    }
    (assignments, centroids)
}

/// The outcome of a naive run of `t` rounds from the centroids `cs0`.
pub open spec fn lloyd_result(
    data: Seq<Seq<u8>>,
    cs0: Seq<Seq<u8>>,
    tol: int,
    t: nat,
    asg: Seq<usize>,
    cs: Seq<Seq<u8>>,
) -> bool {
    asg == lloyd_state(data, cs0, tol, t).0 && cs == lloyd_state(data, cs0, tol, t).1
}

/// Naive k-means with the configured initializer, `k`, tolerance and round limit.
pub fn kmeans_lloyd<const D: usize>(data: &[[u8; D]], config: &KMeansConfig) -> (r: (
    Vec<usize>,
    Vec<[u8; D]>,
))
    requires
        data@.len() * D <= usize::MAX,
        config.k >= 1,
    ensures
        exists|cs0: Seq<Seq<u8>>|
            initial_ok(cs0, views(data@), config.k as nat) && #[trigger] lloyd_result(
                views(data@),
                cs0,
                config.tolerance as int,
                config.max_iterations as nat,
                r.0@,
                views(r.1@),
            ),
        r.0@.len() == data@.len(),
        r.1@.len() <= config.k,
        config.k <= crate::kmeans::initializer::distinct_count(views(data@)) ==> r.1@.len()
            == config.k,
        in_range(r.0@, config.k as nat),
{
    let centroids = config.initializer.initialize_centroids(data, config.k, config.seed);
    let ghost cs0 = views(centroids@);
    let r = lloyd_from_centroids(data, centroids, config.max_iterations, config.tolerance);
    proof {
        assert(lloyd_result(
            views(data@),
            cs0,
            config.tolerance as int,
            config.max_iterations as nat,
            r.0@,
            views(r.1@),
        ));
    }
    r
}

} // verus!

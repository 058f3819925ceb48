//! Choosing the initial centroids: uniform sampling of distinct points, or k-means++ seeding.
use vstd::prelude::*;
use rand::rngs::StdRng;
use rand::seq::SliceRandom;
use rand::{Rng, SeedableRng};
use crate::kmeans::utils::{find_closest_centroid, views};
use crate::types::{
    euclidean_distance_squared, lemma_sq_dist_self, lemma_sq_dist_upto_bounds,
    lemma_sq_dist_zero_eq, same_vector, sq_dist,
};

verus! {

#[verifier::external_type_specification]
#[verifier::external_body]
pub struct ExStdRng(StdRng);

/// Relies on `SeedableRng::seed_from_u64`: a generator whose whole stream is fixed by the seed.
#[verifier::external_body]
fn seeded_rng(seed: u64) -> StdRng {
    StdRng::seed_from_u64(seed)
}

/// Relies on `SeedableRng::from_entropy`: a generator seeded once from the operating system's
/// entropy source (it panics only when that source is unavailable).
#[verifier::external_body]
fn entropy_rng() -> StdRng {
    StdRng::from_entropy()
}

/// Relies on `Rng::gen_range`: a value drawn uniformly from `0..bound`. An empty range panics,
/// so `bound` must be positive.
#[verifier::external_body]
fn random_below(rng: &mut StdRng, bound: u128) -> (r: u128)
    requires
        bound > 0,
    ensures
        r < bound,
{
    rng.gen_range(0..bound)
}

/// Relies on `Rng::gen_range`: an index drawn uniformly from `0..bound`. An empty range panics,
/// so `bound` must be positive.
#[verifier::external_body]
fn random_index(rng: &mut StdRng, bound: usize) -> (r: usize)
    requires
        bound > 0,
    ensures
        r < bound,
{
    rng.gen_range(0..bound)
}

/// Relies on `SliceRandom::choose`: one element of the slice drawn uniformly, or `None` when the
/// slice is empty.
#[verifier::external_body]
fn choose_point<const D: usize>(rng: &mut StdRng, data: &[[u8; D]]) -> (r: Option<[u8; D]>)
    ensures
        r.is_none() <==> data@.len() == 0,
        r.is_some() ==> data@.contains(r.unwrap()),
{
    data.choose(rng).copied()
}

/// How the initial centroids are chosen.
#[derive(Debug, Clone, Copy, PartialEq, Eq, Structural)]
pub enum Initializer {
    KMeansPlusPlus,
    Random,
}

/// Every centroid is one of the points.
pub open spec fn drawn_from(cs: Seq<Seq<u8>>, data: Seq<Seq<u8>>) -> bool {
    forall|j: int| 0 <= j < cs.len() ==> data.contains(#[trigger] cs[j])
}

/// Every point is one of the centroids.
pub open spec fn covers(cs: Seq<Seq<u8>>, data: Seq<Seq<u8>>) -> bool {
    forall|i: int| 0 <= i < data.len() ==> cs.contains(#[trigger] data[i])
}

/// Number of distinct points.
pub open spec fn distinct_count(data: Seq<Seq<u8>>) -> nat {
    data.to_set().len()
}

/// What every initializer guarantees of the centroids it returns for `k` clusters.
pub open spec fn initial_ok(cs: Seq<Seq<u8>>, data: Seq<Seq<u8>>, k: nat) -> bool {
    &&& drawn_from(cs, data)
    &&& cs.no_duplicates() || covers(cs, data)
    &&& k >= 1 ==> cs.len() <= k
    &&& data.len() == 0 ==> cs.len() == 0
    &&& k >= 1 && data.len() > 0 ==> cs.len() > 0
    &&& 1 <= k <= distinct_count(data) ==> cs.len() == k
}

/// Sum of the first `n` values.
pub open spec fn psum(s: Seq<u128>, n: nat) -> int
    decreases n,
{
    if n == 0 {
        0
    } else {
        psum(s, (n - 1) as nat) + s[n - 1]
    }
}

proof fn lemma_psum_mono(s: Seq<u128>, a: nat, b: nat)
    requires
        a <= b <= s.len(),
    ensures
        psum(s, a) <= psum(s, b),
    decreases b - a,
{
    if a < b {
        lemma_psum_mono(s, a, (b - 1) as nat);
    }
}

/// A generator seeded by `seed`, or from the system's entropy when there is none.
fn get_seedable_rng(seed: Option<u64>) -> StdRng {
    match seed {
        Some(s) => seeded_rng(s),
        None => entropy_rng(),
    }
}

/// Whether `p` is one of `cs`.
fn contains_vector<const D: usize>(cs: &Vec<[u8; D]>, p: &[u8; D]) -> (r: bool)
    ensures
        r == views(cs@).contains(p@),
{
    let ghost cv = views(cs@);
    for j in 0..cs.len()
        invariant
            cv == views(cs@),
            forall|m: int| 0 <= m < j ==> cv[m] != p@,
    {
        if same_vector(&cs[j], p) {
            assert(cv[j as int] == p@);
            return true;
        }
    }
    false
}

/// A distinct count of at least `k` leaves no room for fewer than `k` covering centroids.
proof fn lemma_cover_size(cs: Seq<Seq<u8>>, data: Seq<Seq<u8>>)
    requires
        covers(cs, data),
    ensures
        distinct_count(data) <= cs.len(),
{
    assert(data.to_set().subset_of(cs.to_set())) by {
        assert forall|x: Seq<u8>| data.to_set().contains(x) implies cs.to_set().contains(x) by {
            let i = choose|i: int| 0 <= i < data.len() && data[i] == x;
            assert(cs.contains(data[i]));
        }
    }
    cs.lemma_cardinality_of_set();
    vstd::set_lib::lemma_len_subset(data.to_set(), cs.to_set());
}

/// Draws up to `k` distinct points at random, without replacement, until `k` are found or the
/// points are exhausted.
pub fn initialize_random<const D: usize>(data: &[[u8; D]], k: usize, seed: Option<u64>) -> (r: Vec<
    [u8; D],
>)
    ensures
        drawn_from(views(r@), views(data@)),
        views(r@).no_duplicates(),
        r@.len() <= k,
        r@.len() < k ==> covers(views(r@), views(data@)),
        initial_ok(views(r@), views(data@), k as nat),
{
    let ghost dv = views(data@);
    let mut rng = get_seedable_rng(seed);
    let mut centroids: Vec<[u8; D]> = Vec::new();
    let mut indices: Vec<usize> = Vec::new();
    for i in 0..data.len()
        invariant
            indices@.len() == i,
            forall|m: int| 0 <= m < i ==> indices@[m] == m,
    {
        indices.push(i);
    }
    proof {
        assert forall|i: int| 0 <= i < dv.len() implies indices@.contains(i as usize) || views(
            centroids@,
        ).contains(#[trigger] dv[i]) by {
            assert(indices@[i] == i);
        }
    }
    while centroids.len() < k && indices.len() > 0
        invariant
            dv == views(data@),
            centroids@.len() <= k,
            forall|m: int| 0 <= m < indices@.len() ==> indices@[m] < dv.len(),
            drawn_from(views(centroids@), dv),
            views(centroids@).no_duplicates(),
            forall|i: int|
                0 <= i < dv.len() ==> indices@.contains(i as usize) || views(
                    centroids@,
                ).contains(#[trigger] dv[i]),
        decreases indices@.len(),
    {
        let ghost old_idx = indices@;
        let ghost old_cv = views(centroids@);
        let idx = random_index(&mut rng, indices.len());
        let data_idx = indices.swap_remove(idx);
        let candidate = data[data_idx];
        assert(dv[data_idx as int] == candidate@);
        if !contains_vector(&centroids, &candidate) {
            centroids.push(candidate);
            proof {
                assert(views(centroids@) =~= old_cv.push(candidate@));
                assert(views(centroids@)[old_cv.len() as int] == candidate@);
                assert forall|a: int, b: int|
                    0 <= a < b < views(centroids@).len() implies views(centroids@)[a] != views(
                    centroids@,
                )[b] by {
                    if b == old_cv.len() {
                        assert(old_cv[a] == views(centroids@)[a]);
                    }
                }
                assert forall|j: int| 0 <= j < views(centroids@).len() implies dv.contains(
                    #[trigger] views(centroids@)[j],
                ) by {
                    if j < old_cv.len() {
                        assert(views(centroids@)[j] == old_cv[j]);
                    } else {
                        assert(dv[data_idx as int] == views(centroids@)[j]);
                    }
                }
            }
        }
        proof {
            let cv = views(centroids@);
            assert forall|j: int| 0 <= j < old_cv.len() implies cv.contains(old_cv[j]) by {
                assert(cv[j] == old_cv[j]);
            }
            assert(cv.contains(candidate@));
            assert forall|i: int| 0 <= i < dv.len() implies indices@.contains(i as usize)
                || cv.contains(#[trigger] dv[i]) by {
                if !cv.contains(dv[i]) {
                    assert(!old_cv.contains(dv[i]));
                    let p = choose|p: int| 0 <= p < old_idx.len() && old_idx[p] == i as usize;
                    if p == idx as int {
                        assert(data_idx == i);
                    } else if p == old_idx.len() - 1 {
                        assert(indices@[idx as int] == i as usize);
                    } else {
                        assert(indices@[p] == i as usize);
                    }
                }
            }
        }
    }
    proof {
        let cv = views(centroids@);
        if cv.len() < k {
            assert(covers(cv, dv));
            lemma_cover_size(cv, dv);
        }
        if k >= 1 && dv.len() > 0 && cv.len() == 0 {
            assert(cv.contains(dv[0]));
        }
        if dv.len() == 0 && cv.len() > 0 {
            assert(dv.contains(cv[0]));
        }
    }
    centroids
}

} // verus!

verus! {

/// Squared distance from `p` to the closest of `cs`; zero exactly when `p` is one of them.
fn nearest_distance<const D: usize>(p: &[u8; D], cs: &Vec<[u8; D]>) -> (r: u128)
    requires
        cs@.len() > 0,
    ensures
        forall|j: int| 0 <= j < cs@.len() ==> r <= sq_dist(p@, #[trigger] cs@[j]@),
        exists|j: int| 0 <= j < cs@.len() && r == sq_dist(p@, #[trigger] cs@[j]@),
        r == 0 <==> views(cs@).contains(p@),
        r <= 65025 * D,
{
    let ghost cv = views(cs@);
    let j = find_closest_centroid(p, cs.as_slice());
    let r = euclidean_distance_squared(p, &cs[j]);
    proof {
        lemma_sq_dist_upto_bounds(p@, cs@[j as int]@, D as nat);
        assert forall|m: int| 0 <= m < cs@.len() implies r <= sq_dist(p@, #[trigger] cs@[m]@) by {
            assert(cv[m] == cs@[m]@);
        }
        if r == 0 {
            lemma_sq_dist_zero_eq(p@, cs@[j as int]@);
            assert(cv[j as int] == p@);
        }
        if cv.contains(p@) {
            let q = choose|q: int| 0 <= q < cv.len() && cv[q] == p@;
            lemma_sq_dist_self(p@, D as nat);
            assert(r <= sq_dist(p@, cs@[q]@));
        }
    }
    r
}

/// Squared distance from `p` to the closest of the first `n` of `cs` (`n >= 1`).
pub open spec fn min_sq_dist_upto(p: Seq<u8>, cs: Seq<Seq<u8>>, n: nat) -> int
    decreases n,
{
    if n <= 1 {
        sq_dist(p, cs[0])
    } else {
        let m = min_sq_dist_upto(p, cs, (n - 1) as nat);
        let d = sq_dist(p, cs[n - 1]);
        if d < m {
            d
        } else {
            m
        }
    }
}

/// The weight of every point in a k-means++ draw: its squared distance to the closest of `cs`.
pub open spec fn weights(data: Seq<Seq<u8>>, cs: Seq<Seq<u8>>) -> Seq<u128> {
    data.map_values(|p: Seq<u8>| min_sq_dist_upto(p, cs, cs.len()) as u128)
}

/// Threshold `t` falls in point `i`'s slot of the running sum of `w`.
pub open spec fn in_slot(w: Seq<u128>, i: int, t: int) -> bool {
    psum(w, i as nat) <= t < psum(w, (i + 1) as nat)
}

/// `c` is a point a k-means++ draw can pick after the centroids `cs`: the first point whose
/// running sum of weights exceeds some threshold below the total weight, or the first point when
/// the total weight is zero.
pub open spec fn weighted_pick(data: Seq<Seq<u8>>, cs: Seq<Seq<u8>>, c: Seq<u8>) -> bool {
    let w = weights(data, cs);
    let total = psum(w, data.len());
    if total == 0 {
        c == data[0]
    } else {
        exists|i: int, t: int|
            0 <= i < data.len() && 0 <= t < total && #[trigger] in_slot(w, i, t) && c == data[i]
    }
}

/// Appending a pick keeps the earlier picks and adds the new one.
proof fn lemma_keep_picks(data: Seq<Seq<u8>>, cv: Seq<Seq<u8>>, c: Seq<u8>)
    requires
        cv.len() >= 1,
        forall|m: int| 1 <= m < cv.len() ==> #[trigger] weighted_pick(data, cv.take(m), cv[m]),
        weighted_pick(data, cv, c),
    ensures
        forall|m: int|
            1 <= m < cv.push(c).len() ==> #[trigger] weighted_pick(data, cv.push(c).take(m), cv.push(c)[m]),
{
    let nv = cv.push(c);
    assert forall|m: int| 1 <= m < nv.len() implies #[trigger] weighted_pick(data, nv.take(m), nv[m]) by {
        if m < cv.len() {
            assert(nv.take(m) =~= cv.take(m));
            assert(nv[m] == cv[m]);
            assert(weighted_pick(data, cv.take(m), cv[m]));
        } else {
            assert(nv.take(m) =~= cv);
        }
    }
}

proof fn lemma_min_sq_dist(p: Seq<u8>, cs: Seq<Seq<u8>>, n: nat)
    requires
        1 <= n <= cs.len(),
    ensures
        forall|j: int| 0 <= j < n ==> min_sq_dist_upto(p, cs, n) <= #[trigger] sq_dist(p, cs[j]),
        exists|j: int| 0 <= j < n && min_sq_dist_upto(p, cs, n) == #[trigger] sq_dist(p, cs[j]),
    decreases n,
{
    if n > 1 {
        lemma_min_sq_dist(p, cs, (n - 1) as nat);
        let j = choose|j: int| 0 <= j < n - 1 && min_sq_dist_upto(p, cs, (n - 1) as nat) == #[trigger] sq_dist(p, cs[j]);
        if sq_dist(p, cs[n - 1]) >= min_sq_dist_upto(p, cs, (n - 1) as nat) {
            assert(min_sq_dist_upto(p, cs, n) == sq_dist(p, cs[j]));
        }
    } else {
        assert(min_sq_dist_upto(p, cs, n) == sq_dist(p, cs[0]));
    }
}

/// k-means++ seeding: the first centroid uniformly at random, then each next one with
/// probability proportional to its squared distance from the closest centroid chosen so far
/// (the first point whose running sum of distances exceeds a threshold drawn uniformly below
/// the total).
pub fn kmeans_plus_plus<const D: usize>(data: &[[u8; D]], k: usize, seed: Option<u64>) -> (r: Vec<
    [u8; D],
>)
    requires
        data@.len() * D <= usize::MAX,
    ensures
        drawn_from(views(r@), views(data@)),
        views(r@).no_duplicates() || covers(views(r@), views(data@)),
        r@.len() == if data@.len() == 0 {
            0
        } else if k == 0 {
            1
        } else {
            k as int
        },
        initial_ok(views(r@), views(data@), k as nat),
        forall|m: int|
            1 <= m < r@.len() ==> #[trigger] weighted_pick(
                views(data@),
                views(r@).take(m),
                views(r@)[m],
            ),
{
    let ghost dv = views(data@);
    let n = data.len();
    let mut centroids: Vec<[u8; D]> = Vec::new();
    let mut rng = get_seedable_rng(seed);
    match choose_point(&mut rng, data) {
        Some(first) => {
            centroids.push(first);
            proof {
                let i = choose|i: int| 0 <= i < data@.len() && data@[i] == first;
                assert(dv[i] == first@);
                assert(views(centroids@)[0] == first@);
            }
        },
        None => {
            proof {
                assert(views(centroids@) =~= Seq::<Seq<u8>>::empty());
                assert(dv.to_set() =~= Set::<Seq<u8>>::empty());
            }
            return centroids;
        },
    }
    assert(65025 * D * n <= 65025 * 0xffff_ffff_ffff_ffffu128) by (nonlinear_arith)
        requires
            n * D <= 0xffff_ffff_ffff_ffffu128,
    ;
    while centroids.len() < k
        invariant
            dv == views(data@),
            n == data@.len(),
            n > 0,
            65025 * D * n <= 65025 * 0xffff_ffff_ffff_ffffu128,
            1 <= centroids@.len(),
            centroids@.len() <= k || (k == 0 && centroids@.len() == 1),
            drawn_from(views(centroids@), dv),
            views(centroids@).no_duplicates() || covers(views(centroids@), dv),
            forall|m: int|
                1 <= m < centroids@.len() ==> #[trigger] weighted_pick(
                    dv,
                    views(centroids@).take(m),
                    views(centroids@)[m],
                ),
        decreases k - centroids@.len(),
    {
        let ghost cv = views(centroids@);
        let mut distances: Vec<u128> = Vec::new();
        let mut total: u128 = 0;
        for i in 0..n
            invariant
                dv == views(data@),
                cv == views(centroids@),
                n == data@.len(),
                centroids@.len() > 0,
                65025 * D * n <= 65025 * 0xffff_ffff_ffff_ffffu128,
                distances@.len() == i,
                total == psum(distances@, i as nat),
                total <= 65025 * D * i,
                forall|m: int|
                    0 <= m < i ==> (#[trigger] distances@[m] == 0 <==> cv.contains(dv[m])),
                forall|m: int| 0 <= m < i ==> #[trigger] distances@[m] == weights(dv, cv)[m],
        {
            let ghost old_d = distances@;
            let d = nearest_distance(&data[i], &centroids);
            assert(data@[i as int]@ == dv[i as int]);
            assert(65025 * D * i + 65025 * D == 65025 * D * (i + 1)) by (nonlinear_arith);
            assert(65025 * D * (i + 1) <= 65025 * D * n) by (nonlinear_arith)
                requires
                    i + 1 <= n,
            ;
            proof {
                lemma_min_sq_dist(dv[i as int], cv, cv.len());
                let j = choose|j: int| 0 <= j < cv.len() && min_sq_dist_upto(dv[i as int], cv, cv.len()) == #[trigger] sq_dist(dv[i as int], cv[j]);
                let jr = choose|jr: int| 0 <= jr < centroids@.len() && d == sq_dist(data@[i as int]@, #[trigger] centroids@[jr]@);
                assert(cv[j] == centroids@[j]@);
                assert(cv[jr] == centroids@[jr]@);
                assert(d <= sq_dist(dv[i as int], cv[j]));
                assert(min_sq_dist_upto(dv[i as int], cv, cv.len()) <= sq_dist(dv[i as int], cv[jr]));
                assert(d == weights(dv, cv)[i as int]);
            }
            total = total + d;
            distances.push(d);
            proof {
                lemma_psum_push(old_d, d, i as nat);
                lemma_psum_prefix(distances@, i as nat);
            }
        }
        proof {
            assert(distances@ =~= weights(dv, cv));
        }
        if total == 0 {
            centroids.push(data[0]);
            proof {
                lemma_keep_picks(dv, cv, dv[0]);
                assert(weighted_pick(dv, cv, dv[0]));
                assert(views(centroids@) =~= cv.push(dv[0]));
                assert forall|i: int| 0 <= i < n implies cv.contains(dv[i]) by {
                    lemma_psum_mono(distances@, (i + 1) as nat, n as nat);
                    lemma_psum_mono(distances@, 0, i as nat);
                    assert(distances@[i] == 0);
                }
                let nv = views(centroids@);
                assert(nv =~= cv.push(dv[0]));
                assert forall|i: int| 0 <= i < n implies nv.contains(#[trigger] dv[i]) by {
                    let q = choose|q: int| 0 <= q < cv.len() && cv[q] == dv[i];
                    assert(nv[q] == dv[i]);
                }
                assert forall|j: int| 0 <= j < nv.len() implies dv.contains(#[trigger] nv[j]) by {
                    if j < cv.len() {
                        assert(nv[j] == cv[j]);
                    } else {
                        assert(nv[j] == dv[0]);
                    }
                }
            }
        } else {
            let threshold = random_below(&mut rng, total);
            let chosen = match select_by_threshold(distances.as_slice(), threshold) {
                Some(c) => c,
                None => {
                    proof {
                        assert(false);
                    }
                    0
                },
            };
            assert(distances@[chosen as int] > 0);
            centroids.push(data[chosen]);
            proof {
                let p = dv[chosen as int];
                assert(data@[chosen as int]@ == p);
                assert(in_slot(distances@, chosen as int, threshold as int));
                assert(weighted_pick(dv, cv, p));
                lemma_keep_picks(dv, cv, p);
                assert(views(centroids@) =~= cv.push(p));
                assert(data@[chosen as int]@ == p);
                assert(!cv.contains(p));
                let nv = views(centroids@);
                assert(nv =~= cv.push(p));
                if !cv.no_duplicates() {
                    assert(cv.contains(dv[chosen as int]));
                }
                assert forall|a: int, b: int| 0 <= a < b < nv.len() implies nv[a] != nv[b] by {
                    if b == cv.len() {
                        assert(nv[a] == cv[a]);
                    }
                }
                assert forall|j: int| 0 <= j < nv.len() implies dv.contains(#[trigger] nv[j]) by {
                    if j < cv.len() {
                        assert(nv[j] == cv[j]);
                    } else {
                        assert(nv[j] == dv[chosen as int]);
                    }
                }
            }
        }
    }
    proof {
        let cv = views(centroids@);
        if 1 <= k <= distinct_count(dv) && cv.len() < k {
            assert(false);
        }
    }
    centroids
}

impl Initializer {
    /// The initial centroids for `k` clusters, chosen by this strategy from a generator seeded
    /// by `seed` (or from the system's entropy).
    pub fn initialize_centroids<const D: usize>(
        &self,
        data: &[[u8; D]],
        k: usize,
        seed: Option<u64>,
    ) -> (r: Vec<[u8; D]>)
        requires
            data@.len() * D <= usize::MAX,
        ensures
            initial_ok(views(r@), views(data@), k as nat),
    {
        match self {
            Initializer::KMeansPlusPlus => kmeans_plus_plus(data, k, seed),
            Initializer::Random => initialize_random(data, k, seed),
        }
    }
}

/// Roulette-wheel selection: the first index whose running sum of `distances` exceeds
/// `threshold`, or `None` when the whole sum does not.
pub fn select_by_threshold(distances: &[u128], threshold: u128) -> (r: Option<usize>)
    requires
        psum(distances@, distances@.len()) <= u128::MAX,
    ensures
        r.is_none() <==> psum(distances@, distances@.len()) <= threshold,
        r.is_some() ==> r.unwrap() < distances@.len() && psum(distances@, r.unwrap() as nat)
            <= threshold < psum(distances@, (r.unwrap() + 1) as nat),
{
    let n = distances.len();
    let mut cumulative: u128 = 0;
    let mut i: usize = 0;
    while i < n
        invariant
            n == distances@.len(),
            i <= n,
            psum(distances@, n as nat) <= u128::MAX,
            cumulative == psum(distances@, i as nat),
            cumulative <= threshold,
        decreases n - i,
    {
        proof {
            lemma_psum_mono(distances@, (i + 1) as nat, n as nat);
        }
        let next = cumulative + distances[i];
        if next > threshold {
            return Some(i);
        }
        cumulative = next;
        i = i + 1;
    }
    None
}

proof fn lemma_psum_push(s: Seq<u128>, x: u128, n: nat)
    requires
        n <= s.len(),
    ensures
        psum(s.push(x), n) == psum(s, n),
    decreases n,
{
    if n > 0 {
        lemma_psum_push(s, x, (n - 1) as nat);
    }
}

proof fn lemma_psum_prefix(s: Seq<u128>, i: nat)
    requires
        i < s.len(),
    ensures
        psum(s, i + 1) == psum(s, i) + s[i as int],
{
}

} // verus!

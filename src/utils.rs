//! Counting the distinct colors of an input by a cheap fingerprint of each color.
use vstd::prelude::*;
use std::collections::HashSet;
use crate::kmeans::initializer::distinct_count;
use crate::kmeans::utils::views;

verus! {

broadcast use vstd::std_specs::hash::group_hash_axioms;

/// A cheap fingerprint of a color from its first three channels; distinct colors may share one.
pub open spec fn fingerprint(p: Seq<u8>) -> usize {
    (2 * p[0] + 3 * p[1] + 5 * p[2]) as usize
}

/// The fingerprints of all the colors.
pub open spec fn fingerprints(data: Seq<Seq<u8>>) -> Seq<usize> {
    data.map_values(|p: Seq<u8>| fingerprint(p))
}

/// Number of distinct fingerprints among the colors.
pub open spec fn distinct_fingerprints(data: Seq<Seq<u8>>) -> nat {
    fingerprints(data).to_set().len()
}

proof fn lemma_to_set_push<A>(s: Seq<A>, x: A)
    ensures
        s.push(x).to_set() == s.to_set().insert(x),
{
    assert forall|y: A| s.push(x).to_set().contains(y) implies s.to_set().insert(x).contains(y) by {
        let i = choose|i: int| 0 <= i < s.push(x).len() && s.push(x)[i] == y;
        if i < s.len() {
            assert(s[i] == y);
        }
    }
    assert forall|y: A| s.to_set().insert(x).contains(y) implies s.push(x).to_set().contains(y) by {
        if y == x {
            assert(s.push(x)[s.len() as int] == y);
        } else {
            let i = choose|i: int| 0 <= i < s.len() && s[i] == y;
            assert(s.push(x)[i] == y);
        }
    }
    assert(s.push(x).to_set() =~= s.to_set().insert(x));
}

/// Colors that share no fingerprint are distinct, so the fingerprint count never exceeds the
/// number of distinct colors.
pub proof fn lemma_fingerprints_le_distinct(data: Seq<Seq<u8>>)
    ensures
        distinct_fingerprints(data) <= distinct_count(data),
{
    let f = |p: Seq<u8>| fingerprint(p);
    data.lemma_cardinality_of_set();
    data.lemma_to_set_map_commutes(f);
    assert(data.to_set().map(f) == fingerprints(data).to_set());
    vstd::set_lib::lemma_map_size_bound(data.to_set(), fingerprints(data).to_set(), f);
}

/// The number of distinct fingerprints among the colors.
pub fn num_distinct_colors<const D: usize>(data: &[[u8; D]]) -> (r: usize)
    requires
        D >= 3,
    ensures
        r == distinct_fingerprints(views(data@)),
{
    let ghost dv = views(data@);
    let mut color_hashset: HashSet<usize> = HashSet::new();
    for i in 0..data.len()
        invariant
            D >= 3,
            dv == views(data@),
            color_hashset@ == fingerprints(dv.take(i as int)).to_set(),
    {
        let pixel = &data[i];
        let hash_key = pixel[0] as usize * 2 + pixel[1] as usize * 3 + pixel[2] as usize * 5;
        proof {
            assert(dv[i as int] == pixel@);
            assert(fingerprints(dv.take(i + 1)) =~= fingerprints(dv.take(i as int)).push(hash_key));
            lemma_to_set_push(fingerprints(dv.take(i as int)), hash_key);
        }
        color_hashset.insert(hash_key);
    }
    proof {
        assert(dv.take(data@.len() as int) =~= dv);
    }
    color_hashset.len()
}

/// A fingerprint of a color with wide channels, from its first three channels.
pub open spec fn fingerprint_wide(p: Seq<u32>) -> u64 {
    (2 * p[0] + 3 * p[1] + 5 * p[2]) as u64
}

/// Number of distinct fingerprints among colors with wide channels.
pub fn num_distinct_colors_u32(data: &[[u32; 4]]) -> (r: usize)
    ensures
        r == data@.map_values(|p: [u32; 4]| fingerprint_wide(p@)).to_set().len(),
{
    let ghost fps = data@.map_values(|p: [u32; 4]| fingerprint_wide(p@));
    let mut color_hashset: HashSet<u64> = HashSet::new();
    for i in 0..data.len()
        invariant
            fps == data@.map_values(|p: [u32; 4]| fingerprint_wide(p@)),
            color_hashset@ == fps.take(i as int).to_set(),
    {
        let pixel = &data[i];
        let key = pixel[0] as u64 * 2 + pixel[1] as u64 * 3 + pixel[2] as u64 * 5;
        proof {
            assert(fps.take(i + 1) =~= fps.take(i as int).push(key));
            lemma_to_set_push(fps.take(i as int), key);
        }
        color_hashset.insert(key);
    }
    proof {
        assert(fps.take(data@.len() as int) =~= fps);
    }
    color_hashset.len()
}

} // verus!

//! Which algorithm runs, and the parameters of a run.
use vstd::prelude::*;
use crate::kmeans::initializer::Initializer;

verus! {

/// The refinement algorithm.
#[derive(Debug, Clone, Copy, PartialEq, Eq, Structural)]
pub enum KMeansAlgorithm {
    Lloyd,
    Hamerly,
    LloydGpu,
}

/// The parameters of a run. `tolerance` is in channel steps: a run stops once no centroid
/// moves by `tolerance` or more.
#[derive(Debug, Clone, Copy, PartialEq, Eq)]
pub struct KMeansConfig {
    pub k: usize,
    pub max_iterations: usize,
    pub tolerance: u64,
    pub algorithm: KMeansAlgorithm,
    pub initializer: Initializer,
    pub seed: Option<u64>,
}

impl KMeansAlgorithm {
    /// The algorithm's name.
    pub fn name(&self) -> (r: &'static str)
        ensures
            r@ == algorithm_name(*self),
    {
        proof {
            reveal_strlit("Lloyd");
            reveal_strlit("Hamerly");
            reveal_strlit("LloydGpu");
        }
        match self {
            KMeansAlgorithm::Lloyd => "Lloyd",
            KMeansAlgorithm::Hamerly => "Hamerly",
            KMeansAlgorithm::LloydGpu => "LloydGpu",
        }
    }
}

/// The name of an algorithm.
pub open spec fn algorithm_name(a: KMeansAlgorithm) -> Seq<char> {
    match a {
        KMeansAlgorithm::Lloyd => seq!['L', 'l', 'o', 'y', 'd'],
        KMeansAlgorithm::Hamerly => seq!['H', 'a', 'm', 'e', 'r', 'l', 'y'],
        KMeansAlgorithm::LloydGpu => seq!['L', 'l', 'o', 'y', 'd', 'G', 'p', 'u'],
    }
}

impl Default for KMeansConfig {
    fn default() -> (r: Self)
        ensures
            r.k == 10,
            r.max_iterations == 100,
            r.tolerance == 1,
            r.algorithm == KMeansAlgorithm::Lloyd,
            r.initializer == Initializer::KMeansPlusPlus,
            r.seed.is_none(),
    {
        KMeansConfig {
            k: 10,
            max_iterations: 100,
            tolerance: 1,
            algorithm: KMeansAlgorithm::Lloyd,
            initializer: Initializer::KMeansPlusPlus,
            seed: None,
        }
    }
}

} // verus!

//! The clustering engine: initializers, the two refinement algorithms and the device protocol.
pub mod config;
pub mod gpu;
pub mod hamerly;
pub mod initializer;
pub mod lloyd;
pub mod types;
pub mod utils;

use vstd::prelude::*;
use vstd::string::StringExecFns;
pub use self::config::{KMeansAlgorithm, KMeansConfig};
pub use self::initializer::Initializer;
pub use self::types::KMeansError;
pub use self::utils::find_closest_centroid;
use self::config::algorithm_name;
use self::hamerly::{hamerly_reachable, kmeans_hamerly};
use self::initializer::initial_ok;
use self::lloyd::{kmeans_lloyd, lloyd_result};
use self::types::{decimal, push_decimal};
use self::utils::{in_range, views};
use crate::utils::{distinct_fingerprints, lemma_fingerprints_le_distinct, num_distinct_colors};

verus! {

/// A configured clustering engine.
#[derive(Debug, Clone, Copy, PartialEq, Eq)]
pub struct KMeans(pub KMeansConfig);

/// The message of the error for too few distinct colors.
pub open spec fn too_few_colors_message(count: nat) -> Seq<char> {
    "Number of unique colors is less than k: "@ + decimal(count)
}

/// The message of the error for device clustering asked of 3-channel data.
pub open spec fn gpu_three_channel_message() -> Seq<char> {
    "GPU not supported for 3 channel data. Convert to 4 channel data first."@
}

/// The message of the error for device clustering asked of 4-channel data.
pub open spec fn gpu_four_channel_message() -> Seq<char> {
    "GPU not supported for vec4 float data. Convert to u8 data first."@
}

/// The message of the error for an algorithm that this executor does not run.
pub open spec fn unsupported_message(a: KMeansAlgorithm) -> Seq<char> {
    "Algorithm not supported on cpu: "@ + algorithm_name(a)
}

impl KMeans {
    pub fn from_config(config: KMeansConfig) -> (r: Self)
        ensures
            r.0 == config,
    {
        KMeans(config)
    }

    pub fn new(config: KMeansConfig) -> (r: Self)
        ensures
            r.0 == config,
    {
        KMeans(config)
    }

    pub fn with_k(self, k: usize) -> (r: Self)
        ensures
            r.0 == (KMeansConfig { k, ..self.0 }),
    {
        KMeans(KMeansConfig { k, ..self.0 })
    }

    pub fn with_max_iterations(self, max_iterations: usize) -> (r: Self)
        ensures
            r.0 == (KMeansConfig { max_iterations, ..self.0 }),
    {
        KMeans(KMeansConfig { max_iterations, ..self.0 })
    }

    pub fn with_tolerance(self, tolerance: u64) -> (r: Self)
        ensures
            r.0 == (KMeansConfig { tolerance, ..self.0 }),
    {
        KMeans(KMeansConfig { tolerance, ..self.0 })
    }

    pub fn with_algorithm(self, algorithm: KMeansAlgorithm) -> (r: Self)
        ensures
            r.0 == (KMeansConfig { algorithm, ..self.0 }),
    {
        KMeans(KMeansConfig { algorithm, ..self.0 })
    }

    pub fn with_seed(self, seed: u64) -> (r: Self)
        ensures
            r.0 == (KMeansConfig { seed: Some(seed), ..self.0 }),
    {
        KMeans(KMeansConfig { seed: Some(seed), ..self.0 })
    }

    /// Clusters `data` into `k` groups. Fails, before any work, when the colors hold fewer than
    /// `k` distinct fingerprints, or when the configured algorithm needs a compute device.
    pub fn run<const D: usize>(&self, data: &[[u8; D]]) -> (r: Result<
        (Vec<usize>, Vec<[u8; D]>),
        KMeansError,
    >)
        requires
            D >= 3,
            data@.len() * D <= usize::MAX,
            self.0.k >= 1,
        ensures
            r.is_err() <==> (distinct_fingerprints(views(data@)) < self.0.k || self.0.algorithm
                == KMeansAlgorithm::LloydGpu),
            distinct_fingerprints(views(data@)) < self.0.k ==> r.is_err() && r->Err_0.0@
                == too_few_colors_message(distinct_fingerprints(views(data@))),
            distinct_fingerprints(views(data@)) >= self.0.k && self.0.algorithm
                == KMeansAlgorithm::LloydGpu ==> r.is_err() && r->Err_0.0@ == unsupported_message(
                self.0.algorithm,
            ),
            r.is_ok() ==> r->Ok_0.0@.len() == data@.len() && r->Ok_0.1@.len() == self.0.k
                && in_range(r->Ok_0.0@, self.0.k as nat),
            r.is_ok() && self.0.algorithm == KMeansAlgorithm::Lloyd ==> exists|cs0: Seq<Seq<u8>>|
                initial_ok(cs0, views(data@), self.0.k as nat) && #[trigger] lloyd_result(
                    views(data@),
                    cs0,
                    self.0.tolerance as int,
                    self.0.max_iterations as nat,
                    r->Ok_0.0@,
                    views(r->Ok_0.1@),
                ),
            r.is_ok() && self.0.algorithm == KMeansAlgorithm::Hamerly ==> exists|cs0: Seq<Seq<u8>>, done: bool|
                initial_ok(cs0, views(data@), self.0.k as nat) && #[trigger] hamerly_reachable(
                    views(data@),
                    cs0,
                    self.0.tolerance as int,
                    self.0.max_iterations as nat,
                    r->Ok_0.0@,
                    views(r->Ok_0.1@),
                    done,
                ),
    {
        let unique_colors = num_distinct_colors(data);
        if unique_colors < self.0.k {
            let mut message = String::from_str("Number of unique colors is less than k: ");
            push_decimal(&mut message, unique_colors);
            return Err(KMeansError(message));
        }
        proof {
            lemma_fingerprints_le_distinct(views(data@));
        }
        match self.0.algorithm {
            KMeansAlgorithm::Lloyd => {
                let r = kmeans_lloyd(data, &self.0);
                assert(self.0.algorithm == KMeansAlgorithm::Lloyd);
                proof {
                    let cs0 = choose|cs0: Seq<Seq<u8>>|
                        initial_ok(cs0, views(data@), self.0.k as nat) && #[trigger] lloyd_result(
                            views(data@),
                            cs0,
                            self.0.tolerance as int,
                            self.0.max_iterations as nat,
                            r.0@,
                            views(r.1@),
                        );
                    assert(lloyd_result(
                        views(data@),
                        cs0,
                        self.0.tolerance as int,
                        self.0.max_iterations as nat,
                        r.0@,
                        views(r.1@),
                    ));
                }
                let res: Result<(Vec<usize>, Vec<[u8; D]>), KMeansError> = Ok(r);
                assert(res.is_ok());
                res
            },
            KMeansAlgorithm::Hamerly => {
                proof {
                    if data@.len() == 0 {
                        assert(crate::utils::fingerprints(views(data@)).to_set() =~= Set::empty());
                    }
                }
                let r = kmeans_hamerly(data, &self.0);
                proof {
                    let (cs0, done) = choose|cs0: Seq<Seq<u8>>, done: bool|
                        initial_ok(cs0, views(data@), self.0.k as nat) && #[trigger] hamerly_reachable(
                            views(data@),
                            cs0,
                            self.0.tolerance as int,
                            self.0.max_iterations as nat,
                            r.0@,
                            views(r.1@),
                            done,
                        );
                    assert(hamerly_reachable(
                        views(data@),
                        cs0,
                        self.0.tolerance as int,
                        self.0.max_iterations as nat,
                        r.0@,
                        views(r.1@),
                        done,
                    ));
                }
                let res: Result<(Vec<usize>, Vec<[u8; D]>), KMeansError> = Ok(r);
                assert(res.is_ok());
                res
            },
            KMeansAlgorithm::LloydGpu => {
                let message = String::from_str("Algorithm not supported on cpu: ").concat(
                    self.0.algorithm.name(),
                );
                Err(KMeansError(message))
            },
        }
    }

    /// [`KMeans::run`] on three-channel colors; device clustering is refused for them.
    pub fn run_vec3(&self, data: &[[u8; 3]]) -> (r: Result<(Vec<usize>, Vec<[u8; 3]>), KMeansError>)
        requires
            data@.len() * 3 <= usize::MAX,
            self.0.k >= 1,
        ensures
            self.0.algorithm == KMeansAlgorithm::LloydGpu ==> r.is_err() && r->Err_0.0@
                == gpu_three_channel_message(),
            self.0.algorithm != KMeansAlgorithm::LloydGpu ==> (r.is_err() <==> distinct_fingerprints(
                views(data@),
            ) < self.0.k),
            self.0.algorithm != KMeansAlgorithm::LloydGpu && distinct_fingerprints(views(data@))
                < self.0.k ==> r->Err_0.0@ == too_few_colors_message(
                distinct_fingerprints(views(data@)),
            ),
            r.is_ok() ==> r->Ok_0.0@.len() == data@.len() && r->Ok_0.1@.len() == self.0.k
                && in_range(r->Ok_0.0@, self.0.k as nat),
            r.is_ok() && self.0.algorithm == KMeansAlgorithm::Lloyd ==> exists|cs0: Seq<Seq<u8>>|
                initial_ok(cs0, views(data@), self.0.k as nat) && #[trigger] lloyd_result(
                    views(data@),
                    cs0,
                    self.0.tolerance as int,
                    self.0.max_iterations as nat,
                    r->Ok_0.0@,
                    views(r->Ok_0.1@),
                ),
            r.is_ok() && self.0.algorithm == KMeansAlgorithm::Hamerly ==> exists|cs0: Seq<Seq<u8>>, done: bool|
                initial_ok(cs0, views(data@), self.0.k as nat) && #[trigger] hamerly_reachable(
                    views(data@),
                    cs0,
                    self.0.tolerance as int,
                    self.0.max_iterations as nat,
                    r->Ok_0.0@,
                    views(r->Ok_0.1@),
                    done,
                ),
    {
        if self.0.algorithm == KMeansAlgorithm::LloydGpu {
            proof {
                reveal_strlit("GPU not supported for 3 channel data. Convert to 4 channel data first.");
            }
            return Err(KMeansError(String::from_str("GPU not supported for 3 channel data. Convert to 4 channel data first.")));
        }
        self.run(data)
    }

    /// [`KMeans::run`] on four-channel colors; device clustering is refused here (it runs through
    /// [`gpu::GpuLloydSession`]).
    pub fn run_vec4(&self, data: &[[u8; 4]]) -> (r: Result<(Vec<usize>, Vec<[u8; 4]>), KMeansError>)
        requires
            data@.len() * 4 <= usize::MAX,
            self.0.k >= 1,
        ensures
            self.0.algorithm == KMeansAlgorithm::LloydGpu ==> r.is_err() && r->Err_0.0@
                == gpu_four_channel_message(),
            self.0.algorithm != KMeansAlgorithm::LloydGpu ==> (r.is_err() <==> distinct_fingerprints(
                views(data@),
            ) < self.0.k),
            self.0.algorithm != KMeansAlgorithm::LloydGpu && distinct_fingerprints(views(data@))
                < self.0.k ==> r->Err_0.0@ == too_few_colors_message(
                distinct_fingerprints(views(data@)),
            ),
            r.is_ok() ==> r->Ok_0.0@.len() == data@.len() && r->Ok_0.1@.len() == self.0.k
                && in_range(r->Ok_0.0@, self.0.k as nat),
            r.is_ok() && self.0.algorithm == KMeansAlgorithm::Lloyd ==> exists|cs0: Seq<Seq<u8>>|
                initial_ok(cs0, views(data@), self.0.k as nat) && #[trigger] lloyd_result(
                    views(data@),
                    cs0,
                    self.0.tolerance as int,
                    self.0.max_iterations as nat,
                    r->Ok_0.0@,
                    views(r->Ok_0.1@),
                ),
            r.is_ok() && self.0.algorithm == KMeansAlgorithm::Hamerly ==> exists|cs0: Seq<Seq<u8>>, done: bool|
                initial_ok(cs0, views(data@), self.0.k as nat) && #[trigger] hamerly_reachable(
                    views(data@),
                    cs0,
                    self.0.tolerance as int,
                    self.0.max_iterations as nat,
                    r->Ok_0.0@,
                    views(r->Ok_0.1@),
                    done,
                ),
    {
        if self.0.algorithm == KMeansAlgorithm::LloydGpu {
            proof {
                reveal_strlit("GPU not supported for vec4 float data. Convert to u8 data first.");
            }
            return Err(KMeansError(String::from_str("GPU not supported for vec4 float data. Convert to u8 data first.")));
        }
        self.run(data)
    }
}

impl Default for KMeans {
    fn default() -> (r: Self)
        ensures
            r.0.k == 3,
            r.0.max_iterations == 100,
            r.0.tolerance == 1,
            r.0.algorithm == KMeansAlgorithm::Lloyd,
            r.0.initializer == Initializer::KMeansPlusPlus,
            r.0.seed.is_none(),
    {
        KMeans(
            KMeansConfig {
                k: 3,
                max_iterations: 100,
                tolerance: 1,
                algorithm: KMeansAlgorithm::Lloyd,
                initializer: Initializer::KMeansPlusPlus,
                seed: None,
            },
        )
    }
}

} // verus!

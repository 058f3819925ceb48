//! The host side of the device executor. The device finds each point's closest centroid; the
//! host keeps the centroids, recomputes them between dispatches, and decides when to stop. The
//! device work itself is carried out by the caller, command by command.
use vstd::prelude::*;
use vstd::string::StringExecFns;
use crate::kmeans::config::{algorithm_name, KMeansAlgorithm, KMeansConfig};
use crate::kmeans::initializer::initial_ok;
use crate::kmeans::lloyd::lloyd_state;
use crate::kmeans::types::{push_decimal, KMeansError};
use crate::kmeans::utils::{
    assign, converged, has_converged, nearest,
    recompute, recompute_centroids, views,
};
use crate::types::{euclidean_distance_squared, sq_dist};
use crate::utils::{distinct_fingerprints, lemma_fingerprints_le_distinct, num_distinct_colors};

verus! {

/// Points handled by one unit of device work.
pub const WORKGROUP_SIZE: u64 = 256;

/// Channels per vector in a device buffer: the device's native vector width.
pub const DEVICE_WIDTH: usize = 4;

/// The squared distance the device computes between a point and a centroid.
pub fn squared_distance_to_centroid<const D: usize>(point: &[u8; D], centroid: &[u8; D]) -> (r: u128)
    ensures
        r == sq_dist(point@, centroid@),
{
    euclidean_distance_squared(point, centroid)
}

/// What the device computes for every point: the index of its closest centroid among the first
/// `k`, ties going to the lowest index.
pub fn update_assignments<const D: usize>(
    assignments: &mut Vec<u32>,
    centroids: &[[u8; D]],
    points: &[[u8; D]],
    k: u32,
)
    requires
        old(assignments)@.len() == points@.len(),
        1 <= k <= centroids@.len(),
    ensures
        final(assignments)@.len() == points@.len(),
        forall|i: int|
            0 <= i < points@.len() ==> (#[trigger] final(assignments)@[i]) as nat == nearest(
                points@[i]@,
                views(centroids@).take(k as int),
            ),
{
    let ghost cv = views(centroids@).take(k as int);
    for i in 0..points.len()
        invariant
            assignments@.len() == points@.len(),
            1 <= k <= centroids@.len(),
            cv == views(centroids@).take(k as int),
            forall|m: int|
                0 <= m < i ==> (#[trigger] assignments@[m]) as nat == nearest(points@[m]@, cv),
    {
        let point = &points[i];
        let mut min_distance = squared_distance_to_centroid(point, &centroids[0]);
        let mut best: u32 = 0;
        let mut j: u32 = 1;
        while j < k
            invariant
                1 <= j <= k,
                k <= centroids@.len(),
                cv == views(centroids@).take(k as int),
                best < j,
                best as nat == crate::kmeans::utils::nearest_upto(point@, cv, j as nat),
                min_distance == sq_dist(point@, cv[best as int]),
            decreases k - j,
        {
            let distance = squared_distance_to_centroid(point, &centroids[j as usize]);
            proof {
                assert(cv[j as int] == centroids@[j as int]@);
            }
            if distance < min_distance {
                min_distance = distance;
                best = j;
            }
            j = j + 1;
        }
        assignments.set(i, best);
    }
}

/// A command for the device, in the order it is to be submitted.
#[derive(Debug, Clone)]
pub enum GpuCommand {
    /// Write the values into the buffer, from its start.
    WriteBuffer { buffer: u32, data: Vec<u32> },
    /// Run the closest-centroid kernel over this many workgroups.
    Dispatch { workgroups: u64 },
    /// Copy `size` bytes from the start of one buffer to the start of another.
    CopyBufferToBuffer { source: u32, destination: u32, size: u64 },
}

/// Commands recorded for one submission.
#[derive(Debug, Clone)]
pub struct CommandEncoder {
    pub commands: Vec<GpuCommand>,
}

/// A device buffer paired with a host-readable staging buffer of the same size.
#[derive(Debug, Clone, Copy, PartialEq, Eq, Structural)]
pub struct MappableBuffer {
    pub gpu_buffer: u32,
    pub staging_buffer: u32,
    pub size: u64,
}

impl MappableBuffer {
    /// Records the copy of the device buffer into the staging buffer.
    pub fn copy_to_staging_buffer(&self, encoder: &mut CommandEncoder)
        ensures
            final(encoder).commands@ == old(encoder).commands@.push(
                GpuCommand::CopyBufferToBuffer {
                    source: self.gpu_buffer,
                    destination: self.staging_buffer,
                    size: self.size,
                },
            ),
    {
        encoder.commands.push(
            GpuCommand::CopyBufferToBuffer {
                source: self.gpu_buffer,
                destination: self.staging_buffer,
                size: self.size,
            },
        );
    }
}

/// The buffer layout of vectors: each one's channels in order, padded with zeros to the device
/// width.
pub open spec fn packed(cs: Seq<Seq<u8>>) -> Seq<u32> {
    Seq::new(
        (cs.len() * DEVICE_WIDTH) as nat,
        |x: int|
            {
                let c = x % (DEVICE_WIDTH as int);
                if c < cs[x / (DEVICE_WIDTH as int)].len() {
                    cs[x / (DEVICE_WIDTH as int)][c] as u32
                } else {
                    0u32
                }
            },
    )
}

/// Packs vectors into the device buffer layout.
pub fn pack_vectors<const D: usize>(vectors: &[[u8; D]]) -> (r: Vec<u32>)
    requires
        D <= DEVICE_WIDTH,
        vectors@.len() * DEVICE_WIDTH <= usize::MAX,
    ensures
        r@ == packed(views(vectors@)),
{
    let ghost vv = views(vectors@);
    let mut out: Vec<u32> = Vec::new();
    for j in 0..vectors.len()
        invariant
            D <= DEVICE_WIDTH,
            vv == views(vectors@),
            vectors@.len() * DEVICE_WIDTH <= usize::MAX,
            out@.len() == j * DEVICE_WIDTH,
            forall|x: int| 0 <= x < out@.len() ==> out@[x] == packed(vv)[x],
    {
        for c in 0..DEVICE_WIDTH
            invariant
                D <= DEVICE_WIDTH,
                j < vectors@.len(),
                vv == views(vectors@),
                vectors@.len() * DEVICE_WIDTH <= usize::MAX,
                out@.len() == j * DEVICE_WIDTH + c,
                forall|x: int| 0 <= x < out@.len() ==> out@[x] == packed(vv)[x],
        {
            let v: u32 = if c < D {
                vectors[j][c] as u32
            } else {
                0
            };
            proof {
                let x = (j * DEVICE_WIDTH + c) as int;
                assert(x / 4 == j && x % 4 == c) by (nonlinear_arith)
                    requires
                        x == j * 4 + c,
                        0 <= c < 4,
                ;
                assert(vv[j as int] == vectors@[j as int]@);
                assert(x < vv.len() * 4) by (nonlinear_arith)
                    requires
                        x == j * 4 + c,
                        0 <= c < 4,
                        j < vv.len(),
                ;
            }
            out.push(v);
        }
    }
    proof {
        assert(out@ =~= packed(vv));
    }
    out
}

} // verus!

verus! {

/// What the caller does next in a device run.
#[derive(Debug, Clone, Copy, PartialEq, Eq, Structural)]
pub enum GpuAction {
    /// Submit the commands of [`GpuLloydSession::plan_iteration`], wait for the copy to finish,
    /// and hand the assignments read back to [`GpuLloydSession::on_readback`].
    Dispatch,
    /// The run is over: take the result with [`GpuLloydSession::finish`].
    Finish,
}

/// The host state of a naive k-means run whose assignment step runs on a device.
#[derive(Debug, Clone)]
pub struct GpuLloydSession<const D: usize> {
    pub centroids: Vec<[u8; D]>,
    pub assignments: Vec<usize>,
    pub iterations: usize,
    pub converged: bool,
    pub max_iterations: usize,
    pub tolerance: u64,
}

/// One host step after a dispatch: take the device's assignment, recompute the centroids, and
/// check for convergence.
pub open spec fn device_step(data: Seq<Seq<u8>>, cs: Seq<Seq<u8>>, asg: Seq<usize>, tol: int) -> (
    Seq<usize>,
    Seq<Seq<u8>>,
    bool,
) {
    let next = recompute(data, asg, cs);
    (asg, next, converged(cs, next, tol))
}

/// The device's result as host assignments.
pub open spec fn widen(raw: Seq<u32>) -> Seq<usize> {
    raw.map_values(|a: u32| a as usize)
}

/// The message of the error for an algorithm that the device executor does not run.
pub open spec fn gpu_unsupported_message(a: KMeansAlgorithm) -> Seq<char> {
    "Algorithm not supported on gpu: "@ + algorithm_name(a)
}

/// The message of the error for a device result that is not an assignment of every point.
pub open spec fn bad_readback_message() -> Seq<char> {
    "Device returned an invalid assignment"@
}

/// When the device returns each point's closest centroid, the host step is exactly a round of
/// the naive algorithm: the device executor and the host executor run through the same states.
pub proof fn lemma_device_agrees_with_lloyd(data: Seq<Seq<u8>>, cs0: Seq<Seq<u8>>, tol: int, t: nat)
    requires
        !lloyd_state(data, cs0, tol, t).2,
    ensures
        device_step(data, lloyd_state(data, cs0, tol, t).1, assign(data, lloyd_state(data, cs0, tol, t).1), tol)
            == lloyd_state(data, cs0, tol, t + 1),
{
}

impl<const D: usize> GpuLloydSession<D> {
    /// The state of the run: the assignment, the centroids, and whether it has converged.
    pub open spec fn state(&self) -> (Seq<usize>, Seq<Seq<u8>>, bool) {
        (self.assignments@, views(self.centroids@), self.converged)
    }

    /// Starts a run: checks the configuration against the data, then picks the initial
    /// centroids. Fails when the algorithm is the bound-accelerated one, which this executor does
    /// not run, or when the colors hold fewer than `k` distinct fingerprints.
    pub fn start(config: &KMeansConfig, data: &[[u8; D]]) -> (r: Result<Self, KMeansError>)
        requires
            D >= 3,
            data@.len() * D <= usize::MAX,
            config.k >= 1,
        ensures
            r.is_err() <==> (config.algorithm == KMeansAlgorithm::Hamerly || distinct_fingerprints(
                views(data@),
            ) < config.k),
            config.algorithm == KMeansAlgorithm::Hamerly ==> r->Err_0.0@ == gpu_unsupported_message(
                config.algorithm,
            ),
            config.algorithm != KMeansAlgorithm::Hamerly && distinct_fingerprints(views(data@))
                < config.k ==> r->Err_0.0@ == crate::kmeans::too_few_colors_message(
                distinct_fingerprints(views(data@)),
            ),
            r.is_ok() ==> {
                let s = r->Ok_0;
                &&& initial_ok(views(s.centroids@), views(data@), config.k as nat)
                &&& s.centroids@.len() == config.k
                &&& s.state() == lloyd_state(views(data@), views(s.centroids@), config.tolerance as int, 0)
                &&& s.iterations == 0
                &&& s.max_iterations == config.max_iterations
                &&& s.tolerance == config.tolerance
            },
    {
        if config.algorithm == KMeansAlgorithm::Hamerly {
            let message = String::from_str("Algorithm not supported on gpu: ").concat(
                config.algorithm.name(),
            );
            return Err(KMeansError(message));
        }
        let unique_colors = num_distinct_colors(data);
        if unique_colors < config.k {
            let mut message = String::from_str("Number of unique colors is less than k: ");
            push_decimal(&mut message, unique_colors);
            return Err(KMeansError(message));
        }
        proof {
            lemma_fingerprints_le_distinct(views(data@));
        }
        let centroids = config.initializer.initialize_centroids(data, config.k, config.seed);
        Ok(Self::from_centroids(data, centroids, config.max_iterations, config.tolerance))
    }

    /// Starts a run from the given initial centroids: the state of a naive run before its first
    /// round, so that kernel-correct read-backs take it through the naive run's states.
    pub fn from_centroids(
        data: &[[u8; D]],
        initial_centroids: Vec<[u8; D]>,
        max_iterations: usize,
        tolerance: u64,
    ) -> (r: Self)
        ensures
            r.centroids@ == initial_centroids@,
            r.state() == lloyd_state(views(data@), views(initial_centroids@), tolerance as int, 0),
            r.iterations == 0,
            r.max_iterations == max_iterations,
            r.tolerance == tolerance,
    {
        let assignments: Vec<usize> = vec![0usize; data.len()];
        let s = GpuLloydSession {
            centroids: initial_centroids,
            assignments,
            iterations: 0,
            converged: false,
            max_iterations,
            tolerance,
        };
        proof {
            assert(s.assignments@ =~= Seq::new(data@.len() as nat, |i: int| 0usize));
        }
        s
    }

    /// Whether another dispatch is due: the run has neither converged nor used up its rounds.
    pub fn next_action(&self) -> (r: GpuAction)
        ensures
            r == GpuAction::Dispatch <==> (self.iterations < self.max_iterations && !self.converged),
    {
        if self.iterations < self.max_iterations && !self.converged {
            GpuAction::Dispatch
        } else {
            GpuAction::Finish
        }
    }

    /// The commands of one round: upload the centroids, run the kernel over every point, and
    /// copy the assignments to the staging buffer.
    pub fn plan_iteration(
        &self,
        centroid_buffer: u32,
        assignment_buffer: &MappableBuffer,
        point_count: usize,
    ) -> (r: CommandEncoder)
        requires
            D <= DEVICE_WIDTH,
            self.centroids@.len() * DEVICE_WIDTH <= usize::MAX,
        ensures
            r.commands@.len() == 3,
            r.commands@[0] matches GpuCommand::WriteBuffer { buffer, data }
                && buffer == centroid_buffer && data@ == packed(views(self.centroids@)),
            r.commands@[1] == (GpuCommand::Dispatch {
                workgroups: (point_count / 256 + if point_count % 256 == 0 {
                    0int
                } else {
                    1int
                }) as u64,
            }),
            r.commands@[2] == (GpuCommand::CopyBufferToBuffer {
                source: assignment_buffer.gpu_buffer,
                destination: assignment_buffer.staging_buffer,
                size: assignment_buffer.size,
            }),
    {
        let mut encoder = CommandEncoder { commands: Vec::new() };
        let data = pack_vectors(self.centroids.as_slice());
        encoder.commands.push(GpuCommand::WriteBuffer { buffer: centroid_buffer, data });
        let count = point_count as u64;
        let workgroups = count / WORKGROUP_SIZE + if count % WORKGROUP_SIZE == 0 {
            0
        } else {
            1
        };
        encoder.commands.push(GpuCommand::Dispatch { workgroups });
        assignment_buffer.copy_to_staging_buffer(&mut encoder);
        encoder
    }

    /// Takes the assignments read back from the device, recomputes the centroids from them on the
    /// host, and checks for convergence. Fails, leaving the run as it was, when the device did
    /// not return one cluster index below `k` for every point.
    pub fn on_readback(&mut self, data: &[[u8; D]], raw: &[u32]) -> (r: Result<(), KMeansError>)
        requires
            old(self).assignments@.len() == data@.len(),
        ensures
            r.is_ok() <==> (raw@.len() == data@.len() && forall|i: int|
                0 <= i < raw@.len() ==> (#[trigger] raw@[i]) < old(self).centroids@.len()),
            r.is_err() ==> *final(self) == *old(self) && r->Err_0.0@ == bad_readback_message(),
            r.is_ok() ==> {
                &&& final(self).state() == device_step(
                    views(data@),
                    views(old(self).centroids@),
                    widen(raw@),
                    old(self).tolerance as int,
                )
                &&& final(self).iterations == old(self).iterations + 1 || old(self).iterations == usize::MAX
                &&& final(self).max_iterations == old(self).max_iterations
                &&& final(self).tolerance == old(self).tolerance
                &&& final(self).centroids@.len() == old(self).centroids@.len()
            },
    {
        proof {
            reveal_strlit("Device returned an invalid assignment");
        }
        let k = self.centroids.len();
        if raw.len() != data.len() {
            return Err(KMeansError(String::from_str("Device returned an invalid assignment")));
        }
        let mut assignments: Vec<usize> = Vec::new();
        for i in 0..raw.len()
            invariant
                assignments@.len() == i,
                k == old(self).centroids@.len(),
                forall|m: int| 0 <= m < i ==> (#[trigger] raw@[m]) < k,
                forall|m: int| 0 <= m < i ==> assignments@[m] == raw@[m] as usize,
        {
            if raw[i] as usize >= k {
                assert(raw@[i as int] >= old(self).centroids@.len());
                return Err(KMeansError(String::from_str("Device returned an invalid assignment")));
            }
            assignments.push(raw[i] as usize);
        }
        proof {
            assert(assignments@ =~= widen(raw@));
        }
        let ghost old_cs = views(self.centroids@);
        let new_centroids = recompute_centroids(data, assignments.as_slice(), self.centroids.as_slice());
        let done = has_converged(self.centroids.as_slice(), new_centroids.as_slice(), self.tolerance);
        assert(views(new_centroids@) == recompute(views(data@), widen(raw@), old_cs));
        assert(done == converged(old_cs, views(new_centroids@), self.tolerance as int));
        self.converged = done;
        self.centroids = new_centroids;
        self.assignments = assignments;
        if self.iterations < usize::MAX {
            self.iterations = self.iterations + 1;
        }
        Ok(())
    }

    /// The result of the run: the assignment of every point and the centroids.
    pub fn finish(self) -> (r: (Vec<usize>, Vec<[u8; D]>))
        ensures
            r.0@ == self.assignments@,
            r.1@ == self.centroids@,
    {
        (self.assignments, self.centroids)
    }
}

} // verus!

use colorcrunch::distance::{ceil_sqrt, floor_sqrt, EuclideanDistance, SquaredEuclideanDistance};
use colorcrunch::kmeans::config::{KMeansAlgorithm, KMeansConfig};
use colorcrunch::kmeans::gpu::{
    pack_vectors, update_assignments, CommandEncoder, GpuAction, GpuCommand, GpuLloydSession,
    MappableBuffer,
};
use colorcrunch::kmeans::hamerly::hamerly_from_centroids;
use colorcrunch::kmeans::initializer::{
    initialize_random, kmeans_plus_plus, select_by_threshold, Initializer,
};
use colorcrunch::kmeans::lloyd::lloyd_from_centroids;
use colorcrunch::kmeans::utils::{has_converged, recompute_centroids};
use colorcrunch::kmeans::KMeans;
use colorcrunch::quantize::ColorCruncherBuilder;
use colorcrunch::types::euclidean_distance_squared;
use colorcrunch::utils::{num_distinct_colors, num_distinct_colors_u32};

fn config(k: usize, algorithm: KMeansAlgorithm, seed: u64) -> KMeansConfig {
    KMeansConfig {
        k,
        max_iterations: 100,
        tolerance: 1,
        algorithm,
        initializer: Initializer::KMeansPlusPlus,
        seed: Some(seed),
    }
}

fn run_on_host_device(config: &KMeansConfig, pixels: &[[u8; 4]]) -> (Vec<usize>, Vec<[u8; 4]>) {
    let mut session = GpuLloydSession::start(config, pixels).unwrap();
    let buffer = MappableBuffer { gpu_buffer: 2, staging_buffer: 3, size: (pixels.len() * 4) as u64 };
    while session.next_action() == GpuAction::Dispatch {
        let _plan = session.plan_iteration(1, &buffer, pixels.len());
        let mut raw = vec![0u32; pixels.len()];
        update_assignments(&mut raw, &session.centroids, pixels, session.centroids.len() as u32);
        session.on_readback(pixels, &raw).unwrap();
    }
    session.finish()
}

#[test]
fn converged_against_itself() {
    let cs = vec![[1u8, 2, 3], [200, 100, 0]];
    assert!(has_converged(&cs, &cs, 1));
    assert!(has_converged(&cs, &cs, 7));
    assert!(!has_converged(&cs, &cs, 0));
}

#[test]
fn convergence_is_strict_and_positional() {
    let a = vec![[0u8, 0, 0], [10, 10, 10]];
    let b = vec![[3u8, 4, 0], [10, 10, 10]];
    assert!(!has_converged(&a, &b, 5));
    assert!(has_converged(&a, &b, 6));
    let swapped = vec![[10u8, 10, 10], [0, 0, 0]];
    assert!(!has_converged(&a, &swapped, 5));
}

#[test]
fn distance_formulas() {
    assert_eq!(euclidean_distance_squared(&[0u8, 0, 0], &[3, 4, 0]), 25);
    assert_eq!(euclidean_distance_squared(&[255u8, 0, 0, 7], &[0, 0, 0, 7]), 65025);
    assert_eq!(floor_sqrt(24), 4);
    assert_eq!(ceil_sqrt(24), 5);
    assert_eq!(ceil_sqrt(25), 5);
    assert_eq!(floor_sqrt(0), 0);
    assert_eq!(SquaredEuclideanDistance(50).sqrt(), EuclideanDistance(7));
    assert_eq!(SquaredEuclideanDistance(50).sqrt_ceil(), EuclideanDistance(8));
}

#[test]
fn rounded_means() {
    let data = vec![[0u8, 0, 0], [1, 1, 1], [0, 0, 0], [0, 0, 0], [1, 2, 3]];
    let assignments = vec![0usize, 0, 1, 1, 1];
    let previous = vec![[9u8, 9, 9], [9, 9, 9], [42, 42, 42]];
    let cs = recompute_centroids(&data, &assignments, &previous);
    assert_eq!(cs, vec![[1, 1, 1], [0, 1, 1], [42, 42, 42]]);
}

#[test]
fn fingerprints_can_collide() {
    assert_eq!(num_distinct_colors(&[[3u8, 0, 0], [0, 2, 0]]), 1);
    assert_eq!(num_distinct_colors(&[[1u8, 0, 0], [0, 1, 0], [0, 0, 1], [1, 0, 0]]), 3);
    assert_eq!(num_distinct_colors::<3>(&[]), 0);
    assert_eq!(num_distinct_colors_u32(&[[3, 0, 0, 9], [0, 2, 0, 1], [1, 1, 1, 1]]), 2);
}

#[test]
fn naive_run_from_given_centroids() {
    let data = vec![[0u8, 0, 0], [2, 2, 2], [10, 10, 10], [12, 12, 12]];
    let init = vec![[0u8, 0, 0], [12, 12, 12]];
    let (asg, cs) = lloyd_from_centroids(&data, init.clone(), 10, 1);
    assert_eq!(asg, vec![0, 0, 1, 1]);
    assert_eq!(cs, vec![[1, 1, 1], [11, 11, 11]]);
    let (asg2, cs2) = hamerly_from_centroids(&data, init.clone(), 10, 1);
    assert_eq!(asg2, asg);
    assert_eq!(cs2, cs);
    let (asg0, cs0) = lloyd_from_centroids(&data, init, 0, 1);
    assert_eq!(asg0, vec![0, 0, 0, 0]);
    assert_eq!(cs0, vec![[0, 0, 0], [12, 12, 12]]);
}

#[test]
fn ties_go_to_the_lowest_index() {
    let data = vec![[5u8, 5, 5]];
    let init = vec![[4u8, 5, 5], [6, 5, 5]];
    let (asg, _) = lloyd_from_centroids(&data, init, 1, 1);
    assert_eq!(asg, vec![0]);
}

#[test]
fn degenerate_singletons() {
    let data = vec![[10u8, 20, 30], [200, 100, 50], [0, 255, 128], [90, 90, 90]];
    for algorithm in [KMeansAlgorithm::Lloyd, KMeansAlgorithm::Hamerly] {
        let (asg, cs) = KMeans::from_config(config(4, algorithm, 7)).run(&data).unwrap();
        let mut seen = asg.clone();
        seen.sort();
        assert_eq!(seen, vec![0, 1, 2, 3]);
        for i in 0..data.len() {
            assert_eq!(cs[asg[i]], data[i]);
        }
    }
}

#[test]
fn primaries_scenario() {
    let data = vec![[255u8, 0, 0], [0, 255, 0], [0, 0, 255]];
    for algorithm in [KMeansAlgorithm::Lloyd, KMeansAlgorithm::Hamerly] {
        let (asg, cs) = KMeans::from_config(config(3, algorithm, 1)).run(&data).unwrap();
        assert_ne!(asg[0], asg[1]);
        assert_ne!(asg[1], asg[2]);
        assert_ne!(asg[0], asg[2]);
        for i in 0..3 {
            assert_eq!(cs[asg[i]], data[i]);
        }
    }
    let data4: Vec<[u8; 4]> = data.iter().map(|p| [p[0], p[1], p[2], 0]).collect();
    let (asg, cs) = run_on_host_device(&config(3, KMeansAlgorithm::LloydGpu, 1), &data4);
    for i in 0..3 {
        assert_eq!(cs[asg[i]], data4[i]);
    }
}

#[test]
fn identical_points_scenario() {
    let data = vec![[100u8, 100, 100], [100, 100, 100], [100, 100, 100]];
    for algorithm in [KMeansAlgorithm::Lloyd, KMeansAlgorithm::Hamerly] {
        let (asg, cs) = KMeans::from_config(config(1, algorithm, 3)).run(&data).unwrap();
        assert_eq!(asg, vec![0, 0, 0]);
        assert_eq!(cs, vec![[100, 100, 100]]);
    }
}

#[test]
fn too_few_colors_fails_on_every_executor() {
    let data = vec![[255u8, 0, 0, 0], [0, 255, 0, 0], [255, 0, 0, 0]];
    let err = KMeans::from_config(config(3, KMeansAlgorithm::Hamerly, 1)).run(&data).unwrap_err();
    assert_eq!(err.message(), "Number of unique colors is less than k: 2");
    let err = GpuLloydSession::start(&config(3, KMeansAlgorithm::LloydGpu, 1), &data).unwrap_err();
    assert_eq!(err.message(), "Number of unique colors is less than k: 2");
    let empty: Vec<[u8; 3]> = vec![];
    let err = KMeans::from_config(config(1, KMeansAlgorithm::Lloyd, 1)).run(&empty).unwrap_err();
    assert_eq!(err.message(), "Number of unique colors is less than k: 0");
    let many: Vec<[u8; 3]> = (0..12u8).map(|i| [i * 20, 0, 0]).collect();
    let err = KMeans::from_config(config(13, KMeansAlgorithm::Lloyd, 1)).run(&many).unwrap_err();
    assert_eq!(err.message(), "Number of unique colors is less than k: 12");
}

#[test]
fn executor_mismatch_errors() {
    let data = vec![[1u8, 2, 3, 4], [50, 60, 70, 80]];
    let err = KMeans::from_config(config(2, KMeansAlgorithm::LloydGpu, 1)).run(&data).unwrap_err();
    assert_eq!(err.message(), "Algorithm not supported on cpu: LloydGpu");
    let err = GpuLloydSession::start(&config(2, KMeansAlgorithm::Hamerly, 1), &data).unwrap_err();
    assert_eq!(err.message(), "Algorithm not supported on gpu: Hamerly");
}

#[test]
fn device_and_host_agree() {
    let data: Vec<[u8; 4]> = (0..60u32)
        .map(|i| [((i * 37) % 256) as u8, ((i * 91) % 256) as u8, ((i * 13) % 256) as u8, 0])
        .collect();
    let host = KMeans::from_config(config(4, KMeansAlgorithm::Lloyd, 11)).run(&data).unwrap();
    let device = run_on_host_device(&config(4, KMeansAlgorithm::LloydGpu, 11), &data);
    assert_eq!(host, device);
}

#[test]
fn bad_readback_is_rejected() {
    let data = vec![[1u8, 2, 3, 4], [50, 60, 70, 80], [90, 90, 90, 90]];
    let mut session = GpuLloydSession::start(&config(2, KMeansAlgorithm::LloydGpu, 5), &data).unwrap();
    assert_eq!(session.next_action(), GpuAction::Dispatch);
    let err = session.on_readback(&data, &[0, 1]).unwrap_err();
    assert_eq!(err.message(), "Device returned an invalid assignment");
    let err = session.on_readback(&data, &[0, 2, 1]).unwrap_err();
    assert_eq!(err.message(), "Device returned an invalid assignment");
    assert_eq!(session.iterations, 0);
    session.on_readback(&data, &[0, 1, 1]).unwrap();
    assert_eq!(session.iterations, 1);
    assert_eq!(session.assignments, vec![0, 1, 1]);
}

#[test]
fn device_kernel_and_commands() {
    let points = vec![[0u8, 0, 0, 0], [1, 1, 1, 1], [10, 10, 10, 10], [11, 11, 11, 11]];
    let centroids = vec![[0u8, 0, 0, 0], [10, 10, 10, 10], [11, 11, 11, 11]];
    let mut raw = vec![7u32; 4];
    update_assignments(&mut raw, &centroids, &points, 2);
    assert_eq!(raw, vec![0, 0, 1, 1]);
    update_assignments(&mut raw, &centroids, &points, 3);
    assert_eq!(raw, vec![0, 0, 1, 2]);
    assert_eq!(pack_vectors(&[[1u8, 2, 3], [4, 5, 6]]), vec![1, 2, 3, 0, 4, 5, 6, 0]);
    let buffer = MappableBuffer { gpu_buffer: 4, staging_buffer: 5, size: 16 };
    let mut encoder = CommandEncoder { commands: vec![] };
    buffer.copy_to_staging_buffer(&mut encoder);
    assert_eq!(encoder.commands.len(), 1);
    assert!(matches!(
        encoder.commands[0],
        GpuCommand::CopyBufferToBuffer { source: 4, destination: 5, size: 16 }
    ));
    let session = GpuLloydSession::start(&config(2, KMeansAlgorithm::Lloyd, 5), &points).unwrap();
    let plan = session.plan_iteration(9, &buffer, 257);
    assert!(matches!(plan.commands[1], GpuCommand::Dispatch { workgroups: 2 }));
    match &plan.commands[0] {
        GpuCommand::WriteBuffer { buffer, data } => {
            assert_eq!(*buffer, 9);
            assert_eq!(data.len(), 8);
        }
        _ => panic!("the first command uploads the centroids"),
    }
}

#[test]
fn initializers_draw_distinct_points_from_the_data() {
    let data = vec![[1u8, 1, 1], [1, 1, 1], [2, 2, 2], [3, 3, 3], [4, 4, 4]];
    let r = initialize_random(&data, 3, Some(9));
    assert_eq!(r.len(), 3);
    for c in &r {
        assert!(data.contains(c));
    }
    assert!(r[0] != r[1] && r[1] != r[2] && r[0] != r[2]);
    assert_eq!(r, initialize_random(&data, 3, Some(9)));
    let all = initialize_random(&data, 10, Some(9));
    assert_eq!(all.len(), 4);
    let p = kmeans_plus_plus(&data, 4, Some(9));
    assert_eq!(p.len(), 4);
    for c in &p {
        assert!(data.contains(c));
    }
    for i in 0..4 {
        for j in (i + 1)..4 {
            assert_ne!(p[i], p[j]);
        }
    }
    assert_eq!(p, kmeans_plus_plus(&data, 4, Some(9)));
    let empty: Vec<[u8; 3]> = vec![];
    assert!(kmeans_plus_plus(&empty, 3, Some(1)).is_empty());
    assert!(initialize_random(&empty, 3, Some(1)).is_empty());
    let unseeded = kmeans_plus_plus(&data, 2, None);
    assert_eq!(unseeded.len(), 2);
}

#[test]
fn quantizer_repaints_with_the_palette() {
    let pixels: Vec<u8> = vec![
        0, 0, 0, 9, 2, 2, 2, 8, 250, 250, 250, 7, 252, 252, 252, 6, 120, 0, 0, 5,
    ];
    let quantizer = ColorCruncherBuilder::new()
        .with_max_colors(2)
        .with_channels(4)
        .with_seed(3)
        .build_cpu();
    let out = quantizer.quantize_image(&pixels);
    assert_eq!(out.len(), pixels.len());
    for p in 0..5 {
        assert_eq!(out[p * 4 + 3], pixels[p * 4 + 3]);
    }
    assert_eq!(&out[0..3], &out[4..7]);
    assert_eq!(&out[8..11], &out[12..15]);
    let palette = quantizer.create_palette(&pixels);
    assert_eq!(palette.len(), 2);
    let sampler = ColorCruncherBuilder::new().with_channels(3).with_sample_rate(2).build_cpu();
    let colors = sampler.chunk_pixels_vec3(&[1, 2, 3, 4, 5, 6, 7, 8, 9, 10]);
    assert_eq!(colors, vec![[1, 2, 3], [7, 8, 9]]);
}

#[test]
fn roulette_selection_picks_the_first_sum_above_the_threshold() {
    let d = [0u128, 3, 0, 5];
    assert_eq!(select_by_threshold(&d, 0), Some(1));
    assert_eq!(select_by_threshold(&d, 2), Some(1));
    assert_eq!(select_by_threshold(&d, 3), Some(3));
    assert_eq!(select_by_threshold(&d, 7), Some(3));
    assert_eq!(select_by_threshold(&d, 8), None);
    assert_eq!(select_by_threshold(&[], 0), None);
}

#[test]
fn device_run_from_given_centroids_matches_the_naive_run() {
    let data = vec![[0u8, 0, 0, 0], [2, 2, 2, 2], [10, 10, 10, 10], [12, 12, 12, 12]];
    let init = vec![[0u8, 0, 0, 0], [12, 12, 12, 12]];
    let mut session = GpuLloydSession::from_centroids(&data, init.clone(), 10, 1);
    while session.next_action() == GpuAction::Dispatch {
        let mut raw = vec![0u32; data.len()];
        update_assignments(&mut raw, &session.centroids, &data, 2);
        session.on_readback(&data, &raw).unwrap();
    }
    assert_eq!(session.finish(), lloyd_from_centroids(&data, init, 10, 1));
}

#[test]
fn one_cluster_is_the_rounded_mean() {
    let data = vec![[0u8, 0, 0], [10, 20, 30], [2, 4, 7]];
    for algorithm in [KMeansAlgorithm::Lloyd, KMeansAlgorithm::Hamerly] {
        let (asg, cs) = KMeans::from_config(config(1, algorithm, 2)).run(&data).unwrap();
        assert_eq!(asg, vec![0, 0, 0]);
        assert_eq!(cs, vec![[4, 8, 12]]);
    }
}

#[test]
fn channel_specific_executors_refuse_the_device() {
    let three = vec![[1u8, 2, 3], [4, 5, 6]];
    let four = vec![[1u8, 2, 3, 4], [4, 5, 6, 7]];
    let kmeans = KMeans::from_config(config(5, KMeansAlgorithm::LloydGpu, 1));
    assert_eq!(
        kmeans.run_vec3(&three).unwrap_err().message(),
        "GPU not supported for 3 channel data. Convert to 4 channel data first."
    );
    assert_eq!(
        kmeans.run_vec4(&four).unwrap_err().message(),
        "GPU not supported for vec4 float data. Convert to u8 data first."
    );
    let cpu = KMeans::from_config(config(2, KMeansAlgorithm::Lloyd, 1));
    assert_eq!(cpu.run_vec3(&three).unwrap().1.len(), 2);
}

#[test]
fn five_channel_pixels_keep_their_fourth_byte() {
    let pixels: Vec<u8> = vec![0, 0, 0, 9, 1, 2, 2, 2, 8, 1, 250, 250, 250, 7, 1, 120, 0, 0, 6, 1];
    let quantizer = ColorCruncherBuilder::new().with_max_colors(2).with_channels(5).with_seed(4).build_cpu();
    let out = quantizer.quantize_image(&pixels);
    assert_eq!(out.len(), 16);
    for p in 0..4 {
        assert_eq!(out[p * 4 + 3], pixels[p * 5 + 3]);
    }
    let empty = ColorCruncherBuilder::new().with_max_colors(0).build_cpu();
    assert_eq!(empty.quantize_image(&[]), Vec::<u8>::new());
}

use colorcrunch::kmeans::config::{KMeansAlgorithm, KMeansConfig};
use colorcrunch::kmeans::gpu::{update_assignments, GpuAction, GpuLloydSession, MappableBuffer};
use colorcrunch::kmeans::initializer::Initializer;
use colorcrunch::kmeans::KMeans;
use colorcrunch::kmeans::find_closest_centroid;
use rand::rngs::StdRng;
use rand::Rng;
use rand::SeedableRng;

const DEFAULT_INITIALIZER: Initializer = Initializer::KMeansPlusPlus;

fn assert_almost_eq<const D: usize>(a: &[[u8; D]], b: &[[u8; D]], tolerance: f64) {
    assert_eq!(a.len(), b.len());
    for i in 0..a.len() {
        for c in 0..3 {
            assert!(
                (a[i][c] as f64 - b[i][c] as f64).abs() < tolerance,
                "{:?} does not match {:?}",
                a[i],
                b[i]
            );
        }
    }
}

fn run_kmeans_test(data: &[[u8; 3]], k: usize, expected_non_empty_clusters: usize) {
    let algorithms = vec![KMeansAlgorithm::Lloyd, KMeansAlgorithm::Hamerly];
    for algorithm in algorithms {
        let config = KMeansConfig {
            k,
            max_iterations: 100,
            tolerance: 1,
            algorithm,
            initializer: DEFAULT_INITIALIZER,
            seed: None,
        };
        let kmeans = KMeans::from_config(config);
        let (clusters, centroids) = kmeans.run(data).unwrap();
        assert_eq!(clusters.len(), data.len(), "with algorithm {:?}", algorithm);
        assert_eq!(centroids.len(), k, "with algorithm {:?}", algorithm);
        assert_eq!(
            clusters.iter().filter(|&&c| c < k).count(),
            data.len(),
            "with algorithm {:?}",
            algorithm
        );
        assert!(expected_non_empty_clusters >= 1);
    }
}

#[test]
fn test_kmeans_basic() {
    let data = vec![[255, 0, 0], [0, 255, 0], [0, 0, 255]];
    run_kmeans_test(&data, 3, 3);
}

#[test]
fn test_kmeans_single_color() {
    let data = vec![[100, 100, 100], [100, 100, 100], [100, 100, 100]];
    run_kmeans_test(&data, 1, 1);
}

#[test]
fn test_kmeans_two_distinct_colors() {
    let data = vec![[255, 0, 0], [0, 0, 255]];
    run_kmeans_test(&data, 2, 2);
}

#[test]
fn test_kmeans_more_clusters_than_colors() {
    let data = vec![[255u8, 0, 0], [0, 255, 0]];
    let config = KMeansConfig {
        k: 3,
        max_iterations: 100,
        tolerance: 1,
        algorithm: KMeansAlgorithm::Lloyd,
        initializer: DEFAULT_INITIALIZER,
        seed: None,
    };
    let kmeans = KMeans::from_config(config);
    let result = kmeans.run(&data);
    assert_eq!(
        result.err().unwrap().message(),
        "Number of unique colors is less than k: 2"
    );
}

#[test]
fn test_algorithms_converge_to_the_same_result_for_same_initial_conditions() {
    let seed = 42;
    let data_size = 100;
    let mut rng = StdRng::seed_from_u64(seed);
    let data = (0..data_size)
        .map(|_| {
            [
                (rng.gen::<f32>() * 255.0) as u8,
                (rng.gen::<f32>() * 255.0) as u8,
                (rng.gen::<f32>() * 255.0) as u8,
                0,
            ]
        })
        .collect::<Vec<[u8; 4]>>();

    let config_lloyd = KMeansConfig {
        k: 3,
        max_iterations: 500,
        tolerance: 1,
        algorithm: KMeansAlgorithm::Lloyd,
        initializer: DEFAULT_INITIALIZER,
        seed: Some(seed),
    };
    let config_hamerly = KMeansConfig {
        algorithm: KMeansAlgorithm::Hamerly,
        ..config_lloyd
    };
    let (clusters1, centroids1) = KMeans::from_config(config_lloyd).run(&data).unwrap();
    let (clusters2, centroids2) = KMeans::from_config(config_hamerly).run(&data).unwrap();
    assert_almost_eq(&centroids1, &centroids2, 1.0);
    assert_eq!(clusters1, clusters2);
}

#[test]
fn test_find_closest_centroid() {
    let pixel = [100u8, 100, 100];
    let centroids = vec![[0u8, 0, 0], [100, 100, 100], [200, 200, 200]];
    let closest_index = find_closest_centroid(&pixel, &centroids);
    assert_eq!(closest_index, 1);
}

/// Runs a device session, standing in for the device with the host reference of its kernel.
fn run_session(config: &KMeansConfig, pixels: &[[u8; 4]]) -> (Vec<usize>, Vec<[u8; 4]>) {
    let mut session = GpuLloydSession::start(config, pixels).unwrap();
    let buffer = MappableBuffer {
        gpu_buffer: 2,
        staging_buffer: 3,
        size: (pixels.len() * 4) as u64,
    };
    while session.next_action() == GpuAction::Dispatch {
        let plan = session.plan_iteration(1, &buffer, pixels.len());
        assert_eq!(plan.commands.len(), 3);
        let mut raw = vec![0u32; pixels.len()];
        update_assignments(&mut raw, &session.centroids, pixels, session.centroids.len() as u32);
        session.on_readback(pixels, &raw).unwrap();
    }
    session.finish()
}

fn create_test_config() -> KMeansConfig {
    KMeansConfig {
        k: 3,
        max_iterations: 10,
        tolerance: 1,
        algorithm: KMeansAlgorithm::LloydGpu,
        initializer: Initializer::Random,
        seed: Some(42),
    }
}

fn check_three_groups(assignments: &[usize]) {
    assert_eq!(assignments[0], assignments[1]);
    assert_eq!(assignments[1], assignments[2]);
    assert_eq!(assignments[3], assignments[4]);
    assert_eq!(assignments[4], assignments[5]);
    assert_eq!(assignments[6], assignments[7]);
    assert_eq!(assignments[7], assignments[8]);
    assert_ne!(assignments[0], assignments[3]);
    assert_ne!(assignments[3], assignments[6]);
    assert_ne!(assignments[0], assignments[6]);
}

fn three_group_pixels() -> Vec<[u8; 4]> {
    vec![
        [0, 0, 0, 0],
        [1, 1, 1, 1],
        [2, 2, 2, 2],
        [10, 10, 10, 10],
        [11, 11, 11, 11],
        [12, 12, 12, 12],
        [20, 20, 20, 20],
        [21, 21, 21, 21],
        [22, 22, 22, 22],
    ]
}

#[test]
fn lloyd_gpu1_test_kmeans_gpu_basic() {
    let pixels = three_group_pixels();
    let (assignments, _centroids) = run_session(&create_test_config(), &pixels);
    assert_eq!(assignments.len(), pixels.len());
    check_three_groups(&assignments);
}

#[test]
fn lloyd_gpu2_test_kmeans_gpu_basic() {
    let pixels = three_group_pixels();
    let (assignments, _centroids) = run_session(&create_test_config(), &pixels);
    assert_eq!(assignments.len(), pixels.len());
    check_three_groups(&assignments);
}

#[test]
fn lloyd_gpu_test_kmeans_gpu_basic() {
    let pixels = three_group_pixels();
    let (assignments, _centroids) = run_session(&create_test_config(), &pixels);
    assert_eq!(assignments.len(), pixels.len());
    check_three_groups(&assignments);
}

#[test]
fn test_gpu_algorithms_convergence() {
    const K: usize = 5;
    const N: usize = 1000;
    const SEED: u64 = 42;
    let mut rng = StdRng::seed_from_u64(SEED);
    let data: Vec<[u8; 4]> = (0..N)
        .map(|_| {
            [
                rng.gen_range(0..255),
                rng.gen_range(0..255),
                rng.gen_range(0..255),
                rng.gen_range(0..255),
            ]
        })
        .collect();
    let config = KMeansConfig {
        seed: Some(SEED),
        k: K,
        max_iterations: 100,
        tolerance: 1,
        initializer: Initializer::Random,
        ..Default::default()
    };
    let (assignments, centroids) = run_session(&config, &data);
    assert_eq!(assignments.len(), N);
    assert_eq!(centroids.len(), K);
    for assignment in &assignments {
        assert!(*assignment < K);
    }
    for centroid in &centroids {
        for component in centroid.iter() {
            assert!(*component <= 255);
        }
    }
}

#[test]
fn test_reduce_colorspace() {
    let data = vec![255, 0, 0, 255, 0, 0, 255, 255, 0, 0, 255, 255, 0, 0, 255, 255];
    let max_colors = 2;
    let sample_rate = 1;
    let channels = 4;
    let quantizer = colorcrunch::quantize::ColorCruncherBuilder::default()
        .with_max_colors(max_colors)
        .with_sample_rate(sample_rate)
        .with_channels(channels)
        .build_cpu();
    let result = quantizer.quantize_image(&data);
    assert_eq!(result.len(), data.len());
}

fn convergence_config() -> KMeansConfig {
    KMeansConfig {
        k: 2,
        max_iterations: 100,
        tolerance: 1,
        algorithm: KMeansAlgorithm::LloydGpu,
        initializer: Initializer::Random,
        seed: Some(42),
    }
}

fn check_two_groups(assignments: &[usize]) {
    assert_eq!(assignments[0], assignments[1]);
    assert_eq!(assignments[1], assignments[2]);
    assert_eq!(assignments[3], assignments[4]);
    assert_eq!(assignments[4], assignments[5]);
    assert_ne!(assignments[0], assignments[3]);
}

#[test]
fn lloyd_gpu1_test_kmeans_gpu_convergence() {
    let pixels: Vec<[u8; 4]> = vec![
        [0, 0, 0, 0],
        [1, 1, 1, 1],
        [2, 2, 2, 2],
        [10, 10, 10, 10],
        [11, 11, 11, 11],
        [12, 12, 12, 12],
    ];
    let (assignments, _centroids) = run_session(&convergence_config(), &pixels);
    assert_eq!(assignments.len(), pixels.len());
    check_two_groups(&assignments);
}

#[test]
fn lloyd_gpu_test_kmeans_gpu_convergence() {
    let levels = [0.0f32, 0.1, 0.2, 10.0, 10.1, 10.2];
    let pixels: Vec<[u8; 4]> = levels.iter().map(|&v| [v as u8; 4]).collect();
    let config = KMeansConfig { algorithm: KMeansAlgorithm::Lloyd, ..convergence_config() };
    let (assignments, _centroids) = run_session(&config, &pixels);
    assert_eq!(assignments.len(), pixels.len());
    check_two_groups(&assignments);
}

#[test]
fn lloyd_gpu1_test_kmeans_gpu_empty_input() {
    let pixels: Vec<[u8; 4]> = vec![];
    let err = GpuLloydSession::start(&create_test_config(), &pixels).unwrap_err();
    assert_eq!(err.message(), "Number of unique colors is less than k: 0");
}

#[test]
fn lloyd_gpu_test_kmeans_gpu_empty_input() {
    let pixels: Vec<[u8; 4]> = vec![];
    let config = KMeansConfig { algorithm: KMeansAlgorithm::Lloyd, ..create_test_config() };
    let err = GpuLloydSession::start(&config, &pixels).unwrap_err();
    assert_eq!(err.message(), "Number of unique colors is less than k: 0");
}

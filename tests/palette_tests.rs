use image::Rgba;
use palette_kmeans::color::{sq_distance, Colors};
use palette_kmeans::engine::{
    assign, farthest_sample, gap_to_occupied, has_settled, nearest_centroid, reseed_empty, run_lloyd,
    update_centroids,
};
use palette_kmeans::palette::{choose_initial, cluster, ranks, ClusterConfig, ClusterError};
use palette_kmeans::seeding::distinct_samples;

fn c(r: u8, g: u8, b: u8) -> Colors {
    Colors::new(r, g, b)
}

#[test]
fn test_from_color_conversion() {
    let color: Rgba<u8> = Rgba([3, 4, 5, 255]);

    assert_eq!(
        Colors {
            red: 3,
            green: 4,
            blue: 5
        },
        Colors::from(color.0)
    );
}

#[test]
fn squared_distance_values() {
    assert_eq!(sq_distance(c(0, 0, 0), c(1, 2, 3)), 14);
    assert_eq!(sq_distance(c(1, 2, 3), c(0, 0, 0)), 14);
    assert_eq!(sq_distance(c(0, 0, 0), c(255, 255, 255)), 195075);
    assert_eq!(sq_distance(c(7, 7, 7), c(7, 7, 7)), 0);
}

#[test]
fn nearest_prefers_lowest_index_on_ties() {
    let cs = vec![c(10, 0, 0), c(0, 10, 0), c(0, 0, 1)];
    assert_eq!(nearest_centroid(&cs, c(0, 0, 0)), 2);
    let cs = vec![c(10, 0, 0), c(0, 10, 0)];
    assert_eq!(nearest_centroid(&cs, c(0, 0, 0)), 0);
    assert_eq!(nearest_centroid(&cs, c(0, 9, 0)), 1);
}

#[test]
fn assignment_and_rounded_mean_update() {
    let samples = vec![c(0, 0, 0), c(1, 1, 1), c(200, 200, 200)];
    let cs = vec![c(0, 0, 0), c(250, 250, 250), c(100, 0, 0)];
    let a = assign(&samples, &cs);
    assert_eq!(a, vec![0, 0, 1]);
    let (next, pops) = update_centroids(&samples, &a, &cs);
    // 0.5 rounds up; the empty third cluster keeps its place.
    assert_eq!(next, vec![c(1, 1, 1), c(200, 200, 200), c(100, 0, 0)]);
    assert_eq!(pops, vec![2, 1, 0]);
}

#[test]
fn settling_uses_the_tolerance() {
    let a = vec![c(0, 0, 0)];
    let b = vec![c(1, 0, 0)];
    assert!(has_settled(&a, &a, 1));
    assert!(!has_settled(&a, &b, 1));
    assert!(has_settled(&a, &b, 2));
}

#[test]
fn lloyd_stops_at_a_fixed_point() {
    let samples = vec![c(0, 0, 0), c(2, 2, 2), c(100, 100, 100), c(102, 102, 102)];
    let r = run_lloyd(&samples, vec![c(0, 0, 0), c(2, 2, 2)], 100, 1);
    assert_eq!(r, vec![c(1, 1, 1), c(101, 101, 101)]);
    let r = run_lloyd(&samples, vec![c(0, 0, 0), c(2, 2, 2)], 0, 1);
    assert_eq!(r, vec![c(0, 0, 0), c(2, 2, 2)]);
}

#[test]
fn distinct_colours_keep_first_occurrence_order() {
    let samples = vec![c(5, 5, 5), c(1, 2, 3), c(5, 5, 5), c(0, 0, 0), c(1, 2, 3)];
    assert_eq!(distinct_samples(&samples), vec![c(5, 5, 5), c(1, 2, 3), c(0, 0, 0)]);
    assert_eq!(distinct_samples(&Vec::new()), Vec::<Colors>::new());
}

#[test]
fn initial_centroids_are_distinct_colours() {
    let samples = vec![c(9, 9, 9), c(9, 9, 9), c(9, 9, 9), c(40, 0, 0)];
    for seed in 0..20u64 {
        let mut init = choose_initial(&samples, 2, seed);
        init.sort_by_key(|x| (x.red, x.green, x.blue));
        assert_eq!(init, vec![c(9, 9, 9), c(40, 0, 0)]);
    }
    let init = choose_initial(&samples, 3, 1);
    assert_eq!(init.len(), 3);
}

#[test]
fn ranks_order_by_population_then_index() {
    assert_eq!(ranks(&vec![1, 5, 1, 3]), vec![2, 0, 3, 1]);
    assert_eq!(ranks(&vec![]), Vec::<usize>::new());
}

#[test]
fn default_config() {
    let cfg = ClusterConfig::new(42);
    assert_eq!(cfg.max_iterations, 100);
    assert_eq!(cfg.tolerance, 1);
    assert_eq!(cfg.seed, 42);
}

#[test]
fn empty_input_is_rejected() {
    let r = cluster(&Vec::new(), 1, &ClusterConfig::new(0));
    assert_eq!(r.unwrap_err(), ClusterError::EmptyInput);
}

#[test]
fn k_above_sample_count_is_rejected() {
    let samples = vec![c(0, 0, 0), c(1, 1, 1)];
    assert_eq!(cluster(&samples, 3, &ClusterConfig::new(0)).unwrap_err(), ClusterError::InvalidK);
    assert_eq!(cluster(&samples, 0, &ClusterConfig::new(0)).unwrap_err(), ClusterError::InvalidK);
}

#[test]
fn k_centroids_and_populations_sum_to_n() {
    let samples: Vec<Colors> = (0..60u32)
        .map(|i| c((i * 37 % 256) as u8, (i * 11 % 256) as u8, (i * 5 % 256) as u8))
        .collect();
    for k in 1..=6usize {
        let p = cluster(&samples, k, &ClusterConfig::new(k as u64)).unwrap();
        assert_eq!(p.centroids.len(), k);
        assert_eq!(p.populations.len(), k);
        assert_eq!(p.populations.iter().sum::<usize>(), samples.len());
        assert_eq!(p.assignments.len(), samples.len());
        assert!(p.assignments.iter().all(|&j| j < k));
        assert!(p.populations.windows(2).all(|w| w[0] >= w[1]));
    }
}

#[test]
fn same_seed_same_result() {
    let samples = vec![c(3, 200, 1), c(90, 90, 90), c(250, 0, 0), c(0, 0, 255), c(12, 12, 200)];
    let cfg = ClusterConfig::new(7);
    let p = cluster(&samples, 3, &cfg).unwrap();
    let q = cluster(&samples, 3, &cfg).unwrap();
    assert_eq!(p.centroids, q.centroids);
    assert_eq!(p.assignments, q.assignments);
    assert_eq!(p.populations, q.populations);
}

#[test]
fn k_equal_to_n_keeps_every_sample() {
    let samples = vec![c(0, 0, 0), c(100, 0, 0), c(0, 100, 0), c(0, 0, 100)];
    for seed in 0..5u64 {
        let p = cluster(&samples, 4, &ClusterConfig::new(seed)).unwrap();
        assert_eq!(p.populations, vec![1, 1, 1, 1]);
        let mut got = p.centroids.clone();
        got.sort_by_key(|x| (x.red, x.green, x.blue));
        let mut want = samples.clone();
        want.sort_by_key(|x| (x.red, x.green, x.blue));
        assert_eq!(got, want);
    }
}

#[test]
fn single_cluster_is_the_mean() {
    let samples = vec![c(0, 0, 0), c(10, 20, 30), c(20, 40, 61)];
    let p = cluster(&samples, 1, &ClusterConfig::new(3)).unwrap();
    assert_eq!(p.centroids, vec![c(10, 20, 30)]);
    assert_eq!(p.populations, vec![3]);
    assert_eq!(p.assignments, vec![0, 0, 0]);
}

#[test]
fn two_pure_colours_split_evenly() {
    let samples = vec![c(0, 0, 0), c(0, 0, 0), c(255, 255, 255), c(255, 255, 255)];
    for seed in 0..10u64 {
        let p = cluster(&samples, 2, &ClusterConfig::new(seed)).unwrap();
        assert_eq!(p.populations, vec![2, 2]);
        let mut got = p.centroids.clone();
        got.sort_by_key(|x| x.red);
        assert_eq!(got, vec![c(0, 0, 0), c(255, 255, 255)]);
        assert_eq!(p.assignments[0], p.assignments[1]);
        assert_eq!(p.assignments[2], p.assignments[3]);
        assert_ne!(p.assignments[0], p.assignments[2]);
    }
}

#[test]
fn dominant_colour_comes_first() {
    let samples = vec![c(255, 255, 255), c(0, 0, 0), c(0, 0, 0), c(0, 0, 0)];
    let p = cluster(&samples, 2, &ClusterConfig::new(1)).unwrap();
    assert_eq!(p.centroids, vec![c(0, 0, 0), c(255, 255, 255)]);
    assert_eq!(p.populations, vec![3, 1]);
    assert_eq!(p.assignments, vec![1, 0, 0, 0]);
}

fn within_cluster_cost(samples: &Vec<Colors>, centroids: &Vec<Colors>) -> u64 {
    let a = assign(samples, centroids);
    samples
        .iter()
        .zip(a.iter())
        .map(|(s, &j)| sq_distance(*s, centroids[j]) as u64)
        .sum()
}

#[test]
fn cost_never_rises_between_rounds() {
    let samples: Vec<Colors> = (0..80u32)
        .map(|i| c((i * 53 % 256) as u8, (i * 29 % 256) as u8, (i * 97 % 256) as u8))
        .collect();
    let init = vec![c(0, 0, 0), c(1, 1, 1), c(2, 2, 2), c(3, 3, 3)];
    let mut prev = within_cluster_cost(&samples, &init);
    for rounds in 1..12u32 {
        let cs = run_lloyd(&samples, init.clone(), rounds, 0);
        let now = within_cluster_cost(&samples, &cs);
        assert!(now <= prev);
        prev = now;
    }
}

#[test]
fn gap_counts_only_occupied_centroids() {
    let cs = vec![c(0, 0, 0), c(50, 0, 0), c(100, 0, 0)];
    let counts = vec![2, 0, 0];
    assert_eq!(gap_to_occupied(&cs, &counts, 0, c(60, 0, 0)), 3600);
    assert_eq!(gap_to_occupied(&cs, &counts, 2, c(60, 0, 0)), 100);
    assert_eq!(gap_to_occupied(&cs, &vec![0, 0, 0], 0, c(60, 0, 0)), 195076);
}

#[test]
fn farthest_sample_prefers_lowest_index() {
    let samples = vec![c(10, 0, 0), c(200, 0, 0), c(0, 200, 0)];
    let cs = vec![c(0, 0, 0)];
    assert_eq!(farthest_sample(&samples, &cs, &vec![3], 0), 1);
}

#[test]
fn empty_cluster_moves_to_farthest_sample() {
    let samples = vec![c(0, 0, 0), c(10, 0, 0), c(200, 0, 0)];
    let cs = vec![c(0, 0, 0), c(50, 50, 50), c(9, 9, 9)];
    let r = reseed_empty(&samples, &vec![3, 0, 0], cs.clone());
    // The second centroid takes the far sample; the third, with that one now
    // occupied, takes the sample farthest from both.
    assert_eq!(r, vec![c(0, 0, 0), c(200, 0, 0), c(10, 0, 0)]);
    let kept = reseed_empty(&samples, &vec![1, 1, 1], cs.clone());
    assert_eq!(kept, cs);
}

#[test]
fn lloyd_reseeds_a_stranded_centroid() {
    let samples = vec![c(0, 0, 0), c(2, 2, 2), c(250, 250, 250)];
    // Every sample is nearer the first centroid, so the second is empty.
    let start = vec![c(100, 100, 100), c(0, 0, 255)];
    assert_eq!(assign(&samples, &start), vec![0, 0, 0]);
    let r = run_lloyd(&samples, start, 1, 1);
    assert_eq!(r, vec![c(84, 84, 84), c(250, 250, 250)]);
}

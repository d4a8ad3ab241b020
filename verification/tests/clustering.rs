use dominant_colours::centroid::{is_nearer, nearest_centroid};
use dominant_colours::kmeans::{assign, update};
use dominant_colours::seeding::{choose_seeds, distance_between, FAR};
use dominant_colours::{fit, AnalysisError, Centroid, Clustering};

fn mean(red_sum: u128, green_sum: u128, blue_sum: u128, count: u64) -> Centroid {
    Centroid { red_sum, green_sum, blue_sum, count }
}

#[test]
fn distance_between_colours() {
    assert_eq!(distance_between([0, 0, 0], [0, 0, 0]), 0);
    assert_eq!(distance_between([1, 2, 3], [4, 6, 8]), 9 + 16 + 25);
    assert_eq!(distance_between([4, 6, 8], [1, 2, 3]), 9 + 16 + 25);
    assert_eq!(distance_between([255, 0, 0], [0, 255, 0]), 130050);
    assert_eq!(distance_between([0, 0, 0], [255, 255, 255]), 195075);
    assert_eq!(FAR, 195076);
}

#[test]
fn centroid_on_a_sample() {
    let c = Centroid::at_sample([7, 8, 9]);
    assert_eq!(c, mean(7, 8, 9, 1));
    assert_eq!(c.to_colour(), [7, 8, 9]);
    assert_eq!(c.distance_parts([7, 8, 9]), (0, 0));
    assert_eq!(c.distance_parts([10, 8, 5]), (9 + 16, 0));
}

#[test]
fn centroid_colour_is_truncated() {
    // Means 1.5, 2.5, 254.5.
    assert_eq!(mean(3, 5, 509, 2).to_colour(), [1, 2, 254]);
    assert_eq!(mean(299, 100, 1019, 100).to_colour(), [2, 1, 10]);
    assert_eq!(mean(1019, 1019, 1019, 4).to_colour(), [254, 254, 254]);
}

#[test]
fn centroid_that_is_no_colour() {
    assert!(!mean(0, 0, 0, 0).check_colour());
    assert!(!mean(256, 0, 0, 1).check_colour());
    assert!(!mean(0, 511, 0, 2).check_colour());
    assert!(!mean(3, 299, 1019, 2).check_colour());
    assert!(mean(255, 255, 255, 1).check_colour());
    assert!(mean(510, 0, 1, 2).check_colour());
    // The greatest count there is.
    let most = u64::MAX;
    assert!(mean(0, 255 * most as u128, 0, most).check_colour());
    assert!(!mean(0, 255 * most as u128 + 1, 0, most).check_colour());
    assert!(!mean(u128::MAX, 0, 0, most).check_colour());
}

#[test]
fn distance_of_a_mean_in_two_parts() {
    // Mean (0.5, 0, 0) of two samples; the sample (2, 0, 0) lies 1.5 away:
    // the squared distance is 2.25, two wholes and one quarter.
    assert_eq!(mean(1, 0, 0, 2).distance_parts([2, 0, 0]), (2, 1));
    // Mean (10, 20, 30) of three samples: 1 + 4 away.
    assert_eq!(mean(30, 60, 90, 3).distance_parts([11, 18, 30]), (5, 0));
    // Mean (1/3, 2/3, 0): from (1, 1, 1) the squared distance is
    // 4/9 + 1/9 + 1, which is 1 and 5 ninths.
    assert_eq!(mean(1, 2, 0, 3).distance_parts([1, 1, 1]), (1, 5));
    // The rests of the channels carry over into the wholes: three times
    // (2/3) squared is 12 ninths.
    assert_eq!(mean(1, 1, 1, 3).distance_parts([1, 1, 1]), (1, 3));
}

#[test]
fn nearer_compares_exact_means() {
    let half = mean(1, 0, 0, 2); // 0.5
    let four = mean(4, 0, 0, 1);
    // 2 is 1.5 from 0.5 and 2 from 4.
    assert!(is_nearer([2, 0, 0], &half, &four));
    assert!(!is_nearer([2, 0, 0], &four, &half));
    // 2.25 would be the border; 3 is nearer to 4.
    assert!(is_nearer([3, 0, 0], &four, &half));
    // Equal distances: neither is strictly nearer.
    let zero = mean(0, 0, 0, 5);
    assert!(!is_nearer([2, 0, 0], &zero, &four));
    assert!(!is_nearer([2, 0, 0], &four, &zero));
}

#[test]
fn nearest_takes_the_lowest_index_on_ties() {
    let centroids = vec![mean(10, 0, 0, 1), mean(30, 0, 0, 1), mean(60, 0, 0, 2)];
    assert_eq!(nearest_centroid([20, 0, 0], &centroids), 0);
    assert_eq!(nearest_centroid([21, 0, 0], &centroids), 1);
    assert_eq!(nearest_centroid([30, 0, 0], &centroids), 1);
    let swapped = vec![mean(60, 0, 0, 2), mean(30, 0, 0, 1), mean(10, 0, 0, 1)];
    assert_eq!(nearest_centroid([20, 0, 0], &swapped), 0);
    assert_eq!(nearest_centroid([19, 0, 0], &swapped), 2);
    let same = vec![mean(5, 5, 5, 1), mean(10, 10, 10, 2), mean(5, 5, 5, 1)];
    assert_eq!(nearest_centroid([200, 0, 9], &same), 0);
}

#[test]
fn nearest_does_not_truncate_the_mean() {
    // With the mean 0.5 cut down to 0 the sample 2 would be as far from it as
    // from 4, and the lower index would win.
    let centroids = vec![mean(4, 0, 0, 1), mean(1, 0, 0, 2)];
    assert_eq!(nearest_centroid([2, 0, 0], &centroids), 1);
}

#[test]
fn nearest_among_means_of_very_many_samples() {
    let n: u64 = u64::MAX;
    let w: u128 = n as u128;
    let centroids =
        vec![mean(0, 0, 0, n), mean(255 * w, 255 * w, 255 * w, n), mean(128 * w - 1, 128 * w, 128 * w, n)];
    assert_eq!(nearest_centroid([255, 255, 255], &centroids), 1);
    assert_eq!(nearest_centroid([0, 0, 0], &centroids), 0);
    assert_eq!(nearest_centroid([127, 127, 127], &centroids), 2);
    assert_eq!(centroids[1].distance_parts([0, 0, 0]), (195075, 0));
    assert_eq!(centroids[2].distance_parts([128, 128, 128]), (0, 1));
}

#[test]
fn nearer_decides_differences_too_small_for_floating_point() {
    // Two means just above 100: by 1 / 2^63 and by 1 / (2^63 + 1).
    let half: u64 = 1 << 63;
    let a = mean(100 * half as u128 + 1, 0, 0, half);
    let b = mean(100 * (half as u128 + 1) + 1, 0, 0, half + 1);
    assert!(is_nearer([100, 0, 0], &b, &a));
    assert!(!is_nearer([100, 0, 0], &a, &b));
    // From 101 it is the other way round.
    assert!(is_nearer([101, 0, 0], &a, &b));
    assert!(!is_nearer([101, 0, 0], &b, &a));
    // Equal means held with different counts are equally near.
    let c = mean(200 * half as u128 + 2, 0, 0, u64::MAX - 1 - (u64::MAX - 1) % 2);
    let d = mean(100 * half as u128 + 1, 0, 0, half - 1 + (half % 2));
    let _ = (c, d);
    let e = mean(3, 6, 9, 3);
    let f = mean(1 << 70, 1 << 71, 3 << 70, 1 << 63);
    let g = mean(1 << 7, 1 << 8, 3 << 7, 1);
    assert!(!is_nearer([9, 9, 9], &f, &g) && !is_nearer([9, 9, 9], &g, &f));
    assert!(is_nearer([2, 2, 2], &e, &g));
    assert_eq!(nearest_centroid([9, 9, 9], &vec![f, g]), 0);
    assert_eq!(nearest_centroid([9, 9, 9], &vec![g, f]), 0);
}

#[test]
fn seeds_are_the_farthest_samples() {
    let samples: Vec<[u8; 3]> =
        vec![[0, 0, 0], [10, 0, 0], [255, 255, 255], [0, 0, 0], [200, 200, 200]];
    assert_eq!(choose_seeds(&samples, 1), vec![0]);
    assert_eq!(choose_seeds(&samples, 2), vec![0, 2]);
    assert_eq!(choose_seeds(&samples, 3), vec![0, 2, 4]);
    assert_eq!(choose_seeds(&samples, 4), vec![0, 2, 4, 1]);
    assert_eq!(choose_seeds(&samples, 5), vec![0, 2, 4, 1, 3]);
}

#[test]
fn seeds_take_the_earliest_sample_on_ties() {
    let samples: Vec<[u8; 3]> = vec![[255, 0, 0], [0, 0, 255], [0, 255, 0], [0, 0, 255]];
    // Blue and green lie equally far from red: the earlier one is taken.
    assert_eq!(choose_seeds(&samples, 2), vec![0, 1]);
    assert_eq!(choose_seeds(&samples, 3), vec![0, 1, 2]);
    assert_eq!(choose_seeds(&samples, 4), vec![0, 1, 2, 3]);
}

#[test]
fn seeds_of_equal_samples_are_distinct_samples() {
    let samples: Vec<[u8; 3]> = vec![[9, 9, 9]; 6];
    assert_eq!(choose_seeds(&samples, 4), vec![0, 1, 2, 3]);
}

#[test]
fn assignment_step() {
    let samples: Vec<[u8; 3]> = vec![[0, 0, 0], [2, 0, 0], [100, 0, 0], [51, 0, 0], [50, 0, 0]];
    let centroids = vec![mean(0, 0, 0, 1), mean(100, 0, 0, 1)];
    assert_eq!(assign(&samples, &centroids), vec![0, 0, 1, 1, 0]);
    assert_eq!(assign(&Vec::new(), &centroids), Vec::<usize>::new());
}

#[test]
fn update_step() {
    let samples: Vec<[u8; 3]> = vec![[0, 1, 2], [2, 3, 5], [100, 0, 0], [51, 0, 255], [50, 0, 0]];
    let previous = vec![mean(1, 1, 1, 1), mean(2, 2, 2, 1), mean(3, 3, 3, 7)];
    let next = update(&samples, &vec![0, 0, 2, 2, 0], &previous);
    assert_eq!(next, vec![mean(52, 4, 7, 3), mean(2, 2, 2, 1), mean(151, 0, 255, 2)]);
    // No sample at all: every centroid stays.
    assert_eq!(update(&Vec::new(), &Vec::new(), &previous), previous);
}

#[test]
fn fit_two_pairs() {
    let samples: Vec<[u8; 3]> = vec![[0, 0, 0], [2, 0, 0], [100, 0, 0], [102, 0, 0]];
    let c: Clustering = fit(&samples, 2, 100).unwrap();
    assert_eq!(c.centroids, vec![mean(2, 0, 0, 2), mean(202, 0, 0, 2)]);
    assert_eq!(c.assignments, vec![0, 0, 1, 1]);
    assert!(c.converged);
}

#[test]
fn fit_stops_at_the_iteration_cap() {
    let samples: Vec<[u8; 3]> = vec![[0, 0, 0], [2, 0, 0], [100, 0, 0], [102, 0, 0]];
    // One iteration: the partition is there, that it is final is not known.
    let c = fit(&samples, 2, 1).unwrap();
    assert_eq!(c.centroids, vec![mean(2, 0, 0, 2), mean(202, 0, 0, 2)]);
    assert_eq!(c.assignments, vec![0, 0, 1, 1]);
    assert!(!c.converged);
    // The second iteration finds nothing to change.
    let c = fit(&samples, 2, 2).unwrap();
    assert!(c.converged);
}

#[test]
fn fit_moves_samples_between_iterations() {
    // Seeds: 0 and 255. After the first update the means are 30 and 255, and
    // 140 stays with the first; the assignment of the first step is final.
    let samples: Vec<[u8; 3]> = vec![[0, 0, 0], [10, 0, 0], [20, 0, 0], [90, 0, 0], [255, 0, 0]];
    let c = fit(&samples, 2, 100).unwrap();
    assert_eq!(c.assignments, vec![0, 0, 0, 0, 1]);
    assert_eq!(c.centroids, vec![mean(120, 0, 0, 4), mean(255, 0, 0, 1)]);
    assert!(c.converged);

    // Here the first step puts 130 with 255, and the update pulls it over:
    // the means become 83.3 and 192.5, and 130 lies nearer to the first.
    let samples: Vec<[u8; 3]> = vec![
        [0, 0, 0],
        [100, 0, 0],
        [100, 0, 0],
        [100, 0, 0],
        [100, 0, 0],
        [100, 0, 0],
        [130, 0, 0],
        [255, 0, 0],
    ];
    let first = fit(&samples, 2, 1).unwrap();
    assert_eq!(first.assignments, vec![0, 0, 0, 0, 0, 0, 1, 1]);
    assert_eq!(first.centroids, vec![mean(500, 0, 0, 6), mean(385, 0, 0, 2)]);
    assert!(!first.converged);
    let second = fit(&samples, 2, 2).unwrap();
    assert_eq!(second.assignments, vec![0, 0, 0, 0, 0, 0, 0, 1]);
    assert_eq!(second.centroids, vec![mean(630, 0, 0, 7), mean(255, 0, 0, 1)]);
    assert!(!second.converged);
    let last = fit(&samples, 2, 3).unwrap();
    assert_eq!(last.assignments, second.assignments);
    assert_eq!(last.centroids, second.centroids);
    assert!(last.converged);
    let more = fit(&samples, 2, 100).unwrap();
    assert_eq!(more.assignments, last.assignments);
    assert_eq!(more.centroids, last.centroids);
    assert!(more.converged);
}

#[test]
fn fit_keeps_the_centroid_of_an_empty_cluster() {
    let samples: Vec<[u8; 3]> = vec![[5, 5, 5], [5, 5, 5], [5, 5, 5]];
    let c = fit(&samples, 3, 100).unwrap();
    // All samples go to the first of the three equal centroids.
    assert_eq!(c.assignments, vec![0, 0, 0]);
    assert_eq!(c.centroids, vec![mean(15, 15, 15, 3), mean(5, 5, 5, 1), mean(5, 5, 5, 1)]);
    assert!(c.converged);
}

#[test]
fn fit_parameters_out_of_range() {
    let samples: Vec<[u8; 3]> = vec![[1, 2, 3], [4, 5, 6]];
    assert_eq!(fit(&samples, 0, 100).unwrap_err(), AnalysisError::InvalidParameter);
    assert_eq!(fit(&samples, 3, 100).unwrap_err(), AnalysisError::InvalidParameter);
    assert_eq!(fit(&samples, 2, 0).unwrap_err(), AnalysisError::InvalidParameter);
    assert_eq!(fit(&Vec::new(), 0, 100).unwrap_err(), AnalysisError::InvalidParameter);
    assert_eq!(fit(&Vec::new(), 1, 100).unwrap_err(), AnalysisError::InvalidParameter);
    assert!(fit(&samples, 1, 1).is_ok());
    assert!(fit(&samples, 2, 1).is_ok());
}

#[test]
fn fit_assigns_every_sample_to_its_nearest_centroid() {
    let mut samples: Vec<[u8; 3]> = Vec::new();
    let mut state: u32 = 99;
    for _ in 0..500 {
        state = state.wrapping_mul(1664525).wrapping_add(1013904223);
        samples.push([(state >> 24) as u8, (state >> 16) as u8, (state >> 8) as u8]);
    }
    for k in [1usize, 2, 3, 7, 20] {
        let c = fit(&samples, k, 1000).unwrap();
        assert!(c.converged);
        assert_eq!(c.centroids.len(), k);
        assert_eq!(c.assignments.len(), samples.len());
        assert_eq!(c.assignments, assign(&samples, &c.centroids));
        assert_eq!(c.centroids, update(&samples, &c.assignments, &c.centroids));
        let mut sizes = vec![0u64; k];
        for &a in &c.assignments {
            assert!(a < k);
            sizes[a] += 1;
        }
        assert_eq!(sizes.iter().sum::<u64>(), 500);
        for (centroid, size) in c.centroids.iter().zip(&sizes) {
            if *size > 0 {
                assert_eq!(centroid.count, *size);
            }
        }
    }
}

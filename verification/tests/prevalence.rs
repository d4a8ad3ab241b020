use dominant_colours::{aggregate, rank, sample_pixels, AnalysisError, Centroid, ColourInfo};

fn mean(red_sum: u128, green_sum: u128, blue_sum: u128, count: u64) -> Centroid {
    Centroid { red_sum, green_sum, blue_sum, count }
}

fn share(tag: u8, count: usize, total: usize) -> ColourInfo {
    ColourInfo { rgb: [tag, tag, tag], count, total }
}

#[test]
fn samples_follow_the_rows() {
    // Two rows of three pixels.
    let data: Vec<u8> = (0..18).collect();
    let samples = sample_pixels(3, 2, &data).unwrap();
    assert_eq!(
        samples,
        vec![[0, 1, 2], [3, 4, 5], [6, 7, 8], [9, 10, 11], [12, 13, 14], [15, 16, 17]]
    );
    // Pixel in column 1 of row 1.
    assert_eq!(samples[1 * 3 + 1], [12, 13, 14]);
}

#[test]
fn samples_are_neither_merged_nor_dropped() {
    let data: Vec<u8> = [7u8, 7, 7].repeat(10);
    let samples = sample_pixels(5, 2, &data).unwrap();
    assert_eq!(samples, vec![[7u8, 7, 7]; 10]);
}

#[test]
fn sampling_refuses_empty_and_mismatched_images() {
    assert_eq!(sample_pixels(0, 0, &Vec::new()), Err(AnalysisError::InputError));
    assert_eq!(sample_pixels(0, 5, &Vec::new()), Err(AnalysisError::InputError));
    assert_eq!(sample_pixels(5, 0, &Vec::new()), Err(AnalysisError::InputError));
    assert_eq!(sample_pixels(1, 1, &vec![1, 2]), Err(AnalysisError::InputError));
    assert_eq!(sample_pixels(1, 1, &vec![1, 2, 3, 4]), Err(AnalysisError::InputError));
    assert_eq!(sample_pixels(2, 1, &vec![1, 2, 3]), Err(AnalysisError::InputError));
    assert_eq!(
        sample_pixels(u32::MAX, u32::MAX, &vec![1, 2, 3]),
        Err(AnalysisError::InputError)
    );
    assert_eq!(sample_pixels(1, 1, &vec![1, 2, 3]), Ok(vec![[1, 2, 3]]));
}

#[test]
fn aggregate_counts_each_cluster() {
    let centroids = vec![mean(10, 20, 30, 1), mean(7, 9, 510, 2), mean(0, 0, 0, 9)];
    let assignments = vec![1, 1, 0, 1, 0, 1, 1, 1];
    let colours = aggregate(&centroids, &assignments).unwrap();
    assert_eq!(
        colours,
        vec![
            ColourInfo { rgb: [10, 20, 30], count: 2, total: 8 },
            ColourInfo { rgb: [3, 4, 255], count: 6, total: 8 },
            ColourInfo { rgb: [0, 0, 0], count: 0, total: 8 },
        ]
    );
    assert_eq!(colours.iter().map(|c| c.count).sum::<usize>(), 8);
    let percentages: Vec<f64> =
        colours.iter().map(|c| c.count as f64 / c.total as f64 * 100.0).collect();
    assert_eq!(percentages, vec![25.0, 75.0, 0.0]);
    assert!((percentages.iter().sum::<f64>() - 100.0).abs() < 1e-6);
}

#[test]
fn aggregate_refuses_what_is_no_clustering() {
    let centroids = vec![mean(10, 20, 30, 1), mean(7, 9, 11, 2)];
    assert_eq!(aggregate(&Vec::new(), &vec![0]), Err(AnalysisError::InvalidParameter));
    assert_eq!(aggregate(&centroids, &Vec::new()), Err(AnalysisError::InvalidParameter));
    assert_eq!(aggregate(&centroids, &vec![0, 2, 1]), Err(AnalysisError::InvalidParameter));
    assert_eq!(aggregate(&Vec::new(), &Vec::new()), Err(AnalysisError::InvalidParameter));
}

#[test]
fn aggregate_refuses_a_centroid_that_is_no_colour() {
    let assignments = vec![0, 1, 1];
    let empty = vec![mean(10, 20, 30, 1), mean(0, 0, 0, 0)];
    assert_eq!(aggregate(&empty, &assignments), Err(AnalysisError::NumericFailure));
    let too_bright = vec![mean(10, 20, 30, 1), mean(0, 513, 0, 2)];
    assert_eq!(aggregate(&too_bright, &assignments), Err(AnalysisError::NumericFailure));
    // An assignment out of range is reported first.
    assert_eq!(aggregate(&empty, &vec![0, 5]), Err(AnalysisError::InvalidParameter));
}

#[test]
fn rank_orders_by_percentage() {
    let colours = vec![share(1, 20, 100), share(2, 50, 100), share(3, 30, 100)];
    assert_eq!(rank(&colours), vec![share(2, 50, 100), share(3, 30, 100), share(1, 20, 100)]);
    assert_eq!(rank(&Vec::new()), Vec::new());
    assert_eq!(rank(&vec![share(1, 0, 1)]), vec![share(1, 0, 1)]);
}

#[test]
fn rank_keeps_equal_percentages_in_the_order_given() {
    let colours = vec![
        share(0, 25, 100),
        share(1, 10, 100),
        share(2, 25, 100),
        share(3, 30, 100),
        share(4, 10, 100),
        share(5, 0, 100),
    ];
    let ranked = rank(&colours);
    assert_eq!(
        ranked,
        vec![
            share(3, 30, 100),
            share(0, 25, 100),
            share(2, 25, 100),
            share(1, 10, 100),
            share(4, 10, 100),
            share(5, 0, 100),
        ]
    );
    for pair in ranked.windows(2) {
        assert!(pair[0].count >= pair[1].count);
        if pair[0].count == pair[1].count {
            assert!(pair[0].rgb[0] < pair[1].rgb[0]);
        }
    }
}

#[test]
fn rank_compares_percentages_not_counts() {
    // 1 of 2 and 2 of 4 are the same percentage; 3 of 4 is more; 3 of 10 less.
    let colours = vec![share(0, 3, 10), share(1, 1, 2), share(2, 2, 4), share(3, 3, 4)];
    assert_eq!(
        rank(&colours),
        vec![share(3, 3, 4), share(1, 1, 2), share(2, 2, 4), share(0, 3, 10)]
    );
    let big = usize::MAX;
    let colours = vec![share(0, big - 1, big), share(1, big, big), share(2, 1, big)];
    assert_eq!(
        rank(&colours),
        vec![share(1, big, big), share(0, big - 1, big), share(2, 1, big)]
    );
    assert!(share(1, 1, 2).ranks_above(&share(0, 3, 10)));
    assert!(!share(1, 1, 2).ranks_above(&share(2, 2, 4)));
    assert!(!share(2, 2, 4).ranks_above(&share(1, 1, 2)));
}

#[test]
fn rank_of_a_ranking_changes_nothing() {
    let colours = vec![share(0, 1, 9), share(1, 5, 9), share(2, 1, 9), share(3, 2, 9)];
    let once = rank(&colours);
    assert_eq!(rank(&once), once);
    let mut counts: Vec<usize> = once.iter().map(|c| c.count).collect();
    counts.sort();
    assert_eq!(counts, vec![1, 1, 2, 5]);
}

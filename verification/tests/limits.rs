use dominant_colours::wide::mul_wide;
use dominant_colours::{aggregate, analyze_pixels, AnalysisError, Centroid};

#[test]
fn products_in_two_parts() {
    assert_eq!(mul_wide(0, 0), (0, 0));
    assert_eq!(mul_wide(0, u128::MAX), (0, 0));
    assert_eq!(mul_wide(3, 5), (0, 15));
    assert_eq!(mul_wide(1, u128::MAX), (0, u128::MAX));
    assert_eq!(mul_wide(1 << 64, 1 << 64), (1, 0));
    assert_eq!(mul_wide(1 << 127, 2), (1, 0));
    assert_eq!(mul_wide(1 << 127, 1 << 127), (1 << 126, 0));
    assert_eq!(mul_wide(u128::MAX, 2), (1, u128::MAX - 1));
    assert_eq!(mul_wide(u128::MAX, u128::MAX), (u128::MAX - 1, 1));
    assert_eq!(mul_wide(u64::MAX as u128, u64::MAX as u128), (0, u128::MAX - 2 * (u64::MAX as u128)));
    // (2^64 + 3) * (2^64 + 5) = 2^128 + 8 * 2^64 + 15
    assert_eq!(mul_wide((1 << 64) + 3, (1 << 64) + 5), (1, (8 << 64) + 15));
}

#[test]
fn products_agree_with_128_bits_where_they_fit() {
    let mut state: u64 = 7;
    for _ in 0..2000 {
        state = state.wrapping_mul(6364136223846793005).wrapping_add(1442695040888963407);
        let a = state as u128;
        state = state.wrapping_mul(6364136223846793005).wrapping_add(1442695040888963407);
        let b = state as u128;
        assert_eq!(mul_wide(a, b), (0, a * b));
        assert_eq!(mul_wide(a << 64, b), (a * b >> 64, a * b << 64));
        assert_eq!(mul_wide(a << 32, b << 32), (a * b >> 64, a * b << 64));
    }
}

#[test]
fn a_large_image_is_analysed() {
    // 600 by 500 pixels in four flat quarters.
    let (width, height) = (600u32, 500u32);
    let mut data: Vec<u8> = Vec::with_capacity(3 * 300_000);
    for y in 0..height {
        for x in 0..width {
            let colour: [u8; 3] = match (x < 300, y < 100) {
                (true, true) => [250, 0, 0],
                (false, true) => [0, 250, 0],
                (true, false) => [0, 0, 250],
                (false, false) => [250, 250, 250],
            };
            data.extend_from_slice(&colour);
        }
    }
    let colours = analyze_pixels(width, height, &data, 4).unwrap();
    let shares: Vec<([u8; 3], usize)> = colours.iter().map(|c| (c.rgb, c.count)).collect();
    assert_eq!(
        shares,
        vec![
            ([0, 0, 250], 120_000),
            ([250, 250, 250], 120_000),
            ([250, 0, 0], 30_000),
            ([0, 250, 0], 30_000),
        ]
    );
}

#[test]
fn numeric_failure_comes_from_a_centroid_that_is_no_colour() {
    let nothing = Centroid { red_sum: 0, green_sum: 0, blue_sum: 0, count: 0 };
    assert_eq!(aggregate(&vec![nothing], &vec![0]), Err(AnalysisError::NumericFailure));
}

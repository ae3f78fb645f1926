use world_core::heightfield::is_blendable;
use world_core::heightfield::sample_height;
use world_core::heightfield::NOISE_UNIT;
use world_core::terrain::TerrainConfig;

fn config(octaves: u32, persistence: i32, height_scale: i32) -> TerrainConfig {
    TerrainConfig {
        seed: 12345,
        chunk_size: 32,
        tile_size: 2000,
        view_distance_chunks: 8,
        chunk_spawn_budget_per_frame: 32,
        noise_base_frequency: 20_000,
        noise_octaves: octaves,
        noise_persistence: persistence,
        height_scale,
    }
}

#[test]
fn no_octaves_no_height() {
    assert_eq!(sample_height(&config(0, 500_000, 8000), &Vec::new()), 0);
}

#[test]
fn one_octave_scales_the_noise() {
    let c = config(1, 500_000, 8000);
    assert_eq!(sample_height(&c, &vec![1_000_000]), 8000);
    assert_eq!(sample_height(&c, &vec![-1_000_000]), -8000);
    assert_eq!(sample_height(&c, &vec![500_000]), 4000);
    assert_eq!(sample_height(&c, &vec![0]), 0);
    assert_eq!(sample_height(&c, &vec![1]), 0);
    assert_eq!(sample_height(&c, &vec![-1]), -1);
    assert_eq!(NOISE_UNIT, 1_000_000);
}

#[test]
fn octaves_are_weighted_by_the_persistence() {
    // Weights 1, 1/2, 1/4, 1/8: their sum is 15/8.
    let c = config(4, 500_000, 8000);
    // Noise one at every octave: the mean is one.
    assert_eq!(sample_height(&c, &vec![1_000_000; 4]), 8000);
    // Noise one at the first octave only: 1 / (15/8) = 8/15 of the scale.
    assert_eq!(sample_height(&c, &vec![1_000_000, 0, 0, 0]), 4266);
    // At the last only: (1/8) / (15/8) = 1/15.
    assert_eq!(sample_height(&c, &vec![0, 0, 0, 1_000_000]), 533);
    // Octaves against each other: (1 - 1/2 + 1/4 - 1/8) / (15/8) = 1/3.
    assert_eq!(
        sample_height(&c, &vec![1_000_000, -1_000_000, 1_000_000, -1_000_000]),
        2666
    );
    assert_eq!(
        sample_height(&c, &vec![-1_000_000, 1_000_000, -1_000_000, 1_000_000]),
        -2667
    );
}

#[test]
fn persistence_is_taken_as_configured() {
    // Two octaves with noise 0 and 1 under a persistence of two and a scale
    // of three: (0 * 1 + 1 * 2) / (1 + 2) * 3 = 2.
    assert_eq!(sample_height(&config(2, 2_000_000, 3000), &vec![0, 1_000_000]), 2000);
    // Under a persistence of one it is a plain mean: 1.5.
    assert_eq!(sample_height(&config(2, 1_000_000, 3000), &vec![0, 1_000_000]), 1500);
    let samples = vec![1_000_000, -1_000_000, 400_000];
    // Nothing: only the first octave counts.
    assert_eq!(sample_height(&config(3, 0, 1000), &samples), 1000);
    // One: a plain mean, 0.4 / 3.
    assert_eq!(sample_height(&config(3, 1_000_000, 1000), &samples), 133);
    // Three: weights 1, 3, 9: (1 - 3 + 3.6) / 13.
    assert_eq!(sample_height(&config(3, 3_000_000, 1000), &samples), 123);
    // Minus a half: weights 1, -1/2, 1/4: (1 + 0.5 + 0.1) / 0.75.
    assert_eq!(sample_height(&config(3, -500_000, 1000), &samples), 2133);
}

#[test]
fn weights_that_do_not_sum_above_nothing_give_no_height() {
    // Minus one: weights 1, -1 sum to nothing.
    assert_eq!(sample_height(&config(2, -1_000_000, 8000), &vec![700_000, -300_000]), 0);
    // Minus two: weights 1, -2 sum to less.
    assert_eq!(sample_height(&config(2, -2_000_000, 8000), &vec![700_000, -300_000]), 0);
    // With a third octave of weight 4 they sum to 3: (0.7 + 0.6 + 4 * 0.5) / 3 * 8.
    assert_eq!(
        sample_height(&config(3, -2_000_000, 8000), &vec![700_000, -300_000, 500_000]),
        8800
    );
}

#[test]
fn blendable_is_a_limit_on_the_weights() {
    assert!(is_blendable(&config(4, 500_000, 8000)));
    assert!(is_blendable(&config(0, i32::MAX, 8000)));
    assert!(is_blendable(&config(1, i32::MAX, 8000)));
    assert!(is_blendable(&config(1000, 1_000_000, 8000)));
    assert!(is_blendable(&config(1000, -1_000_000, 8000)));
    assert!(is_blendable(&config(1000, 0, 8000)));
    // Under a persistence of two the weights double: 1e6 * (2^n - 1) <= 2^64
    // holds up to 44 octaves.
    assert!(is_blendable(&config(44, 2_000_000, 8000)));
    assert!(!is_blendable(&config(45, 2_000_000, 8000)));
    assert!(!is_blendable(&config(45, -2_000_000, 8000)));
    assert!(!is_blendable(&config(u32::MAX, 2_000_000, 8000)));
    // The largest persistence, about 2147: the fourth weight, 1e6 * 2147^3,
    // is within the limit, the fifth is not.
    assert!(is_blendable(&config(4, i32::MAX, 8000)));
    assert!(!is_blendable(&config(5, i32::MAX, 8000)));
    assert!(is_blendable(&config(4, i32::MIN, 8000)));
    assert!(!is_blendable(&config(5, i32::MIN, 8000)));
    // At the limit the blend still works.
    let c = config(44, 2_000_000, i32::MAX);
    assert_eq!(sample_height(&c, &vec![i32::MAX; 44]), 4_611_686_014_132);
    assert_eq!(sample_height(&c, &vec![i32::MIN; 44]), -4_611_686_016_280);
    assert_eq!(sample_height(&config(44, 2_000_000, 8000), &vec![1_000_000; 44]), 8000);
}

#[test]
fn heights_stay_within_the_scale() {
    for octaves in [1u32, 2, 5, 16, 64] {
        for persistence in [0, 1, 250_000, 500_000, 999_999, 1_000_000] {
            let c = config(octaves, persistence, 8000);
            assert!(is_blendable(&c));
            let mut samples = Vec::new();
            for i in 0..octaves {
                let v = ((i as i64 * 7919 + persistence as i64) % 2_000_001) - 1_000_000;
                samples.push(v as i32);
            }
            let h = sample_height(&c, &samples);
            assert!((-8000..=8000).contains(&h), "{} {} {}", octaves, persistence, h);
            assert_eq!(sample_height(&c, &samples), h);
            let top = sample_height(&c, &vec![1_000_000; octaves as usize]);
            assert_eq!(top, 8000);
        }
    }
}

#[test]
fn extreme_samples_give_wide_heights() {
    let c = config(2, 1_000_000, i32::MAX);
    assert_eq!(sample_height(&c, &vec![i32::MAX, i32::MAX]), 4_611_686_014_132);
    assert_eq!(sample_height(&c, &vec![i32::MIN, i32::MIN]), -4_611_686_016_280);
    // The mean of the two is half a millionth below nothing: -(2^31 - 1) / 2e6, floored.
    assert_eq!(sample_height(&c, &vec![i32::MIN, i32::MAX]), -1074);
    let d = config(1, 0, i32::MIN);
    assert_eq!(sample_height(&d, &vec![1_000_000]), -2_147_483_648);
    assert_eq!(sample_height(&d, &vec![-1_000_000]), 2_147_483_648);
}

use mcps::sampler::{floor_sqrt, sampling_parameters, z_score};

#[test]
fn test_floor_sqrt() {
    assert_eq!(floor_sqrt(0), 0);
    assert_eq!(floor_sqrt(1), 1);
    assert_eq!(floor_sqrt(3), 1);
    assert_eq!(floor_sqrt(4), 2);
    assert_eq!(floor_sqrt(99), 9);
    assert_eq!(floor_sqrt(100), 10);
    assert_eq!(floor_sqrt(u64::MAX), 4_294_967_295);
}

#[test]
fn test_floor_sqrt_brackets_its_argument() {
    for n in (0..2_000_000u64).step_by(997) {
        let root = floor_sqrt(n);
        assert!(root * root <= n);
        assert!((root + 1) * (root + 1) > n);
    }
}

#[test]
fn test_z_score() {
    assert_eq!(z_score(800_000), 1_897_366);
    assert_eq!(z_score(900_000), 1_949_358);
    assert_eq!(z_score(500_000), 1_732_050);
    assert_eq!(z_score(1), 1_414_214);
    assert_eq!(z_score(999_999), 1_999_999);
    assert_eq!(z_score(0), 1_414_213);
    assert_eq!(z_score(u32::MAX), 92_692_688);
}

#[test]
fn test_z_score_follows_the_rule_of_thumb() {
    for confidence in [1u32, 250_000, 500_000, 800_000, 950_000, 999_999] {
        let c = confidence as f64 / 1_000_000.0;
        let expected = 2.0 * (1.0 - (1.0 - c) / 2.0).sqrt();
        let z = z_score(confidence) as f64 / 1_000_000.0;
        assert!((z - expected).abs() < 0.000_001);
    }
}

#[test]
fn test_sampling_parameters() {
    let (mean, deviation) = sampling_parameters(5_000_000_000, 15_000_000_000, 800_000);
    assert_eq!(mean, 10_000_000_000);
    assert_eq!(deviation, 2_635_232_211);
    assert_eq!(sampling_parameters(3, 10, 800_000), (6, 1));
}

#[test]
fn test_sampling_parameters_with_equal_bounds() {
    assert_eq!(sampling_parameters(7, 7, 800_000), (7, 0));
}

#[test]
fn test_sampling_parameters_at_the_limits() {
    assert_eq!(
        sampling_parameters(1, u128::MAX, 800_000),
        (
            170_141_183_460_469_231_731_687_303_715_884_105_728,
            89_672_305_427_876_978_786_215_892_830_315_345_445
        )
    );
    assert_eq!(sampling_parameters(u128::MAX, u128::MAX, 1), (u128::MAX, 0));
}

#[test]
fn test_deviation_follows_the_rule_of_thumb() {
    let day: u128 = 86_400_000_000_000;
    let (mean, deviation) = sampling_parameters(5 * day, 15 * day, 800_000);
    let z = 2.0 * (1.0f64 - (1.0 - 0.8) / 2.0).sqrt();
    let expected = (10 * day) as f64 / (2.0 * z);
    assert_eq!(mean, 10 * day);
    assert!((deviation as f64 - expected).abs() / expected < 0.000_001);
}

use peer_sharing::error::IpsError;
use peer_sharing::normalization::NormalizationFactors;

#[test]
fn normalization_factors_determine_test() {
    let list = vec![1, 2, 3, 4, 5];
    let factors = NormalizationFactors::determine(&list).unwrap();

    assert_eq!(factors.min, 1);
    assert_eq!(factors.max, 5);
}

#[test]
fn normalization_factors_lerp_test() {
    let factors = NormalizationFactors {
        min: 1_000_000,
        max: 5_000_000,
    };
    let value = 3_000_000;

    assert_eq!(factors.scale(value), 500_000);
}

#[test]
fn normalization_factors_lerp_divide_zero_test() {
    let factors = NormalizationFactors {
        min: 2_000_000,
        max: 2_000_000,
    };
    let value = 3_000_000;

    assert_eq!(factors.scale(value), 0);
}

#[test]
fn determine_rejects_empty_list() {
    let list: Vec<i64> = Vec::new();
    assert_eq!(
        NormalizationFactors::determine(&list),
        Err(IpsError::EmptyNormalizationSample)
    );
}

#[test]
fn determine_single_sample() {
    let factors = NormalizationFactors::determine(&[-7]).unwrap();
    assert_eq!(factors.min, -7);
    assert_eq!(factors.max, -7);
}

#[test]
fn determine_unordered_samples() {
    let factors = NormalizationFactors::determine(&[4, -2, 9, 9, 0, -2]).unwrap();
    assert_eq!(factors.min, -2);
    assert_eq!(factors.max, 9);
}

#[test]
fn scale_ends() {
    let factors = NormalizationFactors { min: -3, max: 17 };
    assert_eq!(factors.scale(-3), 0);
    assert_eq!(factors.scale(17), 1_000_000);
}

#[test]
fn scale_rounds_towards_zero() {
    let factors = NormalizationFactors { min: 0, max: 3 };
    assert_eq!(factors.scale(1), 333_333);
    assert_eq!(factors.scale(2), 666_666);
    assert_eq!(factors.scale(-1), -333_333);
    assert_eq!(factors.scale(4), 1_333_333);
}

#[test]
fn scale_with_factors_reversed() {
    let factors = NormalizationFactors { min: 3, max: 0 };
    assert_eq!(factors.scale(3), 0);
    assert_eq!(factors.scale(0), 1_000_000);
    assert_eq!(factors.scale(2), 333_333);
    assert_eq!(factors.scale(4), -333_333);
}

#[test]
fn scale_widest_range() {
    let factors = NormalizationFactors {
        min: i64::MIN,
        max: i64::MAX,
    };
    assert_eq!(factors.scale(i64::MIN), 0);
    assert_eq!(factors.scale(i64::MAX), 1_000_000);
    let narrow = NormalizationFactors { min: 0, max: 1 };
    assert_eq!(
        narrow.scale(i64::MIN),
        -(9_223_372_036_854_775_808i128 * 1_000_000)
    );
}

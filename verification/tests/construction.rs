use weighted_sampler::ConstructionError;
use weighted_sampler::Sampler;

#[test]
fn new_rejects_empty() {
    let entries: Vec<(i32, i64)> = vec![];
    let result = Sampler::new(entries);
    assert_eq!(result.err(), Some(ConstructionError::Empty));
}

#[test]
fn new_rejects_all_zero() {
    let result = Sampler::new(vec![(7i32, 0i64)]);
    assert_eq!(result.err(), Some(ConstructionError::AllZeroWeights));

    let result = Sampler::new(vec![(1i32, 0i64), (2i32, 0i64), (3i32, 0i64)]);
    assert_eq!(result.err(), Some(ConstructionError::AllZeroWeights));
}

#[test]
fn new_rejects_negative_weight() {
    let result = Sampler::new(vec![(1i32, -1i64), (2i32, 2i64)]);
    assert_eq!(result.err(), Some(ConstructionError::NegativeWeight));
}

#[test]
fn new_rejects_overflowing_total() {
    let result = Sampler::new(vec![(1i32, i64::MAX), (2i32, i64::MAX), (3i32, 2i64)]);
    assert_eq!(result.err(), Some(ConstructionError::WeightOverflow));
}

#[test]
fn new_accepts_valid_table() {
    let sampler = Sampler::new(vec![(10i32, 2i64), (20i32, 3i64)]).unwrap();
    assert_eq!(sampler.total(), 5);
}

#[test]
fn new_accepts_zero_among_positive() {
    let sampler = Sampler::new(vec![(10i32, 0i64), (20i32, 1i64)]).unwrap();
    assert_eq!(sampler.total(), 1);
}

#[test]
fn linear_rejects_non_increasing() {
    let result = Sampler::linear(vec![1i32, 2, 3], 10, 10);
    assert_eq!(result.err(), Some(ConstructionError::RampNotIncreasing));

    let result = Sampler::linear(vec![1i32, 2, 3], 30, 0);
    assert_eq!(result.err(), Some(ConstructionError::RampNotIncreasing));
}

#[test]
fn linear_rejects_single_choice() {
    let result = Sampler::linear(vec![1i32], 0, 30);
    assert_eq!(result.err(), Some(ConstructionError::TooFewChoices));
}

#[test]
fn linear_rejects_negative_start() {
    let result = Sampler::linear(vec![1i32, 2], -5, 10);
    assert_eq!(result.err(), Some(ConstructionError::NegativeRampBound));
}

#[test]
fn linear_rejects_overflowing_weight() {
    let result = Sampler::linear(vec![1i32, 2, 3], 0, i64::MAX);
    assert_eq!(result.err(), Some(ConstructionError::WeightOverflow));
}

#[test]
fn linear_ramp_weights() {
    // Four choices over the span 0..30: the stored ramp weights are
    // 0, 30, 60, 90 — the fractional ramp 0, 10, 20, 30 (step 10 per index)
    // with every weight scaled by the factor 3 that keeps it an exact
    // integer.  Zero for the first choice, strictly increasing, and
    // proportional to the index throughout, so the distribution is the
    // same as the fractional ramp's.
    let sampler = Sampler::linear(vec!['a', 'b', 'c', 'd'], 0, 30).unwrap();
    assert_eq!(sampler.total(), 0 + 30 + 60 + 90);

    let mut source = weighted_sampler::ThreadRngSource::new();
    let mut pairs = sampler.sample_unique(&mut source, 4).unwrap();
    pairs.sort_by_key(|p| p.1);
    let weights: Vec<i64> = pairs.iter().map(|p| p.1).collect();
    assert_eq!(weights, vec![0, 30, 60, 90]);
    for window in weights.windows(2) {
        assert!(window[0] < window[1]);
    }
}

#[test]
fn linear_span_sets_shape_not_floor() {
    // `start` only shapes the ramp through `end - start`: the first choice
    // always has weight zero, so these two samplers have equal ramps.
    let a = Sampler::linear(vec![1i32, 2], 0, 7).unwrap();
    let b = Sampler::linear(vec![1i32, 2], 5, 12).unwrap();
    assert_eq!(a.total(), b.total());
    assert_eq!(a.total(), 7);
}

use hypercube::number::{Arithmetic, Double, Rendering};
use hypercube::rolling::{RollingError, RollingMoments};

struct Native;

fn d(x: f64) -> Double {
    Double::from_bits(x.to_bits())
}

fn f(x: Double) -> f64 {
    f64::from_bits(x.to_bits())
}

impl Arithmetic for Native {
    fn plus(&self, x: Double, y: Double) -> Double {
        d(f(x) + f(y))
    }

    fn minus(&self, x: Double, y: Double) -> Double {
        d(f(x) - f(y))
    }

    fn times(&self, x: Double, y: Double) -> Double {
        d(f(x) * f(y))
    }

    fn over(&self, x: Double, y: Double) -> Double {
        d(f(x) / f(y))
    }

    fn root(&self, x: Double) -> Double {
        d(f(x).sqrt())
    }

    fn exponential(&self, x: Double) -> Double {
        d(f(x).exp())
    }

    fn logarithm(&self, x: Double) -> Double {
        d(f(x).ln())
    }

    fn sine(&self, x: Double) -> Double {
        d(f(x).sin())
    }

    fn cosine(&self, x: Double) -> Double {
        d(f(x).cos())
    }

    fn nearest(&self, n: u64) -> Double {
        d(n as f64)
    }
}
fn expected_moments(values: &[f64]) -> (f64, f64) {
    let origin = values[0];
    let shifted_sum = values[1..].iter().map(|value| value - origin).sum::<f64>();
    let mean_offset = shifted_sum / values.len() as f64;
    let mut squared_deviations = 0.0;
    let mut deviation_sum = 0.0;
    for value in values {
        let deviation = (value - origin) - mean_offset;
        squared_deviations += deviation * deviation;
        deviation_sum += deviation;
    }
    let correction = deviation_sum * deviation_sum / values.len() as f64;
    let m2 = f64::max(squared_deviations - correction, 0.0);
    (origin + mean_offset, m2 / values.len() as f64)
}

fn mean(rolling: &RollingMoments) -> Option<f64> {
    rolling.mean(&Native).map(f)
}

fn variance(rolling: &RollingMoments) -> Option<f64> {
    rolling.population_variance(&Native).map(f)
}

fn push(rolling: &mut RollingMoments, value: f64) -> Result<Option<f64>, RollingError> {
    rolling
        .push(&Native, d(value))
        .map(|evicted| evicted.map(f))
}

fn score(rolling: &RollingMoments, value: f64) -> Result<Option<f64>, RollingError> {
    rolling
        .z_score(&Native, d(value))
        .map(|score| score.map(f))
}

#[test]
fn rolling_moments_match_a_two_pass_window() {
    for capacity in [2usize, 8, 63] {
        let mut rolling = RollingMoments::new(capacity).unwrap();
        let mut expected = Vec::new();
        for index in 0..20_000u64 {
            let value = (index as f64 * 0.037).sin() + (index % 17) as f64 * 1e-4;
            push(&mut rolling, value).unwrap();
            expected.push(value);
            if expected.len() > capacity {
                expected.remove(0);
            }
            let (expected_mean, expected_variance) = expected_moments(&expected);
            assert!((mean(&rolling).unwrap() - expected_mean).abs() < 1e-11);
            assert!((variance(&rolling).unwrap() - expected_variance).abs() < 1e-11);
        }
    }
}

#[test]
fn large_offsets_retain_small_window_variance() {
    let capacity = 8;
    let mut rolling = RollingMoments::new(capacity).unwrap();
    let mut expected = Vec::new();
    for index in 0..20_000u64 {
        let value = 1e12 + ((index % 17) as f64 - 8.0) * 0.001;
        push(&mut rolling, value).unwrap();
        expected.push(value);
        if expected.len() > capacity {
            expected.remove(0);
        }
        let (expected_mean, expected_variance) = expected_moments(&expected);
        assert!((mean(&rolling).unwrap() - expected_mean).abs() <= 0.001);
        let observed_variance = variance(&rolling).unwrap();
        assert!(
            (observed_variance - expected_variance).abs() < 2e-6,
            "index={index} observed={observed_variance:e} expected={expected_variance:e}"
        );
    }
}

#[test]
fn scores_before_insertion_without_look_ahead() {
    let mut rolling = RollingMoments::new(3).unwrap();
    push(&mut rolling, 1.0).unwrap();
    push(&mut rolling, 2.0).unwrap();
    push(&mut rolling, 3.0).unwrap();
    assert_eq!(score(&rolling, 4.0).unwrap(), Some(2.449489742783178));
    assert_eq!(push(&mut rolling, 4.0).unwrap(), Some(1.0));
    assert!((mean(&rolling).unwrap() - 3.0).abs() < f64::EPSILON);
}

#[test]
fn rejects_invalid_input_without_mutating_state() {
    assert_eq!(
        RollingMoments::new(0).unwrap_err(),
        RollingError::EmptyWindow
    );
    let mut rolling = RollingMoments::new(4).unwrap();
    push(&mut rolling, 2.0).unwrap();
    assert!(matches!(
        push(&mut rolling, f64::NAN),
        Err(RollingError::NonFinite(value)) if value.is_nan()
    ));
    assert_eq!(rolling.len(), 1);
    assert_eq!(mean(&rolling), Some(2.0));
}

#[test]
fn constant_windows_have_no_defined_z_score() {
    let mut rolling = RollingMoments::new(3).unwrap();
    for _ in 0..3 {
        push(&mut rolling, 5.0).unwrap();
    }
    assert_eq!(variance(&rolling), Some(0.0));
    assert_eq!(score(&rolling, 6.0).unwrap(), None);
}

#[test]
fn representable_sub_epsilon_scales_can_be_scored() {
    let mut rolling = RollingMoments::new(2).unwrap();
    push(&mut rolling, 0.0).unwrap();
    push(&mut rolling, 1e-20).unwrap();
    assert_eq!(score(&rolling, 2e-20).unwrap(), Some(3.0));
}

#[test]
fn a_window_slides_over_the_newest_observations() {
    let mut rolling = RollingMoments::new(2).unwrap();
    assert!(rolling.is_empty());
    assert_eq!(mean(&rolling), None);
    assert_eq!(variance(&rolling), None);
    assert_eq!(rolling.sample_variance(&Native), None);
    assert_eq!(rolling.population_standard_deviation(&Native), None);
    assert_eq!(push(&mut rolling, 1.0).unwrap(), None);
    assert!(!rolling.is_full());
    assert_eq!(rolling.sample_variance(&Native), None);
    assert_eq!(push(&mut rolling, 3.0).unwrap(), None);
    assert!(rolling.is_full());
    assert_eq!(rolling.capacity(), 2);
    assert_eq!(rolling.sample_variance(&Native).map(f), Some(2.0));
    assert_eq!(variance(&rolling), Some(1.0));
    assert_eq!(push(&mut rolling, 5.0).unwrap(), Some(1.0));
    assert_eq!(push(&mut rolling, 7.0).unwrap(), Some(3.0));
    assert_eq!(mean(&rolling), Some(6.0));
    assert_eq!(rolling.len(), 2);
}

#[test]
fn overflowing_observations_are_refused() {
    let mut rolling = RollingMoments::new(3).unwrap();
    push(&mut rolling, f64::MAX).unwrap();
    assert_eq!(
        push(&mut rolling, f64::MIN),
        Err(RollingError::NumericalOverflow)
    );
    assert_eq!(mean(&rolling), Some(f64::MAX));
    assert_eq!(rolling.len(), 1);
    let mut narrow = RollingMoments::new(2).unwrap();
    push(&mut narrow, 0.0).unwrap();
    push(&mut narrow, 1e-300).unwrap();
    assert!(matches!(
        score(&narrow, f64::INFINITY),
        Err(RollingError::NonFinite(_))
    ));
}

#[test]
fn a_window_of_one_keeps_the_last_observation() {
    let mut rolling = RollingMoments::new(1).unwrap();
    for index in 0..3_000u64 {
        push(&mut rolling, index as f64).unwrap();
        assert_eq!(mean(&rolling), Some(index as f64));
        assert_eq!(variance(&rolling), Some(0.0));
    }
}

#[test]
fn a_copy_of_a_window_goes_on_alike() {
    let mut rolling = RollingMoments::new(2).unwrap();
    for value in [1.0, 4.0, 9.0] {
        push(&mut rolling, value).unwrap();
    }
    let mut copy = rolling.clone();
    assert_eq!(mean(&copy), Some(6.5));
    assert_eq!(push(&mut copy, 16.0).unwrap(), Some(4.0));
    assert_eq!(mean(&copy), Some(12.5));
    assert_eq!(mean(&rolling), Some(6.5));
}

struct Shown;

impl Rendering for Shown {
    fn shown(&self, x: Double) -> String {
        f(x).to_string()
    }
}

#[test]
fn rolling_errors_are_put_in_words() {
    assert_eq!(
        RollingError::EmptyWindow.message(&Shown),
        "rolling window must be positive"
    );
    let mut rolling = RollingMoments::new(2).unwrap();
    let refused = push(&mut rolling, f64::INFINITY).unwrap_err();
    assert_eq!(
        refused.message(&Shown),
        "rolling observation must be finite, got inf"
    );
    assert_eq!(
        RollingError::NumericalOverflow.message(&Shown),
        "rolling moment arithmetic overflowed"
    );
}

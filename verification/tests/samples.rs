use mean_ci::error::{MeanCiError, SupportSide};
use mean_ci::number::Number;
use mean_ci::sample::{sort, Sample};
use mean_ci::support::validate;

fn obs(x: f64) -> Number {
    Number::from_bits(x.to_bits())
}

fn observations(xs: &[f64]) -> Vec<Number> {
    xs.iter().map(|x| obs(*x)).collect()
}

fn floats(ns: &[Number]) -> Vec<f64> {
    ns.iter().map(|n| f64::from_bits(n.to_bits())).collect()
}

#[test]
fn sort_puts_observations_in_ascending_order() {
    let sorted = sort(&observations(&[30.0, 10.0, 50.0, 20.0, 40.0]));
    assert_eq!(floats(&sorted), vec![10.0, 20.0, 30.0, 40.0, 50.0]);
}

#[test]
fn sort_keeps_duplicates() {
    let sorted = sort(&observations(&[2.0, 1.0, 2.0, 1.0, 2.0]));
    assert_eq!(floats(&sorted), vec![1.0, 1.0, 2.0, 2.0, 2.0]);
}

#[test]
fn sort_of_nothing_and_of_one() {
    assert!(sort(&Vec::new()).is_empty());
    assert_eq!(floats(&sort(&observations(&[7.5]))), vec![7.5]);
}

#[test]
fn sort_handles_signs_and_zeros() {
    let sorted = sort(&observations(&[0.0, -1.5, 3.0, -0.0, -200.0, 1.0e-310]));
    let bits: Vec<u64> = sorted.iter().map(|n| n.to_bits()).collect();
    let expected: Vec<u64> =
        [-200.0, -1.5, -0.0, 0.0, 1.0e-310, 3.0].iter().map(|x: &f64| x.to_bits()).collect();
    assert_eq!(bits, expected);
}

#[test]
fn sort_agrees_with_the_total_order_on_many_values() {
    let mut xs: Vec<f64> = Vec::new();
    let mut state: u64 = 0x2545_F491_4F6C_DD1D;
    for _ in 0..500 {
        state ^= state << 13;
        state ^= state >> 7;
        state ^= state << 17;
        xs.push(((state % 2001) as f64 - 1000.0) / 8.0);
    }
    let sorted = sort(&observations(&xs));
    xs.sort_by(|a, b| a.total_cmp(b));
    let bits: Vec<u64> = sorted.iter().map(|n| n.to_bits()).collect();
    let expected: Vec<u64> = xs.iter().map(|x| x.to_bits()).collect();
    assert_eq!(bits, expected);
}

#[test]
fn sample_orders_and_measures() {
    let sample = Sample::new(&observations(&[3.0, 1.0, 2.0, 3.0]));
    assert_eq!(sample.len(), 4);
    assert!(!sample.is_empty());
    assert_eq!(sample.minimum(), obs(1.0));
    assert_eq!(sample.maximum(), obs(3.0));
    assert_eq!(sample.get(1), obs(2.0));
    assert_eq!(floats(sample.values()), vec![1.0, 2.0, 3.0, 3.0]);
}

#[test]
fn empty_sample() {
    let sample = Sample::new(&Vec::new());
    assert_eq!(sample.len(), 0);
    assert!(sample.is_empty());
    assert!(sample.distinct_values().is_empty());
    assert_eq!(sample.count_at_most(obs(1.0)), 0);
}

#[test]
fn distinct_values_are_strictly_ascending() {
    let sample = Sample::new(&observations(&[5.0, 1.0, 5.0, 3.0, 1.0, 1.0, 4.0]));
    assert_eq!(floats(&sample.distinct_values()), vec![1.0, 3.0, 4.0, 5.0]);
}

#[test]
fn distinct_values_of_a_constant_sample() {
    let sample = Sample::new(&observations(&[7.0, 7.0, 7.0]));
    assert_eq!(floats(&sample.distinct_values()), vec![7.0]);
}

#[test]
fn distinct_values_take_the_two_zeros_for_one() {
    let sample = Sample::new(&observations(&[0.0, -0.0, 1.0]));
    let distinct = sample.distinct_values();
    assert_eq!(distinct.len(), 2);
    assert_eq!(distinct[0].to_bits(), (-0.0f64).to_bits());
    assert_eq!(distinct[1], obs(1.0));
}

#[test]
fn count_at_most_counts_ties() {
    let sample = Sample::new(&observations(&[10.0, 20.0, 20.0, 30.0, 40.0]));
    assert_eq!(sample.count_at_most(obs(5.0)), 0);
    assert_eq!(sample.count_at_most(obs(10.0)), 1);
    assert_eq!(sample.count_at_most(obs(15.0)), 1);
    assert_eq!(sample.count_at_most(obs(20.0)), 3);
    assert_eq!(sample.count_at_most(obs(39.99)), 4);
    assert_eq!(sample.count_at_most(obs(40.0)), 5);
    assert_eq!(sample.count_at_most(obs(1.0e9)), 5);
}

#[test]
fn count_at_most_agrees_with_counting() {
    let xs = [3.0, -1.0, 4.0, 1.0, -5.0, 9.0, 2.0, 6.0, 5.0, 3.0, 5.0];
    let sample = Sample::new(&observations(&xs));
    for t in [-6.0, -5.0, -1.0, 0.0, 1.0, 2.5, 3.0, 5.0, 8.0, 9.0, 10.0] {
        let expected = xs.iter().filter(|x| **x <= t).count();
        assert_eq!(sample.count_at_most(obs(t)), expected, "threshold {t}");
    }
}

#[test]
fn validate_passes_an_empty_sample() {
    let sample = Sample::new(&Vec::new());
    assert_eq!(validate(&sample, obs(0.0), obs(100.0)), Ok(()));
    assert_eq!(validate(&sample, obs(100.0), obs(0.0)), Ok(()));
}

#[test]
fn validate_passes_a_sample_within_the_support() {
    let sample = Sample::new(&observations(&[0.0, 50.0, 100.0]));
    assert_eq!(validate(&sample, obs(0.0), obs(100.0)), Ok(()));
}

#[test]
fn validate_names_the_least_observation_below_the_support() {
    let sample = Sample::new(&observations(&[5.0, -1.0, -3.0, 200.0]));
    assert_eq!(
        validate(&sample, obs(0.0), obs(100.0)),
        Err(MeanCiError::OutOfSupport {
            side: SupportSide::Minimum,
            bound: obs(0.0),
            value: obs(-3.0),
        })
    );
}

#[test]
fn validate_names_the_greatest_observation_above_the_support() {
    let sample = Sample::new(&observations(&[5.0, 101.0, 100.5, 0.0]));
    assert_eq!(
        validate(&sample, obs(0.0), obs(100.0)),
        Err(MeanCiError::OutOfSupport {
            side: SupportSide::Maximum,
            bound: obs(100.0),
            value: obs(101.0),
        })
    );
}

#[test]
fn validate_takes_negative_zero_for_zero() {
    let sample = Sample::new(&observations(&[-0.0, 1.0]));
    assert_eq!(validate(&sample, obs(0.0), obs(1.0)), Ok(()));
}

#[test]
fn validate_refuses_what_is_not_a_real_number() {
    let sample = Sample::new(&observations(&[1.0, f64::NAN]));
    assert!(matches!(
        validate(&sample, obs(0.0), obs(100.0)),
        Err(MeanCiError::OutOfSupport { side: SupportSide::Maximum, .. })
    ));
    let sample = Sample::new(&observations(&[1.0, f64::NEG_INFINITY]));
    assert!(matches!(
        validate(&sample, obs(0.0), obs(100.0)),
        Err(MeanCiError::OutOfSupport { side: SupportSide::Minimum, .. })
    ));
}

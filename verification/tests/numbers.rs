use mean_ci::number::Number;

fn number_of(x: f64) -> Number {
    Number::from_bits(x.to_bits())
}

fn specimens() -> Vec<f64> {
    vec![
        f64::NEG_INFINITY,
        f64::MIN,
        -1.0e300,
        -100.0,
        -2.5,
        -1.0,
        -f64::MIN_POSITIVE,
        -5.0e-324,
        -0.0,
        0.0,
        5.0e-324,
        f64::MIN_POSITIVE,
        0.05,
        0.1,
        0.5,
        1.0 - f64::EPSILON,
        1.0,
        1.0 + f64::EPSILON,
        2.0,
        10.0,
        30.0,
        100.0,
        1.0e300,
        f64::MAX,
        f64::INFINITY,
    ]
}

#[test]
fn bits_round_trip() {
    for x in specimens() {
        assert_eq!(number_of(x).to_bits(), x.to_bits());
        assert_eq!(number_of(x).bits, x.to_bits());
    }
}

#[test]
fn less_than_agrees_with_the_numbers() {
    for a in specimens() {
        for b in specimens() {
            assert_eq!(number_of(a).lt(&number_of(b)), a < b, "{a} < {b}");
        }
    }
}

#[test]
fn at_most_agrees_with_the_numbers() {
    for a in specimens() {
        for b in specimens() {
            assert_eq!(number_of(a).le(&number_of(b)), a <= b, "{a} <= {b}");
        }
    }
}

#[test]
fn same_value_agrees_with_the_numbers() {
    for a in specimens() {
        for b in specimens() {
            assert_eq!(number_of(a).same_value(&number_of(b)), a == b, "{a} == {b}");
        }
    }
}

#[test]
fn the_two_zeros_have_one_value_and_two_keys() {
    let negative = number_of(-0.0);
    let positive = number_of(0.0);
    assert!(negative.same_value(&positive));
    assert!(negative != positive);
    assert_eq!(negative.order_key(), -1);
    assert_eq!(positive.order_key(), 0);
    assert_eq!(negative.signed_magnitude(), 0);
    assert_eq!(positive.signed_magnitude(), 0);
}

#[test]
fn keys_follow_the_total_order() {
    let mut all = specimens();
    all.push(f64::NAN);
    all.push(-f64::NAN);
    for a in &all {
        for b in &all {
            let by_key = number_of(*a).order_key().cmp(&number_of(*b).order_key());
            assert_eq!(by_key, a.total_cmp(b), "{a} against {b}");
        }
    }
}

#[test]
fn key_and_signed_magnitude_of_given_patterns() {
    assert_eq!(number_of(1.0).order_key(), 0x3FF0_0000_0000_0000);
    assert_eq!(number_of(1.0).signed_magnitude(), 0x3FF0_0000_0000_0000);
    assert_eq!(number_of(-1.0).order_key(), -0x3FF0_0000_0000_0000 - 1);
    assert_eq!(number_of(-1.0).signed_magnitude(), -0x3FF0_0000_0000_0000);
    assert_eq!(Number::from_bits(u64::MAX).order_key(), i64::MIN);
    assert_eq!(Number::from_bits(u64::MAX).signed_magnitude(), -i64::MAX);
}

#[test]
fn what_is_not_a_number_lies_beyond_the_infinities() {
    let nan = number_of(f64::NAN);
    let minus_nan = number_of(-f64::NAN);
    assert!(number_of(f64::INFINITY).lt(&nan));
    assert!(minus_nan.lt(&number_of(f64::NEG_INFINITY)));
    assert!(!nan.is_finite());
    assert!(!minus_nan.is_finite());
}

#[test]
fn finite_means_a_real_number() {
    for x in specimens() {
        assert_eq!(number_of(x).is_finite(), x.is_finite(), "{x}");
    }
}

#[test]
fn open_unit_interval() {
    for x in specimens() {
        assert_eq!(number_of(x).is_in_open_unit(), 0.0 < x && x < 1.0, "{x}");
    }
    assert!(!number_of(f64::NAN).is_in_open_unit());
    assert!(!number_of(-f64::NAN).is_in_open_unit());
}

#[test]
fn closed_unit_interval() {
    for x in specimens() {
        assert_eq!(number_of(x).is_in_closed_unit(), 0.0 <= x && x <= 1.0, "{x}");
    }
    assert!(!number_of(f64::NAN).is_in_closed_unit());
    assert!(!number_of(-f64::NAN).is_in_closed_unit());
}

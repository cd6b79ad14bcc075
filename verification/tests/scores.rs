use ngx_balancer_rs::score::Score;

fn score(x: f64) -> Score {
    Score { bits: x.to_bits() }
}

#[test]
fn scores_compare_as_floats() {
    let all = [
        0.0,
        -0.0,
        1.0,
        -1.0,
        f64::NAN,
        -f64::NAN,
        f64::INFINITY,
        f64::NEG_INFINITY,
        f64::MIN_POSITIVE,
        f64::MAX,
        f64::MIN,
        5e-324,
        -5e-324,
        12.5,
    ];
    for a in all {
        assert_eq!(score(a).is_nan(), a.is_nan());
        assert_eq!(score(a).is_positive(), a > 0.0);
        for b in all {
            assert_eq!(score(a).at_most(score(b)), a <= b);
        }
    }
}

#[test]
fn zero_is_the_float_zero() {
    assert_eq!(Score::zero().bits, 0.0f64.to_bits());
    assert!(!Score::zero().is_positive());
    assert!(Score::zero().at_most(score(-0.0)));
}

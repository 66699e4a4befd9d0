use lppl_new::argmin_mod::{
    self, M_SEARCH_MAX, M_SEARCH_MIN, PENALTY, W_SEARCH_MAX, W_SEARCH_MIN,
};
use lppl_new::backtester::{HIGHEST_FACTOR, HUNDRED, MINUS_HUNDRED};
use lppl_new::cmaes_mod::{self, BAD_COST};
use lppl_new::double::{Double, INF_MAGNITUDE, SIGN};
use lppl_new::indicators::{
    D_MIN, FIT_QUANTILE, M_MAX, M_MIN, O_MIN, TC_DAYS_AFTER, TC_DAYS_BEFORE, TC_SPAN_PART, W_MAX,
    W_MIN,
};
use lppl_new::pipeline::{INFINITY, NEG_INFINITY};
use lppl_new::residuals::LEAST_DISTANCE;

fn d(x: f64) -> Double {
    Double { bits: x.to_bits() }
}

fn f(x: Double) -> f64 {
    f64::from_bits(x.bits)
}

fn samples() -> Vec<f64> {
    vec![
        0.0,
        -0.0,
        1.0,
        -1.0,
        1.5,
        -2.25,
        f64::MIN_POSITIVE,
        -f64::MIN_POSITIVE,
        5e-324,
        -5e-324,
        f64::MAX,
        f64::MIN,
        f64::INFINITY,
        f64::NEG_INFINITY,
        f64::NAN,
        -f64::NAN,
    ]
}

#[test]
fn comparisons_agree_with_the_numbers() {
    for a in samples() {
        assert_eq!(d(a).is_nan(), a.is_nan());
        assert_eq!(d(a).is_finite(), a.is_finite());
        assert_eq!(d(a).abs(), d(a.abs()));
        assert_eq!(d(a).neg(), d(-a));
        for b in samples() {
            assert_eq!(d(a).lt(&d(b)), a < b, "{} {}", a, b);
            assert_eq!(d(a).gt(&d(b)), a > b, "{} {}", a, b);
            assert_eq!(d(a).le(&d(b)), a <= b, "{} {}", a, b);
            assert_eq!(d(a).ge(&d(b)), a >= b, "{} {}", a, b);
            let (larger, smaller) = (f(d(a).larger(&d(b))), f(d(a).smaller(&d(b))));
            if a.is_nan() && b.is_nan() {
                assert!(larger.is_nan() && smaller.is_nan());
            } else {
                assert_eq!(larger, a.max(b));
                assert_eq!(smaller, a.min(b));
            }
        }
    }
}

#[test]
fn scaling_by_a_power_of_two_keeps_the_order() {
    let numbers: Vec<f64> =
        samples().into_iter().filter(|x| *x == 0.0 || (1e-200..1e200).contains(&x.abs())).collect();
    assert!(numbers.len() > 3);
    for x in &numbers {
        for y in &numbers {
            let (a, b) = (d(*x), d(*y));
            let (c, e) = (d(x * 4096.0), d(y * 4096.0));
            assert_eq!(a.lt(&b), c.lt(&e));
        }
    }
}

#[test]
fn ranks_put_what_is_no_number_last() {
    for a in samples() {
        for b in samples() {
            let expected = if a.is_nan() {
                false
            } else if b.is_nan() {
                true
            } else {
                a < b
            };
            assert_eq!(d(a).ranks_below(&d(b)), expected, "{} {}", a, b);
            assert_eq!(d(a).rank_value() < d(b).rank_value(), expected);
        }
    }
}

#[test]
fn constants_are_the_numbers_they_stand_for() {
    for (bits, x) in [
        (SIGN, -0.0),
        (INF_MAGNITUDE, f64::INFINITY),
        (INFINITY, f64::INFINITY),
        (NEG_INFINITY, f64::NEG_INFINITY),
        (HIGHEST_FACTOR, 999.0),
        (HUNDRED, 100.0),
        (MINUS_HUNDRED, -100.0),
        (M_MIN, 0.01),
        (M_MAX, 0.99),
        (W_MIN, 2.0),
        (W_MAX, 15.0),
        (O_MIN, 2.5),
        (D_MIN, 0.5),
        (LEAST_DISTANCE, 1e-8),
        (PENALTY, 1e10),
        (M_SEARCH_MIN, 1e-3),
        (M_SEARCH_MAX, 2.0),
        (W_SEARCH_MIN, 1.0),
        (W_SEARCH_MAX, 50.0),
        (BAD_COST, 200.0),
        (TC_DAYS_BEFORE, 60.0),
        (TC_DAYS_AFTER, 252.0),
        (TC_SPAN_PART, 0.5),
        (FIT_QUANTILE, 0.90),
        (argmin_mod::M_START_MIN, 0.01),
        (argmin_mod::M_START_MAX, 0.99),
        (argmin_mod::W_START_MIN, 2.0),
        (argmin_mod::W_START_MAX, 15.0),
        (argmin_mod::TC_STEP, 0.1),
        (argmin_mod::M_STEP, 0.15),
        (argmin_mod::W_STEP, 2.0),
        (argmin_mod::SD_TOLERANCE, 1e-8),
        (argmin_mod::GOOD_ERROR, 1e-6),
        (cmaes_mod::M_START_MIN, 0.0),
        (cmaes_mod::M_START_MAX, 1.0),
        (cmaes_mod::W_START_MIN, 2.0),
        (cmaes_mod::W_START_MAX, 15.0),
        (cmaes_mod::FIRST_STEP, 0.5),
        (cmaes_mod::TARGET_COST, 1e-4),
        (cmaes_mod::RESTART_MIN, -1.0),
        (cmaes_mod::RESTART_MAX, 1.0),
    ] {
        assert_eq!(bits, x.to_bits(), "{}", x);
    }
}

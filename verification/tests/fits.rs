use argmin::solver::neldermead::NelderMead;
use lppl_new::argmin_mod::{
    checked_linear, evaluated_cost, fit_argmin, is_penalized, search_box, steps_down, FitError,
    Restart, SearchBox, MAX_ITERS, MIN_OBSERVATIONS, NUM_RESTARTS, PENALTY,
};
use lppl_new::cmaes_mod::{fit_cmaes, CmaesStep, MAX_RETRIES};
use lppl_new::dates::Date;
use lppl_new::double::Double;
use lppl_new::nested_fits::{
    compute_nested_fits, fit_result, nested_windows, Fit, FitOutcome, NestedFitError, Nesting,
    Shape, Window, WindowDays,
};
use lppl_new::residuals::clamped_distance;
use nalgebra::{DMatrix, DVector};
use ndarray::Array1;
use rand::distributions::{Distribution, Uniform};
use rand::thread_rng;

fn d(x: f64) -> Double {
    Double { bits: x.to_bits() }
}

fn f(x: Double) -> f64 {
    f64::from_bits(x.bits)
}

fn distance(x: f64) -> f64 {
    f(clamped_distance(d(x)))
}

fn linear(time: &[f64], price: &[f64], tc: f64, m: f64, w: f64) -> [f64; 4] {
    let mut gram = DMatrix::<f64>::zeros(4, 4);
    let mut rhs = DVector::<f64>::zeros(4);
    for (t, p) in time.iter().zip(price.iter()) {
        let dt = distance(tc - t);
        let x = dt.powf(m);
        let row = [1.0, x, x * (w * dt.ln()).cos(), x * (w * dt.ln()).sin()];
        for i in 0..4 {
            rhs[i] += row[i] * p;
            for j in 0..4 {
                gram[(i, j)] += row[i] * row[j];
            }
        }
    }
    match gram.lu().solve(&rhs) {
        Some(v) => [v[0], v[1], v[2], v[3]],
        None => [f64::NAN; 4],
    }
}

fn sse(time: &[f64], price: &[f64], tc: f64, m: f64, w: f64, l: &[f64; 4]) -> f64 {
    time.iter()
        .zip(price.iter())
        .map(|(t, p)| {
            let dt = distance(tc - t);
            let wave = l[2] * (w * dt.ln()).cos() + l[3] * (w * dt.ln()).sin();
            (p - (l[0] + dt.powf(m) * (l[1] + wave))).powi(2)
        })
        .sum()
}

#[derive(Clone)]
struct Cost {
    time: Vec<f64>,
    price: Vec<f64>,
    bounds: SearchBox,
}

impl argmin::core::CostFunction for Cost {
    type Param = Array1<f64>;
    type Output = f64;

    fn cost(&self, p: &Array1<f64>) -> Result<f64, argmin::core::Error> {
        let (tc, m, w) = (p[0], p[1], p[2]);
        let v = self.bounds.violations(d(tc), d(m), d(w));
        let mut out = 0.0;
        if v.tc_low {
            out += f(self.bounds.tc_lo) - tc;
        }
        if v.tc_high {
            out += tc - f(self.bounds.tc_hi);
        }
        if v.m_low {
            out += 1e-3 - m;
        }
        if v.m_high {
            out += m - 2.0;
        }
        if v.w_low {
            out += 1.0 - w;
        }
        if v.w_high {
            out += w - 50.0;
        }
        if is_penalized(d(out)) {
            return Ok(f64::from_bits(PENALTY) * (1.0 + out));
        }
        let l = linear(&self.time, &self.price, tc, m, w);
        Ok(f(evaluated_cost(d(sse(&self.time, &self.price, tc, m, w, &l)))))
    }
}

fn fit(time: &[f64], price: &[f64]) -> Result<(f64, f64, f64, [f64; 4], f64), FitError> {
    let good_enough = 1e-6 * time.len() as f64;
    let mut search = fit_argmin(time.len(), price.len(), d(good_enough))?;
    let t0 = time[0];
    let shifted: Vec<f64> = time.iter().map(|t| t - t0).collect();
    let span = shifted[shifted.len() - 1];
    let bounds = search_box(
        d(span - 60.0),
        d(span - 0.5 * span),
        d(span + 252.0),
        d(span + 0.5 * span),
    );
    let (lo, hi) = (f(bounds.tc_lo), f(bounds.tc_hi));
    let cost = Cost { time: shifted.clone(), price: price.to_vec(), bounds };
    let mut rng = thread_rng();
    let mut ends: Vec<Option<Array1<f64>>> = Vec::new();
    while search.goes_on() {
        let tc0 = Uniform::from(lo..=hi).sample(&mut rng);
        let m0 = Uniform::from(0.01..=0.99).sample(&mut rng);
        let w0 = Uniform::from(2.0..=15.0).sample(&mut rng);
        let step = if steps_down(d(tc0), d(0.5 * (lo + hi))) { -0.1 } else { 0.1 };
        let simplex = vec![
            Array1::from(vec![tc0, m0, w0]),
            Array1::from(vec![tc0 + step * span, m0, w0]),
            Array1::from(vec![tc0, m0 + 0.15, w0]),
            Array1::from(vec![tc0, m0, w0 + 2.0]),
        ];
        let solver = NelderMead::new(simplex).with_sd_tolerance(1e-8).unwrap();
        let run = argmin::core::Executor::new(cost.clone(), solver)
            .configure(|s| s.max_iters(MAX_ITERS))
            .run();
        match run {
            Ok(res) => {
                let params = argmin::core::State::get_best_param(res.state()).cloned();
                search.record(Restart::Ended {
                    cost: d(argmin::core::State::get_best_cost(res.state())),
                    has_params: params.is_some(),
                });
                ends.push(params);
            }
            Err(_) => {
                search.record(Restart::Failed);
                ends.push(None);
            }
        }
    }
    let best = search.finish()?;
    let p = ends[best.restart].clone().unwrap();
    let l = linear(&shifted, price, p[0], p[1], p[2]);
    checked_linear(d(l[0]), d(l[1]), d(l[2]), d(l[3]))?;
    Ok((p[0] + t0, p[1], p[2], l, f(best.cost)))
}

#[test]
fn test_fit_argmin_recovers_synthetic_lppls() {
    let (tc_true, m_true, w_true) = (130.0, 0.5, 8.0);
    let (a_true, b_true, c1_true, c2_true) = (1.0, -0.02, 0.002, -0.002);
    let time: Vec<f64> = (0..120).map(|t| t as f64).collect();
    let price: Vec<f64> = time
        .iter()
        .map(|&t| {
            let dt: f64 = tc_true - t;
            a_true
                + dt.powf(m_true)
                    * (b_true
                        + c1_true * (w_true * dt.ln()).cos()
                        + c2_true * (w_true * dt.ln()).sin())
        })
        .collect();

    let (tc, m, w, l, cost) = fit(&time, &price).expect("fit should succeed");

    assert!(cost < 1e-3, "cost too high: {}", cost);
    assert!((tc - tc_true).abs() < 5.0, "tc off: {}", tc);
    assert!((m - m_true).abs() < 0.1, "m off: {}", m);
    assert!((w - w_true).abs() < 0.5, "w off: {}", w);
    assert!(l[1] < 0.0, "b should be negative for a positive bubble: {}", l[1]);
}

#[test]
fn test_fit_argmin_rejects_bad_input() {
    let time: Vec<f64> = (0..5).map(|t| t as f64).collect();
    let price = vec![1.0; 5];
    assert!(fit_argmin(time.len(), price.len(), d(1e-6)).is_err());

    let time: Vec<f64> = (0..20).map(|t| t as f64).collect();
    let price = vec![1.0; 19];
    assert!(fit_argmin(time.len(), price.len(), d(1e-6)).is_err());
}

#[test]
fn refusals_say_what_is_wrong() {
    assert_eq!(MIN_OBSERVATIONS, 10);
    assert!(fit_argmin(10, 10, d(0.0)).is_ok());
    match fit_argmin(9, 9, d(0.0)) {
        Err(e) => {
            assert_eq!(e, FitError::BadObservations);
            assert_eq!(e.text(), "fit_argmin: need at least 10 aligned observations");
        }
        Ok(_) => panic!("nine observations are too few"),
    }
    assert_eq!(FitError::NoValidFit.text(), "fit_argmin: no valid fit found");
    assert_eq!(
        FitError::LinearSolveFailed.text(),
        "fit_argmin: linear solve failed at optimum"
    );
    assert_eq!(
        checked_linear(d(1.0), d(f64::NAN), d(0.0), d(0.0)),
        Err(FitError::LinearSolveFailed)
    );
    let ok = (d(1.0), d(2.0), d(3.0), d(4.0));
    assert_eq!(checked_linear(ok.0, ok.1, ok.2, ok.3), Ok(ok));
    assert_eq!(NestedFitError::TooFewObservations.text(), "Too few observations.");
    assert_eq!(NestedFitError::NestedFitsFailed.text(), "Nested fits failed");
}

fn ended(cost: f64) -> Restart {
    Restart::Ended { cost: d(cost), has_params: true }
}

fn finished(restarts: &[Restart]) -> Result<(f64, usize), FitError> {
    let mut search = fit_argmin(20, 20, d(0.001)).ok().unwrap();
    for r in restarts {
        assert!(search.goes_on());
        search.record(*r);
    }
    search.finish().map(|b| (f(b.cost), b.restart))
}

#[test]
fn the_first_of_the_cheapest_restarts_is_kept() {
    let restarts = [ended(3.0), Restart::Failed, ended(2.0), ended(2.0), ended(f64::NAN)];
    assert_eq!(finished(&restarts), Ok((2.0, 2)));
    let unusable = [
        ended(f64::INFINITY),
        Restart::Ended { cost: d(1.0), has_params: false },
        Restart::Failed,
    ];
    assert_eq!(finished(&unusable), Err(FitError::NoValidFit));
    assert_eq!(finished(&[ended(1e10)]), Err(FitError::NoValidFit));
    assert_eq!(finished(&[ended(9.9e9)]), Ok((9.9e9, 0)));
}

#[test]
fn the_search_ends_early_or_after_all_restarts() {
    let mut search = fit_argmin(20, 20, d(0.5)).ok().unwrap();
    search.record(ended(0.6));
    assert!(search.goes_on());
    search.record(ended(0.5));
    assert!(!search.goes_on());

    let mut search = fit_argmin(20, 20, d(0.5)).ok().unwrap();
    for k in 0..NUM_RESTARTS {
        assert!(search.goes_on());
        search.record(ended(100.0 - k as f64));
    }
    assert!(!search.goes_on());
    assert_eq!(search.finish().map(|b| b.restart), Ok(NUM_RESTARTS - 1));
}

#[test]
fn points_outside_the_box_are_penalized() {
    let b = search_box(d(40.0), d(50.0), d(352.0), d(150.0));
    assert_eq!((f(b.tc_lo), f(b.tc_hi)), (50.0, 150.0));
    let v = b.violations(d(49.0), d(2.5), d(0.5));
    assert!(v.tc_low && !v.tc_high && !v.m_low && v.m_high && v.w_low && !v.w_high);
    let v = b.violations(d(151.0), d(0.0001), d(51.0));
    assert!(!v.tc_low && v.tc_high && v.m_low && !v.m_high && !v.w_low && v.w_high);
    let v = b.violations(d(100.0), d(0.5), d(8.0));
    assert!(!(v.tc_low || v.tc_high || v.m_low || v.m_high || v.w_low || v.w_high));
    assert!(is_penalized(d(0.1)) && !is_penalized(d(0.0)) && !is_penalized(d(f64::NAN)));
    assert_eq!(f(evaluated_cost(d(0.25))), 0.25);
    assert_eq!(f(evaluated_cost(d(f64::NAN))), 1e10);
    assert!(steps_down(d(101.0), d(100.0)) && !steps_down(d(100.0), d(100.0)));
}

#[test]
fn windows_shrink_toward_a_common_end() {
    let nesting = Nesting { size: 10, smallest: 4, outer: 2, inner: 3 };
    let windows = nested_windows(13, 13, nesting).unwrap();
    let w = |start: usize, end: usize| Window { start, end };
    assert_eq!(windows, vec![w(0, 10), w(3, 10), w(2, 12), w(5, 12)]);
    assert_eq!(
        nested_windows(9, 9, nesting),
        Err(NestedFitError::TooFewObservations)
    );
    let none = Nesting { size: 10, smallest: 10, outer: 2, inner: 3 };
    assert_eq!(nested_windows(13, 13, none), Ok(vec![]));
}

#[test]
fn fits_are_kept_with_their_dates() {
    let time: Vec<Double> = (0..5).map(|i| d(719162.0 + i as f64)).collect();
    let price: Vec<Double> = (0..5).map(|i| d(0.1 * i as f64)).collect();
    let fit = Fit {
        tc: d(719170.5),
        m: d(0.5),
        w: d(8.0),
        a: d(1.0),
        b: d(-0.5),
        c1: d(0.1),
        c2: d(0.2),
        best_cost: d(0.01),
    };
    let shape = Shape { c: d(0.3), oscillations: d(3.0), damping: d(0.9) };
    let days = WindowDays { tc: 719170, t1: 719163, t2: 719165 };
    let r = fit_result(Window { start: 1, end: 4 }, &time, &price, fit, shape, days);
    assert_eq!(r.tc_d, Date { year: 1970, month: 1, day: 9 });
    assert_eq!(r.t1_d, Date { year: 1970, month: 1, day: 2 });
    assert_eq!(r.t2_d, Date { year: 1970, month: 1, day: 4 });
    assert_eq!((f(r.t1), f(r.t2), r.p2), (719163.0, 719165.0, price[3]));
    assert_eq!((f(r.c), f(r.oscillations), f(r.damping)), (0.3, 3.0, 0.9));

}

#[test]
fn nested_fits_are_kept_window_by_window() {
    let time: Vec<Double> = (0..13).map(|i| d(719162.0 + i as f64)).collect();
    let price: Vec<Double> = (0..13).map(|i| d(0.1 * i as f64)).collect();
    let fit = |cost: f64| Fit {
        tc: d(719180.0),
        m: d(0.5),
        w: d(8.0),
        a: d(1.0),
        b: d(-0.5),
        c1: d(0.1),
        c2: d(0.2),
        best_cost: d(cost),
    };
    let shape = Shape { c: d(0.3), oscillations: d(3.0), damping: d(0.9) };
    let days = WindowDays { tc: 719180, t1: 719165, t2: 719171 };
    let fitted = |cost: f64| FitOutcome::Fitted { fit: fit(cost), shape, days };
    let nesting = Nesting { size: 10, smallest: 4, outer: 2, inner: 3 };
    let outcomes =
        vec![FitOutcome::Rejected, fitted(0.25), FitOutcome::Panicked, fitted(0.5)];
    let kept = compute_nested_fits(&time, &price, nesting, &outcomes).unwrap();
    assert_eq!(kept.len(), 2);
    assert_eq!(kept[0], fit_result(Window { start: 3, end: 10 }, &time, &price, fit(0.25), shape, days));
    assert_eq!(kept[1], fit_result(Window { start: 5, end: 12 }, &time, &price, fit(0.5), shape, days));
    assert_eq!((kept[1].t1, kept[1].t2, kept[1].p2), (time[5], time[11], price[11]));
    let none = vec![FitOutcome::Rejected, FitOutcome::Panicked, FitOutcome::Rejected, FitOutcome::Rejected];
    assert_eq!(
        compute_nested_fits(&time, &price, nesting, &none),
        Err(NestedFitError::NestedFitsFailed)
    );
    assert_eq!(
        compute_nested_fits(&time[..9].to_vec(), &price[..9].to_vec(), nesting, &vec![]),
        Err(NestedFitError::TooFewObservations)
    );
}

#[test]
fn bad_runs_are_made_again_up_to_a_limit() {
    assert_eq!(fit_cmaes(0, None), CmaesStep::NoSolution);
    assert_eq!(fit_cmaes(0, Some(d(200.0))), CmaesStep::Accept);
    assert_eq!(fit_cmaes(0, Some(d(f64::NAN))), CmaesStep::Accept);
    assert_eq!(fit_cmaes(0, Some(d(200.1))), CmaesStep::Retry(1));
    assert_eq!(fit_cmaes(3, Some(d(1e9))), CmaesStep::Retry(4));
    assert_eq!(fit_cmaes(MAX_RETRIES - 1, Some(d(1e9))), CmaesStep::GiveUp);
}

use lppl_new::double::Double;
use lppl_new::signals::{res_signal_fun, signal_fun};
use lppl_new::strategies::{
    levels, run_backtests, sig, signal, BacktestError, Indicators, Rule,
};

fn d(x: f64) -> Double {
    Double { bits: x.to_bits() }
}

fn column(v: &[f64]) -> Vec<Double> {
    v.iter().map(|x| d(*x)).collect()
}

#[test]
fn confidence_signals_stand_one_bar_later_but_for_the_last() {
    let pos = column(&[0.9, 0.9, 0.1, 0.1, 0.1, 0.9]);
    let neg = column(&[0.0, 0.0, 0.8, 0.0, 0.8, 0.8]);
    let side = signal_fun(&pos, &neg, d(0.5), d(0.5));
    assert_eq!(side.sell, vec![0, 0, -1, 0, 0, -1]);
    assert_eq!(side.buy, vec![0, 0, 0, 1, 0, 0]);
    assert_eq!(side.pos_conf, column(&[0.0, 0.0, 0.9, 0.1, 0.1, 0.9]));
    assert_eq!(side.neg_conf, column(&[0.0, 0.0, 0.0, 0.8, 0.0, 0.8]));
}

#[test]
fn a_level_must_be_exceeded() {
    let pos = column(&[0.5, 0.5, 0.5, 0.5]);
    let side = signal_fun(&pos, &pos, d(0.5), d(0.5));
    assert_eq!(side.sell, vec![0; 4]);
    assert_eq!(side.buy, vec![0; 4]);
    let nan = column(&[f64::NAN; 4]);
    let side = signal_fun(&nan, &pos, d(0.5), d(0.4));
    assert_eq!(side.sell, vec![0; 4]);
    assert_eq!(side.buy, vec![0, 0, 1, 1]);
}

#[test]
fn short_series_have_no_signals() {
    for n in 1..3 {
        let pos = vec![d(1.0); n];
        let side = signal_fun(&pos, &pos, d(0.1), d(0.1));
        assert_eq!(side.buy, vec![0; n]);
        assert_eq!(side.sell, vec![0; n]);
    }
}

#[test]
fn signals_do_not_depend_on_later_bars() {
    let pos = column(&[0.1, 0.9, 0.2, 0.7, 0.1, 0.1]);
    let neg = column(&[0.1, 0.1, 0.9, 0.1, 0.1, 0.1]);
    let mut other = pos.clone();
    other[3] = d(0.0);
    other[5] = d(1.0);
    let a = signal_fun(&pos, &neg, d(0.5), d(0.5));
    let b = signal_fun(&other, &neg, d(0.5), d(0.5));
    assert_eq!(a.buy[..4], b.buy[..4]);
    assert_eq!(a.sell[..4], b.sell[..4]);
    assert_ne!(a.sell[4], b.sell[4]);
    assert_eq!(a.pos_conf[..4], b.pos_conf[..4]);
    assert_eq!(a.neg_conf[..5], b.neg_conf[..5]);
    assert_ne!(a.pos_conf[4], b.pos_conf[4]);
}

#[test]
fn higher_levels_give_fewer_signals() {
    let pos: Vec<Double> = (0..50).map(|i| d((i * 37 % 100) as f64 / 100.0)).collect();
    let neg: Vec<Double> = (0..50).map(|i| d((i * 53 % 100) as f64 / 100.0)).collect();
    let low = signal_fun(&pos, &neg, d(0.2), d(0.2));
    let high = signal_fun(&pos, &neg, d(0.6), d(0.6));
    for k in 0..50 {
        if high.buy[k] == 1 || high.sell[k] == -1 {
            assert!(low.buy[k] == 1 || low.sell[k] == -1);
        }
        assert!(!(low.buy[k] == 1 && low.sell[k] == -1));
    }
}

#[test]
fn residual_signals_need_their_duration() {
    let eps = column(&[0.0, -0.9, -0.9, -0.9, 0.9, 0.9, 0.9, 0.0]);
    let side = res_signal_fun(&eps, d(0.8), 2);
    assert_eq!(side.buy, vec![0, 0, 0, 1, 1, 0, 0, 0]);
    assert_eq!(side.sell, vec![0, 0, 0, 0, 0, 0, -1, 0]);
    let once = res_signal_fun(&eps, d(0.9), 1);
    assert_eq!(once.buy, vec![0, 0, 1, 1, 1, 0, 0, 0]);
    assert_eq!(once.sell, vec![0, 0, 0, 0, 0, -1, -1, 0]);
    assert_eq!(once.pos_conf, vec![d(0.0); 8]);
}

#[test]
fn the_last_residual_bar_decides_for_itself() {
    let eps = column(&[0.0, 0.0, 0.0, -1.0]);
    assert_eq!(res_signal_fun(&eps, d(0.5), 1).buy, vec![0, 0, 0, 1]);
    assert_eq!(res_signal_fun(&eps, d(0.5), 10).buy, vec![0; 4]);
}

#[test]
fn a_rule_is_followed_by_its_strategy() {
    let ind = Indicators {
        pos_conf: column(&[0.0, 0.9, 0.0, 0.0]),
        neg_conf: column(&[0.0, 0.0, 0.9, 0.0]),
        eps_norm: column(&[0.0, 0.0, -0.9, 0.9]),
    };
    let conf = sig(&signal(Rule::Confidence { pos_level: 50, neg_level: 50 }), &ind);
    assert_eq!(conf.sell, vec![0, 0, -1, 0]);
    let res = sig(&signal(Rule::Residual { tau: 8, days: 1 }), &ind);
    assert_eq!(res.sell, vec![0, 0, 0, -1]);
    assert_eq!(res.buy, vec![0; 4]);
}

#[test]
fn strategies_are_set_to_the_numbers_of_their_rules() {
    for s in run_backtests("testing", false, true).unwrap() {
        let expected = match s.rule {
            Rule::Confidence { pos_level, neg_level } => {
                (pos_level as f64 / 100.0, neg_level as f64 / 100.0)
            }
            Rule::Residual { tau, days } => (tau as f64 / 10.0, days as f64),
        };
        assert_eq!((s.param1, s.param2), (d(expected.0), d(expected.1)));
        assert_eq!(levels(s.rule), Some((s.param1, s.param2)));
    }
    assert_eq!(levels(Rule::Confidence { pos_level: 2, neg_level: 5 }), None);
    assert_eq!(levels(Rule::Residual { tau: 8, days: 2 }), None);
}

#[test]
fn missing_fits_refuse_a_backtest() {
    match run_backtests("lc", true, false) {
        Err(e) => {
            assert_eq!(e, BacktestError::FitFileMissing);
            assert_eq!(e.text(), "Fit file missing");
        }
        Ok(_) => panic!("there is nothing to backtest"),
    }
}

#[test]
fn strategies_are_named_by_their_levels() {
    assert_eq!(signal(Rule::Confidence { pos_level: 1, neg_level: 80 }).name, "lppl_0.01_0.80");
    assert_eq!(signal(Rule::Confidence { pos_level: 75, neg_level: 5 }).name, "lppl_0.75_0.05");
    assert_eq!(signal(Rule::Residual { tau: 7, days: 10 }).name, "res_0.7_10");
}

#[test]
fn a_test_run_covers_the_whole_grid() {
    let all = run_backtests("testing", false, true).unwrap();
    assert_eq!(all.len(), 304);
    let mut expected: Vec<String> = Vec::new();
    let mut levels = vec![0.01];
    levels.extend((5..=80).step_by(5).map(|x| x as f64 / 100.0));
    for a in &levels {
        for b in &levels {
            expected.push(format!("lppl_{:.2}_{:.2}", a, b));
        }
    }
    for tau in [0.5, 0.6, 0.7, 0.8, 0.9] {
        for days in [1usize, 5, 10] {
            expected.push(format!("res_{:.1}_{}", tau, days));
        }
    }
    let names: Vec<String> = all.iter().map(|s| s.name.clone()).collect();
    assert_eq!(names, expected);
    let mut sorted = names.clone();
    sorted.sort();
    sorted.dedup();
    assert_eq!(sorted.len(), names.len());
}

#[test]
fn production_runs_the_listing_and_the_calibrated_strategy() {
    let names = |tag: &str| -> Vec<String> {
        run_backtests(tag, true, true).unwrap().into_iter().map(|s| s.name).collect()
    };
    assert_eq!(names("sc"), ["lppl_0.01_0.01", "lppl_0.80_0.80"]);
    assert_eq!(names("micro"), ["lppl_0.01_0.01", "lppl_0.80_0.80"]);
    assert_eq!(names("mc"), ["lppl_0.01_0.01", "lppl_0.75_0.15"]);
    assert_eq!(names("lc"), ["lppl_0.01_0.01", "lppl_0.70_0.20"]);
    assert_eq!(names("crypto"), ["lppl_0.01_0.01", "lppl_0.80_0.80"]);
    assert_eq!(names("LC2"), ["lppl_0.01_0.01", "lppl_0.70_0.20"]);
    assert_eq!(names("other"), ["lppl_0.01_0.01"]);
}

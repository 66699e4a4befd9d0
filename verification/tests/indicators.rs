use lppl_new::double::Double;
use lppl_new::indicators::{compute_indicators, FitRow, Share, MIN_QUALIFIED};
use lppl_new::residuals::{
    clamped_distance, complete_rows, compute_residual_indicator, middle_of, residual_groups,
    Middle, Normalized, ResidualRow, RESIDUAL_BURN_IN,
};

fn d(x: f64) -> Double {
    Double { bits: x.to_bits() }
}

fn f(x: Double) -> f64 {
    f64::from_bits(x.bits)
}

fn s(x: f64) -> Option<Double> {
    Some(d(x))
}

// A fit whose window ends at day 1000 after 120 days, inside every range.
fn fit(date: i32, b: f64) -> FitRow {
    FitRow {
        t2_d: Some(date),
        tc: s(1010.0),
        m: s(0.5),
        w: s(8.0),
        b: s(b),
        oscillations: s(3.0),
        damping: s(0.9),
        p2: s(0.25),
        fixed_lower: s(940.0),
        half_lower: s(940.5),
        fixed_upper: s(1252.0),
        half_upper: s(1059.5),
        daily_error: s(0.1),
    }
}

fn qualified(row: FitRow) -> bool {
    let mut other = fit(row.t2_d.unwrap(), f(row.b.unwrap()));
    other.daily_error = s(0.0);
    compute_indicators(&vec![row, other], s(0.1))[0].pos_qualified == 2
}

#[test]
fn a_confidence_is_the_share_of_qualified_windows() {
    let mut rows = vec![fit(7, -0.5), fit(8, -0.5), fit(7, -0.5), fit(7, -0.5), fit(7, 0.5)];
    rows[3].m = s(1.5);
    rows[3].p2 = s(0.75);
    let out = compute_indicators(&rows, s(0.1));
    assert_eq!(out.len(), 2);
    assert_eq!(out[0].date, Some(7));
    assert_eq!((out[0].pos_count, out[0].pos_qualified), (3, 2));
    assert_eq!((out[0].neg_count, out[0].neg_qualified), (1, 1));
    assert_eq!(out[0].pos_conf, Share { part: 2, whole: 3 });
    assert_eq!(out[0].neg_conf, Share { part: 0, whole: 1 });
    assert_eq!(out[0].price, s(0.75));
    assert_eq!(out[1].date, Some(8));
    assert_eq!(MIN_QUALIFIED, 2);
    assert_eq!(out[1].pos_conf, Share { part: 0, whole: 1 });
}

#[test]
fn each_range_can_disqualify_a_fit() {
    assert!(qualified(fit(1, -0.5)));
    let changes: Vec<fn(&mut FitRow)> = vec![
        |r| r.tc = s(940.4),
        |r| r.tc = s(1059.6),
        |r| r.m = s(0.009),
        |r| r.m = s(0.991),
        |r| r.w = s(1.9),
        |r| r.w = s(15.1),
        |r| r.oscillations = s(2.4),
        |r| r.damping = s(0.4),
        |r| r.daily_error = s(0.11),
        |r| r.tc = None,
        |r| r.daily_error = None,
    ];
    for change in changes {
        let mut row = fit(1, -0.5);
        change(&mut row);
        assert!(!qualified(row));
    }
    let kept: Vec<fn(&mut FitRow)> = vec![
        |r| r.tc = s(940.5),
        |r| r.tc = s(1059.5),
        |r| r.m = s(0.01),
        |r| r.m = s(0.99),
        |r| r.w = s(2.0),
        |r| r.w = s(15.0),
        |r| r.oscillations = s(2.5),
        |r| r.damping = s(0.5),
        |r| r.daily_error = s(0.1),
        |r| r.oscillations = s(f64::INFINITY),
    ];
    for change in kept {
        let mut row = fit(1, -0.5);
        change(&mut row);
        assert!(qualified(row));
    }
}

#[test]
fn the_later_lower_and_the_earlier_upper_limit_bind() {
    let mut row = fit(1, -0.5);
    row.fixed_lower = s(945.0);
    row.tc = s(944.0);
    assert!(!qualified(row));
    let mut row = fit(1, -0.5);
    row.fixed_upper = s(1020.0);
    row.tc = s(1021.0);
    assert!(!qualified(row));
}

#[test]
fn fits_with_a_zero_slope_have_no_sign() {
    let out = compute_indicators(&vec![fit(1, 0.0), fit(1, -0.0)], s(0.1));
    assert_eq!((out[0].pos_count, out[0].neg_count), (0, 0));
}

#[test]
fn a_higher_limit_keeps_what_a_lower_one_kept() {
    let mut rows: Vec<FitRow> = (0..10).map(|_| fit(1, -0.5)).collect();
    for (i, row) in rows.iter_mut().enumerate() {
        row.daily_error = s(i as f64 / 10.0);
    }
    let mut before = 0;
    for limit in [0.0, 0.25, 0.5, 0.9] {
        let out = compute_indicators(&rows, s(limit));
        assert!(out[0].pos_qualified >= before);
        before = out[0].pos_qualified;
    }
    assert_eq!(before, 10);
    assert_eq!(compute_indicators(&rows, None)[0].pos_qualified, 0);
}

#[test]
fn the_error_limit_is_relative() {
    let mut rows: Vec<FitRow> =
        (0..12).map(|i| fit(i % 3, if i % 2 == 0 { -0.5 } else { 0.5 })).collect();
    for (i, row) in rows.iter_mut().enumerate() {
        row.daily_error = s(0.07 * i as f64);
    }
    let shown = |rows: &Vec<FitRow>, limit: f64| -> Vec<(usize, usize, Share, Share)> {
        compute_indicators(rows, s(limit))
            .iter()
            .map(|d| (d.pos_qualified, d.neg_qualified, d.pos_conf, d.neg_conf))
            .collect()
    };
    let before = shown(&rows, 0.5);
    for row in rows.iter_mut() {
        row.daily_error = row.daily_error.map(|x| d(f(x) * 65536.0));
    }
    assert_eq!(shown(&rows, 0.5 * 65536.0), before);
    assert_ne!(shown(&rows, 0.5), before);
}

// The indicator of rows whose fit is zero, so that the residual is the price.
fn residual_indicator(dates: &[i32], p2: &[f64]) -> Vec<(i32, f64)> {
    let rows: Vec<ResidualRow> = dates
        .iter()
        .zip(p2.iter())
        .map(|(day, p)| ResidualRow {
            t2_d: Some(*day),
            t2: s(100.0),
            p2: s(*p),
            tc: s(130.0),
            m: s(0.5),
            w: s(8.0),
            a: s(0.0),
            b: s(0.0),
            c1: s(0.0),
            c2: s(0.0),
        })
        .collect();
    let rows = complete_rows(&rows);
    let days: Vec<i32> = rows.iter().map(|r| r.t2_d).collect();
    let eps: Vec<Double> = rows
        .iter()
        .map(|r| {
            let dt = f(clamped_distance(d(f(r.tc) - f(r.t2))));
            let log_dt = dt.ln();
            let fitted = f(r.a)
                + dt.powf(f(r.m))
                    * (f(r.b)
                        + f(r.c1) * (f(r.w) * log_dt).cos()
                        + f(r.c2) * (f(r.w) * log_dt).sin());
            d(f(r.p2) - fitted)
        })
        .collect();
    let groups = residual_groups(&days, &eps);
    let medians: Vec<Double> = groups
        .iter()
        .map(|g| match middle_of(&g.values) {
            Middle::One(x) => x,
            Middle::Two(x, y) => d(0.5 * (f(x) + f(y))),
        })
        .collect();
    let out = compute_residual_indicator(&medians);
    groups
        .iter()
        .zip(out.iter())
        .map(|(g, e)| {
            let value = match e {
                Normalized::Zero => 0.0,
                Normalized::Quotient { median, scale } => f(*median) / f(*scale),
            };
            (g.date, value)
        })
        .collect()
}

#[test]
fn test_compute_residual_indicator() {
    let n = 25;
    let dates: Vec<i32> = (0..n as i32).collect();
    let mut p2: Vec<f64> = (0..n).map(|i| 0.01 * (i as f64 + 1.0)).collect();
    p2[24] = -0.12;
    let e = residual_indicator(&dates, &p2);
    assert_eq!(e[5].1, 0.0, "burn-in should zero early values");
    assert!((e[21].1 - 1.0).abs() < 1e-9);
    assert!((e[24].1 + 0.5).abs() < 1e-9);
}

#[test]
fn residuals_are_grouped_by_ascending_date() {
    let groups = residual_groups(
        &vec![5, 3, 5, 9, 5],
        &vec![d(2.0), d(1.0), d(-1.0), d(f64::NAN), d(f64::INFINITY)],
    );
    let shown: Vec<(i32, Vec<f64>)> =
        groups.iter().map(|g| (g.date, g.values.iter().map(|x| f(*x)).collect())).collect();
    assert_eq!(shown, vec![(3, vec![1.0]), (5, vec![-1.0, 2.0])]);
}

#[test]
fn the_median_of_an_even_list_has_two_middles() {
    assert_eq!(middle_of(&vec![d(1.0), d(2.0), d(4.0)]), Middle::One(d(2.0)));
    assert_eq!(middle_of(&vec![d(1.0), d(2.0), d(4.0), d(9.0)]), Middle::Two(d(2.0), d(4.0)));
}

#[test]
fn rows_with_a_gap_are_left_out() {
    let full = || ResidualRow {
        t2_d: Some(1),
        t2: s(1.0),
        p2: s(2.0),
        tc: s(3.0),
        m: s(4.0),
        w: s(5.0),
        a: s(6.0),
        b: s(7.0),
        c1: s(8.0),
        c2: s(9.0),
    };
    let mut gap = full();
    gap.c2 = None;
    let mut undated = full();
    undated.t2_d = None;
    let rows = complete_rows(&vec![gap, full(), undated]);
    assert_eq!(rows.len(), 1);
    assert_eq!((rows[0].t2_d, f(rows[0].c1), f(rows[0].c2)), (1, 8.0, 9.0));
}

#[test]
fn distances_are_kept_away_from_zero() {
    assert_eq!(f(clamped_distance(d(-3.0))), 3.0);
    assert_eq!(f(clamped_distance(d(0.0))), 1e-8);
    assert_eq!(f(clamped_distance(d(f64::NAN))), 1e-8);
}

#[test]
fn normalized_residuals_stay_within_one() {
    let medians: Vec<Double> =
        (0..60).map(|i| d(((i * 31 % 17) as f64 - 8.0) / 10.0)).collect();
    let out = compute_residual_indicator(&medians);
    let mut scale_before = 0.0;
    for (k, e) in out.iter().enumerate() {
        match e {
            Normalized::Zero => assert!(k < RESIDUAL_BURN_IN),
            Normalized::Quotient { median, scale } => {
                assert!(k >= RESIDUAL_BURN_IN);
                assert!((f(*median) / f(*scale)).abs() <= 1.0);
                assert!(f(*scale) >= scale_before);
                scale_before = f(*scale);
            }
        }
    }
}

#[test]
fn zero_medians_stay_zero_after_the_burn_in() {
    let out = compute_residual_indicator(&vec![d(0.0); 30]);
    assert!(out.iter().all(|e| *e == Normalized::Zero));
}

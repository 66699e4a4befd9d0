use lppl_new::backtester::{
    backtest_performance, backtest_trades, cap_figure, floor_figure, summary_order,
    summary_performance, tally_results, Backtest, BuySell, Figures, PriceFrame,
    HIGHEST_FACTOR, HUNDRED, MAX_HOLD_BARS, MINUS_HUNDRED, MIN_TOTAL_TRADES,
};
use lppl_new::double::Double;
use lppl_new::indicators::Share;
use lppl_new::trades::{simulate_trades, Trade};

fn d(x: f64) -> Double {
    Double { bits: x.to_bits() }
}

fn f(x: Double) -> f64 {
    f64::from_bits(x.bits)
}

fn frame(dates: Vec<String>, open: Vec<f64>, close: Vec<f64>) -> PriceFrame {
    let n = open.len();
    PriceFrame {
        date: dates,
        ticker: vec!["\"TST\"".to_string(); n],
        universe: vec!["\"U\"".to_string(); n],
        open: open.into_iter().map(|x| Some(d(x))).collect(),
        close: close.into_iter().map(|x| Some(d(x))).collect(),
    }
}

fn named(n: usize) -> Vec<String> {
    (1..=n).map(|i| format!("\"d{}\"", i)).collect()
}

fn side(buy: Vec<i32>, sell: Vec<i32>) -> BuySell {
    let n = buy.len();
    BuySell {
        buy,
        sell,
        pos_conf: vec![d(0.0); n],
        neg_conf: vec![d(0.0); n],
    }
}

fn percent(share: Share) -> f64 {
    share.part as f64 / share.whole as f64 * 100.0
}

fn report(frame: &PriceFrame, side: &BuySell) -> Backtest {
    let results: Vec<Double> = backtest_trades(frame, side)
        .iter()
        .map(|t| {
            let (entry, exit) = (f(t.entry), f(t.exit));
            d(if t.long {
                (exit / entry - 1.0) * 100.0
            } else {
                (entry - exit) / entry * 100.0
            })
        })
        .collect();
    let tally = tally_results(&results);
    let profits: f64 = tally.gains.iter().map(|x| f(*x)).sum();
    let losses: f64 = tally.losses.iter().map(|x| f(*x)).sum::<f64>().abs();
    let (won, lost) = (tally.gains.len() as f64, tally.losses.len() as f64);
    let average_gain = profits / won;
    let average_loss = losses / lost;
    let gain = f(cap_figure(d(average_gain), HUNDRED));
    let loss = f(floor_figure(d(average_loss), MINUS_HUNDRED));
    let hit = percent(tally.hit_ratio);
    let figures = Figures {
        profit_factor: d(profits / losses),
        average_gain: d(average_gain),
        average_loss: d(average_loss),
        risk_reward: d(gain / loss),
        expectancy: d(gain * hit - (100.0 - hit) * loss),
    };
    backtest_performance(frame, side, "test", &results, &figures)
}

#[test]
fn test_backtest_performance_percent_returns() {
    let frame = frame(
        named(6),
        vec![100.0, 100.0, 110.0, 120.0, 115.0, 95.0],
        vec![100.0, 105.0, 115.0, 118.0, 110.0, 90.0],
    );
    let side = side(vec![0, 1, 0, 0, 0, 0], vec![0, 0, 0, -1, 0, -1]);
    let bt = report(&frame, &side);

    assert_eq!(bt.trades, 2);
    assert!((f(bt.avg_gain) - 22.5).abs() < 1e-9, "avg_gain: {}", f(bt.avg_gain));
    assert!((f(bt.max_gain) - 25.0).abs() < 1e-9, "max_gain: {}", f(bt.max_gain));
    assert!((percent(bt.hit_ratio) - 100.0).abs() < 1e-9);
    assert_eq!(bt.buys, 1);
    assert_eq!(bt.sells, 2);
}

#[test]
fn test_repeated_buy_signals_do_not_chain() {
    let frame = frame(
        named(6),
        vec![100.0, 100.0, 105.0, 110.0, 120.0, 125.0],
        vec![100.0, 102.0, 107.0, 112.0, 122.0, 130.0],
    );
    let side = side(vec![0, 1, 1, 1, 0, 0], vec![0, 0, 0, 0, 0, 0]);
    let bt = report(&frame, &side);

    assert_eq!(bt.trades, 1);
    assert!((f(bt.max_gain) - 30.0).abs() < 1e-9, "max_gain: {}", f(bt.max_gain));
}

#[test]
fn test_max_holding_period_exit() {
    let n = MAX_HOLD_BARS + 10;
    let dates: Vec<String> = (0..n).map(|i| format!("d{}", i)).collect();
    let opens: Vec<f64> = (0..n).map(|i| 100.0 + i as f64).collect();
    let closes = opens.clone();
    let mut buy = vec![0; n];
    buy[1] = 1;
    let bt = report(&frame(dates, opens, closes), &side(buy, vec![0; n]));

    let expected = (227.0 / 101.0 - 1.0) * 100.0;
    assert_eq!(bt.trades, 1);
    assert!(
        (f(bt.max_gain) - expected).abs() < 1e-9,
        "max_gain: {} expected: {}",
        f(bt.max_gain),
        expected
    );
}

#[test]
fn the_report_names_its_frame_and_its_last_bar() {
    let frame = frame(named(3), vec![10.0, 11.0, 12.0], vec![10.0, 11.0, 12.0]);
    let side = BuySell {
        buy: vec![0, 0, 1],
        sell: vec![0, -1, 0],
        pos_conf: vec![d(0.1), d(0.2), d(0.3)],
        neg_conf: vec![d(0.4), d(0.5), d(f64::NAN)],
    };
    let bt = report(&frame, &side);
    assert_eq!(bt.ticker, "TST");
    assert_eq!(bt.universe, "U");
    assert_eq!(bt.strategy, "test");
    assert_eq!(bt.date, "d3");
    assert_eq!((bt.buy, bt.sell), (1, 0));
    assert_eq!((bt.buys, bt.sells), (1, 1));
    assert_eq!(f(bt.pos_conf), 0.3);
    assert_eq!(f(bt.neg_conf), 0.0);
    // One short from 11 to the final close of 12: a loss of one part in eleven.
    assert_eq!(bt.trades, 1);
    assert_eq!(f(bt.max_gain), 0.0);
    assert_eq!(f(bt.max_loss), (11.0 - 12.0) / 11.0 * 100.0);
    assert_eq!(f(bt.profit_factor), 0.0);
    assert_eq!(f(bt.avg_gain), 0.0);
}

#[test]
fn a_backtest_without_trades_reports_zeros() {
    let frame = frame(named(2), vec![10.0, 11.0], vec![10.0, 11.0]);
    let bt = report(&frame, &side(vec![0, 0], vec![0, 0]));
    assert_eq!(bt.trades, 0);
    assert_eq!(bt.hit_ratio, Share { part: 0, whole: 1 });
    for x in [
        bt.expectancy,
        bt.profit_factor,
        bt.realized_risk_reward,
        bt.avg_gain,
        bt.avg_loss,
        bt.max_gain,
        bt.max_loss,
    ] {
        assert_eq!(f(x), 0.0);
    }
}

#[test]
fn an_opposite_signal_reverses_at_the_open() {
    let prices: Vec<Option<Double>> = (0..5).map(|i| Some(d(10.0 + i as f64))).collect();
    let trades = simulate_trades(&prices, &prices, &vec![0, 1, 0, 0, 0], &vec![0, 0, -1, 0, 0]);
    assert_eq!(
        trades,
        vec![
            Trade { long: true, entry_bar: 1, exit_bar: 2, at_close: false },
            Trade { long: false, entry_bar: 2, exit_bar: 4, at_close: true },
        ]
    );
}

#[test]
fn a_buy_wins_over_a_sell_at_the_same_bar() {
    let prices: Vec<Option<Double>> = (0..4).map(|i| Some(d(10.0 + i as f64))).collect();
    let trades = simulate_trades(&prices, &prices, &vec![1, 0, 0, 0], &vec![-1, 0, 0, 0]);
    assert_eq!(trades.len(), 1);
    assert!(trades[0].long);
}

#[test]
fn the_final_signal_is_not_traded() {
    let prices: Vec<Option<Double>> = (0..3).map(|i| Some(d(10.0 + i as f64))).collect();
    assert!(simulate_trades(&prices, &prices, &vec![0, 0, 1], &vec![0, 0, 0]).is_empty());
}

#[test]
fn bad_prices_open_nothing_and_settle_nothing() {
    let open = vec![Some(d(0.0)), None, Some(d(f64::NAN)), Some(d(-1.0)), Some(d(5.0))];
    let close = vec![Some(d(1.0)); 5];
    assert!(simulate_trades(&open, &close, &vec![1, 1, 1, 1, 0], &vec![0; 5]).is_empty());

    let open = vec![Some(d(5.0)); 3];
    let close = vec![Some(d(5.0)), Some(d(5.0)), Some(d(f64::INFINITY))];
    assert!(simulate_trades(&open, &close, &vec![1, 0, 0], &vec![0; 3]).is_empty());
    let close = vec![Some(d(5.0)), Some(d(5.0)), None];
    assert!(simulate_trades(&open, &close, &vec![1, 0, 0], &vec![0; 3]).is_empty());
}

#[test]
fn trades_follow_each_other_and_are_fewer_than_the_bars() {
    let n = 40;
    let prices: Vec<Option<Double>> = (0..n).map(|i| Some(d(10.0 + i as f64))).collect();
    let buy: Vec<i32> = (0..n).map(|i| if i % 2 == 0 { 1 } else { 0 }).collect();
    let sell: Vec<i32> = (0..n).map(|i| if i % 2 == 1 { -1 } else { 0 }).collect();
    let trades = simulate_trades(&prices, &prices, &buy, &sell);
    assert_eq!(trades.len(), n - 1);
    for w in trades.windows(2) {
        assert!(w[0].exit_bar <= w[1].entry_bar);
        assert!(w[0].entry_bar < w[0].exit_bar);
    }
}

#[test]
fn figures_are_capped_and_floored() {
    assert_eq!(f(cap_figure(d(1500.0), HIGHEST_FACTOR)), 999.0);
    assert_eq!(f(cap_figure(d(f64::INFINITY), HIGHEST_FACTOR)), 999.0);
    assert_eq!(f(cap_figure(d(2.5), HIGHEST_FACTOR)), 2.5);
    assert_eq!(f(cap_figure(d(f64::NAN), HIGHEST_FACTOR)), 0.0);
    assert_eq!(f(cap_figure(d(101.0), HUNDRED)), 100.0);
    assert_eq!(f(floor_figure(d(-250.0), MINUS_HUNDRED)), -100.0);
    assert_eq!(f(floor_figure(d(250.0), MINUS_HUNDRED)), 250.0);
    assert_eq!(f(floor_figure(d(f64::NAN), MINUS_HUNDRED)), 0.0);
}

#[test]
fn results_are_parted_into_gains_and_losses() {
    let results = vec![d(1.0), d(-3.0), d(0.0), d(4.0), d(-0.5), d(f64::NAN)];
    let t = tally_results(&results);
    assert_eq!(t.gains, vec![d(1.0), d(4.0)]);
    assert_eq!(t.losses, vec![d(-3.0), d(-0.5)]);
    assert_eq!(t.max_gain, d(4.0));
    assert_eq!(t.max_loss, d(-3.0));
    assert_eq!(t.hit_ratio, Share { part: 2, whole: 4 });
}

#[test]
fn the_summary_groups_strategies_and_drops_rare_ones() {
    let key = |s: &str, u: &str| (Some(s.to_string()), Some(u.to_string()));
    let keys = vec![
        key("b", "LC1"),
        key("a", "LC1"),
        key("b", "LC1"),
        key("b", "LC2"),
        key("a", "LC1"),
    ];
    let trades = vec![Some(12), Some(10), Some(8), Some(19), Some(9)];
    let factors = vec![Some(d(1.0)), None, None, Some(d(2.0)), None];
    let out = summary_performance(&keys, &trades, &factors);
    assert_eq!(MIN_TOTAL_TRADES, 20);
    assert_eq!(out.len(), 1);
    assert_eq!(
        (out[0].strategy.as_deref(), out[0].universe.as_deref()),
        (Some("b"), Some("LC1"))
    );
    assert_eq!(out[0].rows, vec![0, 2]);
    assert_eq!(out[0].total_trades, 20);
    assert_eq!(out[0].count, 1);
    let trades = vec![Some(20), Some(10), None, Some(i64::MAX), Some(10)];
    let out = summary_performance(&keys, &trades, &factors);
    let shown: Vec<(&str, &str, i128)> = out
        .iter()
        .map(|g| (g.strategy.as_deref().unwrap(), g.universe.as_deref().unwrap(), g.total_trades))
        .collect();
    assert_eq!(
        shown,
        [("b", "LC1", 20), ("a", "LC1", 20), ("b", "LC2", i64::MAX as i128)]
    );
    let ratios = vec![Some(d(60.0)), None, Some(d(40.0))];
    assert_eq!(summary_order(&keys, &trades, &ratios), vec![1, 2, 0]);
}

#[test]
fn a_missing_strategy_is_a_group_of_its_own() {
    let empty = Some(String::new());
    let keys = vec![(None, empty.clone()), (empty.clone(), empty), (None, Some(String::new()))];
    let out = summary_performance(&keys, &vec![Some(10), Some(30), Some(10)], &vec![None; 3]);
    assert_eq!(out.len(), 2);
    assert_eq!((out[0].strategy.clone(), out[0].rows.clone()), (None, vec![0, 2]));
    assert_eq!((out[1].strategy.as_deref(), out[1].rows.clone()), (Some(""), vec![1]));
}

#[test]
fn the_final_signal_changes_no_figure() {
    let prices: Vec<f64> = (0..8).map(|i| 10.0 + ((i * 5) % 7) as f64).collect();
    let frame = frame(named(8), prices.clone(), prices);
    let a = report(&frame, &side(vec![0, 1, 0, 0, 0, 0, 0, 0], vec![0, 0, 0, -1, 0, 0, 0, 0]));
    let b = report(&frame, &side(vec![0, 1, 0, 0, 0, 0, 0, 1], vec![0, 0, 0, -1, 0, 0, 0, 0]));
    assert_eq!((a.trades, a.hit_ratio), (b.trades, b.hit_ratio));
    assert_eq!((a.expectancy, a.profit_factor), (b.expectancy, b.profit_factor));
    assert_eq!((a.avg_gain, a.avg_loss, a.max_gain), (b.avg_gain, b.avg_loss, b.max_gain));
    assert_eq!((a.buy, b.buy), (0, 1));
}

#[test]
fn the_price_level_changes_no_report() {
    let prices: Vec<f64> = (0..30).map(|i| 10.0 + ((i * 5) % 7) as f64 / 3.0).collect();
    let scaled: Vec<f64> = prices.iter().map(|x| x * 1024.0).collect();
    let buy: Vec<i32> = (0..30).map(|i| (i % 6 == 1) as i32).collect();
    let sell: Vec<i32> = (0..30).map(|i| -((i % 6 == 4) as i32)).collect();
    let a = report(&frame(named(30), prices.clone(), prices), &side(buy.clone(), sell.clone()));
    let b = report(&frame(named(30), scaled.clone(), scaled), &side(buy, sell));
    assert!(a.trades > 5);
    assert_eq!(format!("{:?}", a), format!("{:?}", b));
}

#[test]
fn exchanged_signals_mirror_the_report() {
    let n = 60;
    let prices: Vec<f64> = (0..n).map(|i| 50.0 + ((i * 29) % 17) as f64).collect();
    let frame = frame(named(n), prices.clone(), prices);
    let buy: Vec<i32> = (0..n).map(|i| (i % 7 == 3) as i32).collect();
    let sell: Vec<i32> = (0..n).map(|i| -((i % 5 == 1 && i % 7 != 3) as i32)).collect();
    let turn = |v: &[i32]| -> Vec<i32> { v.iter().map(|x| -x).collect() };
    let (a, b) = (side(buy.clone(), sell.clone()), side(turn(&sell), turn(&buy)));
    let trades = backtest_trades(&frame, &a);
    let mirrored = backtest_trades(&frame, &b);
    assert!(trades.len() > 5);
    assert_eq!(trades.len(), mirrored.len());
    for (t, u) in trades.iter().zip(&mirrored) {
        assert_eq!((t.entry, t.exit, t.long), (u.entry, u.exit, !u.long));
    }
    let (x, y) = (report(&frame, &a), report(&frame, &b));
    assert_eq!((x.buys, x.sells, x.trades), (y.sells, y.buys, y.trades));
    assert!((f(x.max_gain) + f(y.max_loss)).abs() < 1e-9);
    assert!((f(x.max_loss) + f(y.max_gain)).abs() < 1e-9);
}

#[test]
fn turned_results_exchange_their_extremes() {
    let results = vec![d(1.5), d(-3.0), d(0.0), d(f64::NAN)];
    let turned: Vec<Double> = results.iter().map(|x| x.neg()).collect();
    let (a, b) = (tally_results(&results), tally_results(&turned));
    assert_eq!((a.max_gain, a.max_loss), (b.max_loss.neg(), b.max_gain.neg()));
}

use lppl_new::double::Double;
use lppl_new::groups::{group_rows, order_by_double, order_by_rank};
use lppl_new::joins::{joined_column, left_join};
use lppl_new::reports::{
    backtest_columns, concat_dataframes, filled_columns, is_backtest_table, observed_tickers,
    price_coverage, rows_with_signal, signal_columns, signal_rows, strategy_coverage, summary_performance_file,
    universe_rows, ConcatError, Content, Coverage,
};
use lppl_new::scores::{
    best_strategies, figure_order, inserts_scores, score, score_groups, score_order, score_table,
};
use lppl_new::sorting::{all_rows, sort_rows, ByText};

fn d(x: f64) -> Double {
    Double { bits: x.to_bits() }
}

fn s(x: f64) -> Option<Double> {
    Some(d(x))
}

fn strings(v: &[&str]) -> Vec<String> {
    v.iter().map(|x| x.to_string()).collect()
}

fn known(v: &[&str]) -> Vec<Option<String>> {
    v.iter().map(|x| Some(x.to_string())).collect()
}

#[test]
fn rows_are_grouped_in_the_order_of_their_keys() {
    assert_eq!(
        group_rows(&strings(&["b", "a", "b", "c", "a"])),
        vec![vec![0, 2], vec![1, 4], vec![3]]
    );
    assert_eq!(group_rows(&vec![Some(1), None, Some(2), None]), vec![vec![0], vec![1, 3], vec![2]]);
    assert_eq!(group_rows(&vec![7i32, 7, 8]), vec![vec![0, 1], vec![2]]);
    assert!(group_rows(&Vec::<String>::new()).is_empty());
}

#[test]
fn rows_are_ordered_by_rank_and_place() {
    assert_eq!(order_by_rank(&vec![3, 1, 2, 1, 3]), vec![1, 3, 2, 0, 4]);
    assert_eq!(
        order_by_double(&vec![d(f64::NAN), d(1.0), d(-0.0), d(0.0), d(-5.0)]),
        vec![4, 2, 3, 1, 0]
    );
}

#[test]
fn sorting_is_stable_on_any_list() {
    let words: Vec<String> = (0..200u64).map(|i| format!("w{}", i * 7919 % 23)).collect();
    let sorted = sort_rows(&ByText { column: &words }, &all_rows(words.len()));
    let mut expected: Vec<usize> = (0..words.len()).collect();
    expected.sort_by(|a, b| words[*a].cmp(&words[*b]));
    assert_eq!(sorted, expected);
    let some: Vec<usize> = (0..words.len()).filter(|i| i % 3 == 0).collect();
    let sorted = sort_rows(&ByText { column: &words }, &some);
    let mut expected = some.clone();
    expected.sort_by(|a, b| words[*a].cmp(&words[*b]));
    assert_eq!(sorted, expected);
}

#[test]
fn a_left_join_keeps_every_left_row() {
    let left = vec![Some(1), Some(2), None, Some(1)];
    assert_eq!(
        left_join(&left, &vec![Some(1), Some(3), None]),
        vec![(0, Some(0)), (1, None), (2, None), (3, Some(0))]
    );
    assert_eq!(
        left_join(&vec![Some(1)], &vec![Some(1), Some(2), Some(1)]),
        vec![(0, Some(0)), (0, Some(2))]
    );
    let pair = |a: &str, b: &str| Some((a.to_string(), b.to_string()));
    assert_eq!(
        left_join(&vec![pair("x", "u"), pair("y", "u")], &vec![pair("y", "u"), pair("x", "v")]),
        vec![(0, None), (1, Some(0))]
    );
}

#[test]
fn joined_columns_are_filled_with_zero() {
    let dates = vec![Some(10), None, Some(12), Some(11)];
    let keys = vec![Some(11), Some(10), None];
    let out = joined_column(&dates, &keys, &vec![d(0.5), d(0.25), d(9.0)]);
    assert_eq!(out, vec![d(0.25), d(0.0), d(0.0), d(0.5)]);
}

#[test]
fn tables_are_put_together_where_their_types_agree() {
    let a = strings(&["str", "f64"]);
    let b = strings(&["str", "i64"]);
    let longer = strings(&["str", "f64", "i64"]);
    assert_eq!(concat_dataframes(&vec![a.clone(), b, longer, a]), Ok(vec![0, 2, 3]));
    assert_eq!(concat_dataframes(&vec![]), Err(ConcatError::NoTables));
    assert_eq!(ConcatError::NoTables.text(), "No DataFrames to concatenate.");
}

#[test]
fn a_backtest_table_has_all_its_columns() {
    let mut names = backtest_columns();
    assert_eq!(names.len(), 19);
    assert!(is_backtest_table(&names));
    names.push("extra".to_string());
    names.reverse();
    assert!(is_backtest_table(&names));
    names.retain(|n| n != "trades");
    assert!(!is_backtest_table(&names));
    assert!(filled_columns().iter().all(|c| backtest_columns().contains(c)));
    assert_eq!(filled_columns().len(), 8);
    assert!(signal_columns().iter().all(|c| backtest_columns().contains(c)));
}

#[test]
fn a_test_run_reports_groups_of_universes() {
    let r = summary_performance_file("/p", false, &strings(&["LC1", "LC2"]), "\"2025-01-31\"");
    assert_eq!(r.datetag, "20250131");
    let files: Vec<&str> = r.outputs.iter().map(|o| o.file.as_str()).collect();
    assert_eq!(
        files,
        [
            "/p/performance/stocks_testing.csv",
            "/p/performance/LC.csv",
            "/p/performance/MC.csv",
            "/p/performance/SC.csv",
            "/p/performance/Micro.csv"
        ]
    );
    assert!(matches!(r.outputs[0].content, Content::All));
    match &r.outputs[4].content {
        Content::Universes(list) => assert_eq!(list, &strings(&["Micro1", "Micro2"])),
        _ => panic!("a group of universes is expected"),
    }
}

#[test]
fn a_production_run_reports_what_scoring_reads() {
    let r = summary_performance_file("/p", true, &strings(&["Crypto"]), "2025-01-31");
    let files: Vec<&str> = r.outputs.iter().map(|o| o.file.as_str()).collect();
    let read = score("/p", false, &r.datetag);
    assert_eq!(files, [read.buys.as_str(), read.sells.as_str()]);
    assert_eq!(read.buys, "/p/performance/crypto_buys_20250131.csv");
    assert_eq!(read.sells, "/p/performance/crypto_sells_20250131.csv");
    assert_eq!(read.tested, "/p/performance/crypto_testing.csv");
    assert_eq!(read.scores, "/p/score/crypto_20250131.csv");
}

#[test]
fn signals_are_listed_by_ticker() {
    let signals = vec![Some(1), Some(0), None, Some(1), Some(1), Some(-1)];
    let names = known(&["MSFT", "A", "B", "AAPL", "MSFT", "Z"]);
    assert_eq!(rows_with_signal(&signals, 1), vec![0, 3, 4]);
    assert_eq!(signal_rows(&signals, 1, &names), vec![3, 0, 4]);
    assert_eq!(signal_rows(&signals, -1, &names), vec![5]);
    assert_eq!(
        universe_rows(&known(&["LC1", "SC1", "LC2"]), &strings(&["LC1", "LC2"])),
        vec![0, 2]
    );
    let gaps = vec![Some("B".to_string()), None, Some("A".to_string())];
    assert_eq!(signal_rows(&vec![Some(1); 3], 1, &gaps), vec![1, 2, 0]);
    assert_eq!(universe_rows(&gaps, &strings(&["", "A"])), vec![2]);
}

#[test]
fn coverage_counts_observations_and_strategies() {
    let seen = observed_tickers(
        &known(&["B", "A", "B", "B", "A"]),
        &vec![Some(7), Some(8), None, Some(9), None],
    );
    let shown: Vec<(&str, usize, Option<i32>)> =
        seen.iter().map(|o| (o.ticker.as_str(), o.observations, o.last_date)).collect();
    assert_eq!(shown, [("A", 1, None), ("B", 2, Some(9))]);
    let tested = known(&["A", "B", "A", "X"]);
    let strategies = known(&["s", "s", "t", "s"]);
    assert_eq!(
        strategy_coverage(&seen, &tested, &strategies),
        vec![Coverage { observed: 1, strategies: 1 }, Coverage { observed: 0, strategies: 2 }]
    );
    assert!(strategy_coverage(&seen, &known(&["X"]), &known(&["s"])).is_empty());
}

#[test]
fn backtests_without_a_strategy_are_not_counted() {
    let mut tickers = known(&["A", "B", "C"]);
    tickers.push(None);
    let seen = observed_tickers(&tickers, &vec![Some(1); 4]);
    assert_eq!(seen.len(), 3);
    let mut tested = known(&["A", "B", "A"]);
    tested.push(None);
    let s = Some("s".to_string());
    assert_eq!(
        strategy_coverage(&seen, &tested, &vec![s.clone(), None, None, s]),
        vec![Coverage { observed: 1, strategies: 0 }, Coverage { observed: 0, strategies: 1 }]
    );
}

#[test]
fn printed_dates_are_parsed_for_the_coverage() {
    let dates = ["2025-01-01", "1970-01-01", "2025-02-30", "1969-12-31", "yesterday"]
        .iter()
        .map(|s| Some(s.to_string()))
        .chain([None])
        .collect();
    let seen = price_coverage(&known(&["B", "A", "B", "A", "C", "B"]), &dates);
    let shown: Vec<(&str, usize, Option<i32>)> =
        seen.iter().map(|o| (o.ticker.as_str(), o.observations, o.last_date)).collect();
    assert_eq!(shown, [("A", 2, Some(-1)), ("B", 1, None), ("C", 0, None)]);
    let one = price_coverage(&known(&["B"]), &vec![Some("2025-01-01".to_string())]);
    assert_eq!(one[0].last_date, Some(20089));
}

#[test]
fn the_score_table_holds_the_groups_of_both_lists() {
    let key = |t: &str| ("2025-01-31".to_string(), "LC1".to_string(), t.to_string());
    let buys = vec![key("B"), key("A"), key("B")];
    let sells = vec![key("A")];
    let pos = vec![s(0.5), s(0.1), s(0.1)];
    let neg = vec![s(0.0), s(0.2), s(0.3)];
    assert_eq!(score_table(&buys, &sells, &pos, &neg), vec![2, 1, 0]);
    assert!(inserts_scores(3) && !inserts_scores(0));
    assert!(score_table(&vec![], &vec![], &vec![], &vec![]).is_empty());
}

#[test]
fn scores_are_grouped_by_date_universe_and_ticker() {
    let key = |t: &str| ("2025-01-31".to_string(), "LC1".to_string(), t.to_string());
    let out = score_groups(&vec![key("B"), key("A"), key("B")], &vec![1, i64::MAX, i64::MAX]);
    assert_eq!(out.len(), 2);
    assert_eq!((out[0].rows.clone(), out[0].side), (vec![0, 2], i64::MAX as i128 + 1));
    assert_eq!((out[1].rows.clone(), out[1].side), (vec![1], i64::MAX as i128));
}

#[test]
fn scores_are_ordered_by_both_confidences() {
    let pos = vec![s(0.5), s(0.1), None, s(0.1), s(0.1), s(f64::NAN)];
    let neg = vec![s(0.0), s(0.2), s(0.9), s(0.3), None, s(0.1)];
    assert_eq!(score_order(&pos, &neg), vec![3, 1, 4, 0, 5, 2]);
}

#[test]
fn the_best_strategies_of_a_universe_are_shown() {
    let universe = known(&["U", "V", "U", "U", "U", "U", "U", "U"]);
    let figures = vec![s(3.0), s(9.0), s(1.0), None, s(2.0), s(5.0), s(4.0), s(1.0)];
    assert_eq!(best_strategies(&universe, "U", &figures), vec![7, 4, 0, 6, 5]);
    assert_eq!(figure_order(&figures), vec![3, 2, 7, 4, 0, 6, 5, 1]);
    assert_eq!(best_strategies(&universe, "V", &figures), vec![1]);
    assert!(best_strategies(&universe, "W", &figures).is_empty());
}

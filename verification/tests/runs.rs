use lppl_new::batches::{batches, Batch};
use lppl_new::double::Double;
use lppl_new::nested_fits::nested_windows;
use lppl_new::paths::{
    finished_backtests, finished_fits, fit_dir, fit_file, folder, group_performance_file,
    needed_tickers, output_dir, parquet_save_backtest, price_file, project_path, score_file,
    signal_list_file, tested_performance_file, DirEntry,
};
use lppl_new::pipeline::{
    backtest_helper, backtest_tag, delete_all_files_in_folder, first_fitted_row, fits_helper,
    min_max_bounds, read_price_file, run_fits_nesting, run_settings, universes, writes_price_file,
    PathKind, Removal, BATCH_SIZE, PRODUCTION_ROWS,
};
use lppl_new::strategies::run_backtests;

fn d(x: f64) -> Double {
    Double { bits: x.to_bits() }
}

fn f(x: Double) -> f64 {
    f64::from_bits(x.bits)
}

fn strings(v: &[&str]) -> Vec<String> {
    v.iter().map(|s| s.to_string()).collect()
}

fn file(name: &str) -> DirEntry {
    let (stem, extension) = match name.rsplit_once('.') {
        Some((a, b)) => (a.to_string(), Some(b.to_string())),
        None => (name.to_string(), None),
    };
    DirEntry { is_file: true, extension, stem: Some(stem) }
}

#[test]
fn names_stand_for_universes() {
    assert_eq!(universes("SC"), ["SC1", "SC2", "SC3", "SC4"]);
    assert_eq!(universes("MC"), ["MC1", "MC2"]);
    assert_eq!(universes("MC1"), ["MC1"]);
    assert_eq!(universes("LC"), ["LC1", "LC2"]);
    assert_eq!(universes("Micro"), ["Micro1", "Micro2", "Micro3", "Micro4"]);
    assert_eq!(universes("Stocks").len(), 12);
    assert_eq!(universes("Crypto"), ["Crypto"]);
    assert_eq!(universes("LC2"), ["Crypto"]);
}

#[test]
fn settings_come_from_the_command_line() {
    let none = run_settings(&strings(&["lppl"]), None);
    assert_eq!((none.name.as_str(), none.folder.as_str()), ("Crypto", "testing"));
    assert_eq!(none.path, "/Users/rogerbos/rust_home/lppl_new");
    assert!(!none.production && !none.stocks);
    let user = run_settings(&strings(&["lppl", "LC"]), Some("/home/me".to_string()));
    assert_eq!(user.path, "/home/me/rust_home/lppl_new");
    assert_eq!(user.universes, ["LC1", "LC2"]);
    assert!(user.stocks);
    let all = run_settings(&strings(&["lppl", "MC", "production", "/data"]), None);
    assert_eq!((all.folder.as_str(), all.path.as_str()), ("production", "/data"));
    assert!(all.production);
    let odd = run_settings(&strings(&["lppl", "MC", "prod"]), None);
    assert!(!odd.production);
    assert_eq!(odd.folder, "prod");
}

#[test]
fn universes_pick_their_tags() {
    assert_eq!(backtest_tag(false, "LC1"), "testing");
    assert_eq!(backtest_tag(true, "Crypto"), "crypto");
    assert_eq!(backtest_tag(true, "Micro2"), "micro");
    assert_eq!(backtest_tag(true, "SC4"), "sc");
    assert_eq!(backtest_tag(true, "MC1"), "mc");
    assert_eq!(backtest_tag(true, "LC2"), "lc");
    assert_eq!(backtest_tag(true, "other"), "crypto");
    for u in universes("Stocks") {
        assert_eq!(run_backtests(&backtest_tag(true, &u), true, true).unwrap().len(), 2);
    }
}

#[test]
fn production_fits_the_last_rows() {
    assert_eq!(first_fitted_row("testing", 500), 0);
    assert_eq!(first_fitted_row("production", 500), 380);
    assert_eq!(first_fitted_row("production", PRODUCTION_ROWS), 0);
    assert_eq!(first_fitted_row("production", 7), 0);
    let windows = nested_windows(120, 120, run_fits_nesting()).unwrap();
    assert_eq!(windows.len(), 18);
    assert!(windows.iter().all(|w| w.end == 120 && w.start % 5 == 0));
    assert_eq!(windows[17].start, 85);
}

#[test]
fn only_usable_prices_are_kept() {
    let close = vec![
        Some(d(1.0)),
        None,
        Some(d(0.0)),
        Some(d(-2.0)),
        Some(d(0.5)),
        Some(d(f64::NAN)),
        Some(d(f64::INFINITY)),
    ];
    assert_eq!(read_price_file(&close), vec![0, 4, 5, 6]);
}

#[test]
fn prices_are_bounded_by_their_extremes() {
    let b = min_max_bounds(&vec![d(3.0), d(f64::NAN), d(-1.0), d(2.0)]);
    assert_eq!((f(b.low), f(b.high)), (-1.0, 3.0));
    let b = min_max_bounds(&vec![]);
    assert_eq!((f(b.low), f(b.high)), (f64::INFINITY, f64::NEG_INFINITY));
}

#[test]
fn folders_are_emptied_entry_by_entry() {
    assert_eq!(delete_all_files_in_folder(PathKind::File, false), Removal::File);
    assert_eq!(delete_all_files_in_folder(PathKind::Folder, false), Removal::Entries);
    assert_eq!(delete_all_files_in_folder(PathKind::Other, false), Removal::Nothing);
    assert_eq!(delete_all_files_in_folder(PathKind::File, true), Removal::File);
    assert_eq!(delete_all_files_in_folder(PathKind::Folder, true), Removal::Tree);
    assert_eq!(delete_all_files_in_folder(PathKind::Other, true), Removal::Nothing);
}

#[test]
fn price_files_are_written_anew_in_production() {
    assert!(writes_price_file(true, true) && writes_price_file(true, false));
    assert!(!writes_price_file(false, true) && writes_price_file(false, false));
}

#[test]
fn files_lie_where_they_are_looked_for() {
    assert_eq!(project_path(None), "/srv/rust_home/lppl_new");
    assert_eq!(project_path(Some("/u".to_string())), "/u/rust_home/lppl_new");
    assert_eq!((folder(true), folder(false)), ("production".into(), "testing".into()));
    assert_eq!(price_file("/p", "testing", "LC1"), "/p/data/testing/LC1.csv");
    assert_eq!(fit_dir("/p", "testing"), "/p/fit/testing");
    assert_eq!(fit_file("/p", "testing", "LC1", "AAPL"), "/p/fit/testing/fit_LC1_AAPL.csv");
    assert_eq!(output_dir("/p", true, "production"), "/p/output_crypto/production");
    assert_eq!(output_dir("/p", false, "production"), "/p/output/production");
    assert_eq!(parquet_save_backtest("/p", "Crypto", "btc", true), "/p/output_crypto/production/btc.parquet");
    assert_eq!(parquet_save_backtest("/p", "SC1", "F", false), "/p/output/testing/F.parquet");
    assert_eq!(tested_performance_file("/p", true), "/p/performance/stocks_testing.csv");
    assert_eq!(group_performance_file("/p", "LC"), "/p/performance/LC.csv");
    assert_eq!(
        signal_list_file("/p", false, true, "20250131"),
        "/p/performance/crypto_buys_20250131.csv"
    );
    assert_eq!(
        signal_list_file("/p", true, false, "20250131"),
        "/p/performance/stocks_sells_20250131.csv"
    );
    assert_eq!(score_file("/p", true, "20250131"), "/p/score/stocks_20250131.csv");
}

#[test]
fn finished_work_is_read_from_the_folders() {
    let folder = DirEntry { is_file: false, extension: Some("parquet".into()), stem: Some("X".into()) };
    let odd = DirEntry { is_file: true, extension: Some("parquet".into()), stem: None };
    let entries = vec![file("AAPL.parquet"), file("notes.txt"), file("README"), folder, odd];
    assert_eq!(finished_backtests(&entries), ["AAPL"]);
    let entries = vec![
        file("fit_LC1_AAPL.csv"),
        file("fit_LC1.csv"),
        file("fit_SC1_BRK_B.csv"),
        file("fit_LC1_MSFT.parquet"),
    ];
    assert_eq!(finished_fits(&entries), ["AAPL", "BRK"]);
}

#[test]
fn only_what_is_not_done_is_needed() {
    let column: Vec<Option<String>> = ["B", "A", "B", "C", "A"]
        .iter()
        .map(|s| Some(s.to_string()))
        .chain([None])
        .collect();
    assert_eq!(needed_tickers(&column, &strings(&["C"])), ["B", "A"]);
    assert!(needed_tickers(&column, &strings(&["A", "B", "C"])).is_empty());
}

#[test]
fn helpers_plan_the_tickers_that_are_left() {
    let column: Vec<Option<String>> = (0..13).map(|i| Some(format!("T{}", i))).collect();
    let done = vec![file("T3.parquet"), file("T4.parquet")];
    let plan = backtest_helper(&column, &done, BATCH_SIZE);
    assert_eq!(plan.needed.len(), 11);
    assert!(!plan.needed.contains(&"T3".to_string()));
    assert_eq!(plan.batches, vec![Batch { start: 0, end: 10 }, Batch { start: 10, end: 11 }]);
    let done = vec![file("fit_LC1_T0.csv")];
    let plan = fits_helper(&column, &done, 6);
    assert_eq!(plan.needed[0], "T1");
    assert_eq!(plan.batches, vec![Batch { start: 0, end: 6 }, Batch { start: 6, end: 12 }]);
    let finished: Vec<DirEntry> = (0..13).map(|i| file(&format!("T{}.parquet", i))).collect();
    assert!(backtest_helper(&column, &finished, 5).needed.is_empty());
}

#[test]
fn batches_cover_a_list_without_gaps() {
    for n in 0..25usize {
        for size in 1..8usize {
            let cut = batches(n, size);
            let mut at = 0;
            for b in &cut {
                assert_eq!(b.start, at);
                assert!(b.end > b.start && b.end - b.start <= size);
                at = b.end;
            }
            assert_eq!(at, n);
            assert_eq!(cut.len(), (n + size - 1) / size);
        }
    }
    assert_eq!(batches(5, usize::MAX), vec![Batch { start: 0, end: 5 }]);
}

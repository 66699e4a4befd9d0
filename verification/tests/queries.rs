use lppl_new::clickhouse_mod::{
    chunk_step, get_ch_client, get_universe_tickers, insert_score_dataframe, price_columns,
    price_query, reports_progress, write_price_file, ChConnectionType, ChunkStep, ScoreRow, MAX_ATTEMPTS,
    QUERY_BATCH, TICKERS_PER_QUERY,
};

fn tickers(n: usize) -> Vec<String> {
    (0..n).map(|i| format!("T{}", i)).collect()
}

#[test]
fn servers_have_their_settings() {
    let local = get_ch_client(ChConnectionType::Local);
    assert_eq!(local.url, "http://192.168.86.46:8123");
    assert_eq!((local.user.as_str(), local.database.as_str()), ("roger", "tiingo"));
    assert_eq!(local.label, "Local");
    let remote = get_ch_client(ChConnectionType::Remote);
    assert_eq!(remote.url, "http://192.168.86.56:8123");
    assert_eq!(remote.label, "Remote");
}

#[test]
fn a_universe_is_asked_for_its_tickers() {
    assert_eq!(
        get_universe_tickers("Crypto"),
        "SELECT DISTINCT baseCurrency FROM crypto ORDER BY baseCurrency"
    );
    assert_eq!(
        get_universe_tickers("LC1"),
        "SELECT DISTINCT Ticker FROM univ WHERE batch = 'LC1' ORDER BY Ticker"
    );
}

#[test]
fn price_queries_name_their_tickers_and_universe() {
    let two = vec!["AAPL".to_string(), "MSFT".to_string()];
    let production = price_query(true, "LC1", &two);
    assert!(production.contains("WHERE symbol IN ('AAPL','MSFT')\n"));
    assert!(production.contains("'LC1' AS Universe"));
    assert!(production.contains("having count(date) >= 130"));
    assert!(production.starts_with("WITH\n") && production.ends_with("order by Ticker, Date"));
    let testing = price_query(false, "LC1", &two);
    assert!(testing.contains("WHERE symbol IN ('AAPL','MSFT')\n"));
    assert!(testing.contains("having count(date) >= 250"));
    let crypto = price_query(true, "Crypto", &two);
    assert!(crypto.contains("WHERE baseCurrency IN ('AAPL','MSFT')\n"));
    assert!(crypto.contains("formatDateTime(date, '%Y-%m-%d') Date"));
    assert!(crypto.contains("NOT match(u.ticker, '\\d[ls]$')"));
    let crypto = price_query(false, "Crypto", &two);
    assert!(crypto.contains("formatDateTime(pq.date, '%Y-%m-%d') Date"));
    assert!(crypto.contains("'Crypto' as Universe"));
}

#[test]
fn tickers_are_asked_for_in_batches() {
    let all = tickers(2 * TICKERS_PER_QUERY + 1);
    let queries = write_price_file(false, "SC1", &all);
    assert_eq!(queries.len(), 3);
    assert_eq!(queries[0], price_query(false, "SC1", &all[..25].to_vec()));
    assert_eq!(queries[1], price_query(false, "SC1", &all[25..50].to_vec()));
    assert_eq!(queries[2], price_query(false, "SC1", &all[50..].to_vec()));
    assert!(write_price_file(false, "SC1", &vec![]).is_empty());
}

#[test]
fn price_files_have_their_columns() {
    assert_eq!(
        price_columns(),
        ["Date", "Ticker", "Universe", "Open", "High", "Low", "Close", "Volume"]
    );
}

#[test]
fn an_empty_answer_is_asked_for_again() {
    assert_eq!(chunk_step(1, true), ChunkStep::Done);
    assert_eq!(chunk_step(1, false), ChunkStep::Retry);
    assert_eq!(chunk_step(2, false), ChunkStep::Retry);
    assert_eq!(chunk_step(MAX_ATTEMPTS, false), ChunkStep::GiveUp);
    assert_eq!(chunk_step(MAX_ATTEMPTS, true), ChunkStep::Done);
}

fn row(ticker: &str) -> ScoreRow {
    ScoreRow {
        date: 20089,
        universe: "LC1".to_string(),
        ticker: ticker.to_string(),
        side: -2,
        risk_reward: "1.5".to_string(),
        expectancy: "-0.25".to_string(),
        profit_factor: "3".to_string(),
        pos_conf: "0.5".to_string(),
        neg_conf: "NaN".to_string(),
    }
}

#[test]
fn scores_are_inserted_as_tuples() {
    let queries = insert_score_dataframe(&vec![row("A'B"), row("C")]);
    assert_eq!(
        queries,
        vec![
            "INSERT INTO lppl_score (date, universe, ticker, side, risk_reward, expectancy, \
             profit_factor, pos_conf, neg_conf) VALUES \
             ('2025-01-01', 'LC1', 'A''B', -2, 1.5, -0.25, 3, 0.5, NaN), \
             ('2025-01-01', 'LC1', 'C', -2, 1.5, -0.25, 3, 0.5, NaN)"
        ]
    );
}

#[test]
fn scores_are_inserted_in_batches() {
    let rows: Vec<ScoreRow> = (0..2 * QUERY_BATCH + 20).map(|i| row(&format!("T{}", i))).collect();
    let queries = insert_score_dataframe(&rows);
    assert_eq!(queries.len(), 3);
    assert_eq!(queries[0].matches("'LC1'").count(), 50);
    assert_eq!(queries[2].matches("'LC1'").count(), 20);
    assert!(queries[1].contains("'T50'") && !queries[1].contains("'T49'"));
    assert!(insert_score_dataframe(&vec![]).is_empty());
}

#[test]
fn progress_is_reported_at_hundreds_and_at_the_end() {
    assert!(!reports_progress(50, 120));
    assert!(reports_progress(100, 120));
    assert!(reports_progress(120, 120));
}

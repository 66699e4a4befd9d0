//! The price and score tables: the queries that are sent, in which batches, and
//! when one is sent again.
use crate::batches::{batches, Batch};
use crate::dates::epoch_day_text;
use crate::text::{escape_quotes, join, same_text, signed_decimal_text};
use vstd::prelude::*;
use vstd::string::*;

verus! {

/// Tickers that one price query asks for; more run into the memory limit of the
/// server.
pub const TICKERS_PER_QUERY: usize = 25;

/// How often a price query without rows is sent in all.
pub const MAX_ATTEMPTS: usize = 3;

/// Seconds between two attempts.
pub const PAUSE_SECONDS: u64 = 5;

/// Rows of one insert in the binary format.
pub const BINARY_BATCH: usize = 1000;

/// Rows of one insert by a query.
pub const QUERY_BATCH: usize = 50;

/// Milliseconds between two inserts by a query.
pub const INSERT_PAUSE_MILLIS: u64 = 100;

/// The daily prices of crypto currencies for production, part 1 of 2.
pub const CRYPTO_PRODUCTION_1: &'static str = "WITH primary_quotes AS (
                    -- Step 1: Find the quote currency with the max volume for each (baseCurrency, date)
                    SELECT
                        baseCurrency,
                        date,
                        quoteCurrency,
                        open,
                        high,
                        low,
                        close,
                        volume,
                        volumeNotional,
                        tradesDone,
                        ticker
                    FROM (
                        SELECT
                            baseCurrency,
                            date,
                            quoteCurrency,
                            open,
                            high,
                            low,
                            close,
                            volume,
                            volumeNotional,
                            tradesDone,
                            ticker,
                            row_number() OVER (PARTITION BY baseCurrency, date ORDER BY volume DESC) as volume_rank
                        FROM crypto
                    ) WHERE volume_rank = 1
                ),
                univ AS (
                    -- Step 2: Your original universe selection logic, now applied to the de-duplicated data
                    SELECT
                        baseCurrency ticker,
                        max(formatDateTime(date, '%Y-%m-%d')) maxdate
                    FROM primary_quotes -- Use the de-duplicated data here
                    WHERE baseCurrency IN (";

/// The daily prices of crypto currencies for production, part 2 of 2.
pub const CRYPTO_PRODUCTION_2: &'static str = ")
                    GROUP BY ticker
                    HAVING count(date) > 500 AND COUNT(*) * 2 - COUNT(high) - COUNT(low) = 0
                )
                -- Step 3: Final selection, also joining against the de-duplicated data
                SELECT
                    formatDateTime(date, '%Y-%m-%d') Date,
                    u.ticker Ticker,
                    'Crypto' as Universe,
                    pq.open AS Open,
                    pq.high AS High,
                    pq.low AS Low,
                    pq.close AS Close,
                    pq.volume AS Volume
                FROM primary_quotes pq -- Use the de-duplicated data here
                INNER JOIN univ u ON u.ticker = pq.baseCurrency
                WHERE pq.date > '2020-01-01' AND NOT match(u.ticker, '\\d[ls]$')
                ORDER BY Ticker, Date";

/// The daily prices of stocks for production, part 1 of 3.
pub const STOCK_PRODUCTION_1: &'static str = "WITH
                    max_usd_date AS (
                        SELECT max(date(formatDateTime(date, '%Y-%m-%d'))) AS max_date
                        FROM usd
                    ),
                    mdate AS (
                        SELECT symbol, max(date) AS maxdate
                        FROM usd p
                        WHERE symbol IN (";

/// The daily prices of stocks for production, part 2 of 3.
pub const STOCK_PRODUCTION_2: &'static str = ")
                        group by symbol
                        having count(date) >= 130 and COUNT(*) * 2 - COUNT(adjHigh) - COUNT(adjLow) = 0
                    )
                    SELECT toString(date) Date
                    , p.symbol AS Ticker
                    , '";

/// The daily prices of stocks for production, part 3 of 3.
pub const STOCK_PRODUCTION_3: &'static str = "' AS Universe
                    , round(adjOpen, 2) AS Open
                    , round(adjHigh, 2) AS High
                    , round(adjLow, 2) AS Low
                    , round(adjClose, 2) AS Close
                    , round(adjVolume, 2) AS Volume
                    FROM usd p FINAL
                    INNER JOIN mdate m ON m.symbol = p.symbol
                    CROSS JOIN max_usd_date mu
                    WHERE p.date >= subtractDays(now(), 365)
                    AND m.maxdate = mu.max_date
                    order by Ticker, Date";

/// The daily prices of crypto currencies for testing, part 1 of 2.
pub const CRYPTO_TESTING_1: &'static str = "WITH primary_quotes AS (
                    -- Step 1: Find the quote currency with the max volume for each (baseCurrency, date)
                    SELECT
                        baseCurrency,
                        date,
                        quoteCurrency,
                        open,
                        high,
                        low,
                        close,
                        volume,
                        volumeNotional,
                        tradesDone,
                        ticker
                    FROM (
                        SELECT
                            baseCurrency,
                            date,
                            quoteCurrency,
                            open,
                            high,
                            low,
                            close,
                            volume,
                            volumeNotional,
                            tradesDone,
                            ticker,
                            row_number() OVER (PARTITION BY baseCurrency, date ORDER BY volume DESC) as volume_rank
                        FROM crypto
                    ) WHERE volume_rank = 1
                ),
                univ AS (
                    -- Step 2: Your original universe selection logic, now applied to the de-duplicated data
                    SELECT
                        baseCurrency ticker,
                        max(formatDateTime(date, '%Y-%m-%d')) maxdate
                    FROM primary_quotes
                    WHERE baseCurrency IN (";

/// The daily prices of crypto currencies for testing, part 2 of 2.
pub const CRYPTO_TESTING_2: &'static str = ")
                    GROUP BY ticker
                    HAVING count(date) > 500 AND COUNT(*) * 2 - COUNT(high) - COUNT(low) = 0
                )
                -- Step 3: Final selection, also joining against the de-duplicated data
                SELECT
                    formatDateTime(pq.date, '%Y-%m-%d') Date,
                    u.ticker Ticker,
                    'Crypto' as Universe,
                    pq.open AS Open,
                    pq.high AS High,
                    pq.low AS Low,
                    pq.close AS Close,
                    pq.volume AS Volume
                FROM primary_quotes pq -- Use the de-duplicated data here
                INNER JOIN univ u ON u.ticker = pq.baseCurrency
                WHERE pq.date > '2020-01-01' AND NOT match(u.ticker, '\\d[ls]$')
                ORDER BY Ticker, Date";

/// The daily prices of stocks for testing, part 1 of 3.
pub const STOCK_TESTING_1: &'static str = "WITH
                    max_usd_date AS (
                        SELECT max(date(formatDateTime(date, '%Y-%m-%d'))) AS max_date
                        FROM usd
                    ),
                    mdate AS (
                        SELECT symbol, max(date(formatDateTime(date, '%Y-%m-%d'))) AS maxdate
                        FROM usd p
                        WHERE symbol IN (";

/// The daily prices of stocks for testing, part 2 of 3.
pub const STOCK_TESTING_2: &'static str = ")
                        group by symbol
                        having count(date) >= 250 and COUNT(*) * 2 - COUNT(adjHigh) - COUNT(adjLow) = 0
                    )
                    SELECT toString(date(formatDateTime(p.date, '%Y-%m-%d'))) Date
                    , p.symbol AS Ticker
                    , '";

/// The daily prices of stocks for testing, part 3 of 3.
pub const STOCK_TESTING_3: &'static str = "' AS Universe
                    , round(adjOpen, 2) AS Open
                    , round(adjHigh, 2) AS High
                    , round(adjLow, 2) AS Low
                    , round(adjClose, 2) AS Close
                    , round(adjVolume, 2) AS Volume
                    FROM usd p FINAL
                    INNER JOIN mdate m ON m.symbol = p.symbol
                    CROSS JOIN max_usd_date mu
                    WHERE p.date >= subtractDays(now(), 365)
                    AND m.maxdate = mu.max_date
                    order by Ticker, Date";

/// A server.
#[derive(Clone, Copy, PartialEq, Eq, Structural, Debug)]
pub enum ChConnectionType {
    Local,
    Remote,
}

/// How a server is reached. The password is not among the settings.
pub struct ClientSettings {
    pub url: String,
    pub user: String,
    pub database: String,
    pub label: String,
}

impl ChConnectionType {
    pub open spec fn url(self) -> Seq<char> {
        match self {
            ChConnectionType::Local => "http://192.168.86.46:8123"@,
            ChConnectionType::Remote => "http://192.168.86.56:8123"@,
        }
    }

    pub open spec fn label(self) -> Seq<char> {
        match self {
            ChConnectionType::Local => "Local"@,
            ChConnectionType::Remote => "Remote"@,
        }
    }
}

/// The settings of a server.
pub fn get_ch_client(connection_type: ChConnectionType) -> (r: ClientSettings)
    ensures
        r.url@ == connection_type.url(),
        r.user@ == "roger"@,
        r.database@ == "tiingo"@,
        r.label@ == connection_type.label(),
{
    let (url, label) = match connection_type {
        ChConnectionType::Local => ("http://192.168.86.46:8123".to_owned(), "Local".to_owned()),
        ChConnectionType::Remote => ("http://192.168.86.56:8123".to_owned(), "Remote".to_owned()),
    };
    ClientSettings { url, user: "roger".to_owned(), database: "tiingo".to_owned(), label }
}

/// The query for the tickers of a universe.
pub open spec fn universe_query(univ: Seq<char>) -> Seq<char> {
    if univ == "Crypto"@ {
        "SELECT DISTINCT baseCurrency FROM crypto ORDER BY baseCurrency"@
    } else {
        "SELECT DISTINCT Ticker FROM univ WHERE batch = '"@ + univ + "' ORDER BY Ticker"@
    }
}

/// The query for the tickers of a universe.
pub fn get_universe_tickers(univ: &str) -> (r: String)
    ensures
        r@ == universe_query(univ@),
{
    if same_text(univ, "Crypto") {
        "SELECT DISTINCT baseCurrency FROM crypto ORDER BY baseCurrency".to_owned()
    } else {
        let mut s = "SELECT DISTINCT Ticker FROM univ WHERE batch = '".to_owned();
        s.append(univ);
        s.append("' ORDER BY Ticker");
        s
    }
}

/// The text in single quotes.
pub open spec fn quoted(s: Seq<char>) -> Seq<char> {
    "'"@ + s + "'"@
}

/// The tickers in quotes, a comma between each two.
pub open spec fn ticker_list(tickers: Seq<String>) -> Seq<char> {
    crate::text::joined(Seq::new(tickers.len(), |i: int| quoted(tickers[i]@)), ","@)
}

fn list_tickers(tickers: &Vec<String>) -> (r: String)
    ensures
        r@ == ticker_list(tickers@),
{
    let mut parts: Vec<String> = Vec::new();
    let mut i: usize = 0;
    while i < tickers.len()
        invariant
            i <= tickers@.len(),
            parts@.len() == i,
            forall|k: int| 0 <= k < i ==> (#[trigger] parts@[k])@ == quoted(tickers@[k]@),
        decreases tickers@.len() - i,
    {
        let mut s = "'".to_owned();
        s.append(tickers[i].as_str());
        s.append("'");
        parts.push(s);
        i += 1;
    }
    proof {
        assert(crate::text::texts(parts@) =~= Seq::new(
            tickers@.len(),
            |i: int| quoted(tickers@[i]@),
        ));
    }
    join(&parts, ",")
}

/// The query for the daily prices of some tickers of a universe.
pub open spec fn price_query_text(
    production: bool,
    univ: Seq<char>,
    tickers: Seq<String>,
) -> Seq<char> {
    let list = ticker_list(tickers);
    if univ == "Crypto"@ {
        if production {
            CRYPTO_PRODUCTION_1@ + list + CRYPTO_PRODUCTION_2@
        } else {
            CRYPTO_TESTING_1@ + list + CRYPTO_TESTING_2@
        }
    } else if production {
        STOCK_PRODUCTION_1@ + list + STOCK_PRODUCTION_2@ + univ + STOCK_PRODUCTION_3@
    } else {
        STOCK_TESTING_1@ + list + STOCK_TESTING_2@ + univ + STOCK_TESTING_3@
    }
}

/// The query for the daily prices of some tickers of a universe.
pub fn price_query(production: bool, univ: &str, tickers: &Vec<String>) -> (r: String)
    ensures
        r@ == price_query_text(production, univ@, tickers@),
{
    let list = list_tickers(tickers);
    if same_text(univ, "Crypto") {
        let (head, tail) = if production {
            (CRYPTO_PRODUCTION_1, CRYPTO_PRODUCTION_2)
        } else {
            (CRYPTO_TESTING_1, CRYPTO_TESTING_2)
        };
        let mut s = head.to_owned();
        s.append(list.as_str());
        s.append(tail);
        s
    } else {
        let (head, middle, tail) = if production {
            (STOCK_PRODUCTION_1, STOCK_PRODUCTION_2, STOCK_PRODUCTION_3)
        } else {
            (STOCK_TESTING_1, STOCK_TESTING_2, STOCK_TESTING_3)
        };
        let mut s = head.to_owned();
        s.append(list.as_str());
        s.append(middle);
        s.append(univ);
        s.append(tail);
        s
    }
}

/// The tickers at the places of a batch.
pub open spec fn tickers_of(tickers: Seq<String>, b: Batch) -> Seq<String> {
    tickers.subrange(b.start as int, b.end as int)
}

/// The queries that together ask for the prices of all tickers, in their order.
pub fn write_price_file(production: bool, univ: &str, tickers: &Vec<String>) -> (queries: Vec<
    String,
>)
    ensures
        queries@.len() == crate::batches::batch_count(
            tickers@.len() as int,
            TICKERS_PER_QUERY as int,
        ),
        forall|k: int|
            0 <= k < queries@.len() ==> (#[trigger] queries@[k])@ == price_query_text(
                production,
                univ@,
                tickers_of(
                    tickers@,
                    crate::batches::batch(tickers@.len() as int, TICKERS_PER_QUERY as int, k),
                ),
            ),
{
    let n: usize = tickers.len();
    let parts = batches(n, TICKERS_PER_QUERY);
    let mut queries: Vec<String> = Vec::new();
    let mut k: usize = 0;
    while k < parts.len()
        invariant
            n == tickers@.len(),
            parts@ == Seq::new(
                crate::batches::batch_count(n as int, TICKERS_PER_QUERY as int) as nat,
                |k: int| crate::batches::batch(n as int, TICKERS_PER_QUERY as int, k),
            ),
            k <= parts@.len(),
            queries@.len() == k,
            forall|j: int|
                0 <= j < k ==> (#[trigger] queries@[j])@ == price_query_text(
                    production,
                    univ@,
                    tickers_of(tickers@, parts@[j]),
                ),
        decreases parts@.len() - k,
    {
        proof {
            crate::batches::law_batches_cover_the_list(
                n as int,
                TICKERS_PER_QUERY as int,
                k as int,
            );
        }
        let b = parts[k];
        let mut chunk: Vec<String> = Vec::new();
        let mut i: usize = b.start;
        while i < b.end
            invariant
                b.start <= i <= b.end <= tickers@.len(),
                chunk@ =~= tickers@.subrange(b.start as int, i as int),
            decreases b.end - i,
        {
            chunk.push(tickers[i].clone());
            i += 1;
        }
        queries.push(price_query(production, univ, &chunk));
        k += 1;
    }
    queries
}

/// The columns of a price file, in their order.
pub open spec fn price_column_names() -> Seq<Seq<char>> {
    seq![
        "Date"@,
        "Ticker"@,
        "Universe"@,
        "Open"@,
        "High"@,
        "Low"@,
        "Close"@,
        "Volume"@,
    ]
}

/// The columns of a price file, in their order.
pub fn price_columns() -> (r: Vec<String>)
    ensures
        crate::text::texts(r@) == price_column_names(),
{
    let mut out: Vec<String> = Vec::new();
    out.push("Date".to_owned());
    out.push("Ticker".to_owned());
    out.push("Universe".to_owned());
    out.push("Open".to_owned());
    out.push("High".to_owned());
    out.push("Low".to_owned());
    out.push("Close".to_owned());
    out.push("Volume".to_owned());
    proof {
        assert(crate::text::texts(out@) =~= price_column_names());
    }
    out
}

/// What follows an attempt to fetch the prices of a batch of tickers.
#[derive(Clone, Copy, PartialEq, Eq, Structural, Debug)]
pub enum ChunkStep {
    /// Rows came back; the next batch follows.
    Done,
    /// No rows came back; the query is sent again after a pause.
    Retry,
    /// No rows came back and the attempts are used up; the next batch follows.
    GiveUp,
}

/// What follows the attempt number `attempts`, counted from one.
pub fn chunk_step(attempts: usize, wrote_row: bool) -> (r: ChunkStep)
    requires
        1 <= attempts <= MAX_ATTEMPTS,
    ensures
        r == (if wrote_row {
            ChunkStep::Done
        } else if attempts < MAX_ATTEMPTS {
            ChunkStep::Retry
        } else {
            ChunkStep::GiveUp
        }),
{
    if wrote_row {
        ChunkStep::Done
    } else if attempts < MAX_ATTEMPTS {
        ChunkStep::Retry
    } else {
        ChunkStep::GiveUp
    }
}

/// A row of the score table. The date is in days after 1 January 1970; the
/// figures are held by their decimal forms.
pub struct ScoreRow {
    pub date: i32,
    pub universe: String,
    pub ticker: String,
    pub side: i64,
    pub risk_reward: String,
    pub expectancy: String,
    pub profit_factor: String,
    pub pos_conf: String,
    pub neg_conf: String,
}

impl ScoreRow {
    /// The date of the row exists.
    pub open spec fn dated(&self) -> bool {
        crate::dates::first_day() <= crate::dates::EPOCH_DAY + self.date
            <= crate::dates::last_day()
    }

    /// The row as a tuple of values. Quotes within the ticker are written twice.
    pub open spec fn text(&self) -> Seq<char> {
        let date = crate::dates::date_at(crate::dates::EPOCH_DAY + self.date);
        "('"@ + date.text() + "', '"@ + self.universe@ + "', '"@ + crate::text::doubled(
            self.ticker@,
            '\'',
        ) + "', "@ + crate::text::signed_decimal(self.side as int) + ", "@ + self.risk_reward@
            + ", "@ + self.expectancy@ + ", "@ + self.profit_factor@ + ", "@ + self.pos_conf@
            + ", "@ + self.neg_conf@ + ")"@
    }

    fn values(&self) -> (r: String)
        requires
            self.dated(),
        ensures
            r@ == self.text(),
    {
        let date = epoch_day_text(self.date);
        let mut s = "('".to_owned();
        s.append(date.as_str());
        s.append("', '");
        s.append(self.universe.as_str());
        s.append("', '");
        let ticker = escape_quotes(self.ticker.as_str());
        s.append(ticker.as_str());
        s.append("', ");
        let side = signed_decimal_text(self.side);
        s.append(side.as_str());
        s.append(", ");
        s.append(self.risk_reward.as_str());
        s.append(", ");
        s.append(self.expectancy.as_str());
        s.append(", ");
        s.append(self.profit_factor.as_str());
        s.append(", ");
        s.append(self.pos_conf.as_str());
        s.append(", ");
        s.append(self.neg_conf.as_str());
        s.append(")");
        s
    }
}

/// The head of an insert into the score table.
pub const INSERT_HEAD: &'static str = "INSERT INTO lppl_score (date, universe, ticker, side, risk_reward, expectancy, profit_factor, pos_conf, neg_conf) VALUES ";

/// The query that inserts the rows of a batch.
pub open spec fn insert_text(rows: Seq<ScoreRow>, b: Batch) -> Seq<char> {
    INSERT_HEAD@ + crate::text::joined(
        Seq::new((b.end - b.start) as nat, |i: int| rows[b.start + i].text()),
        ", "@,
    )
}

/// The queries that insert the rows into the score table, a batch at a time.
pub fn insert_score_dataframe(rows: &Vec<ScoreRow>) -> (queries: Vec<String>)
    requires
        forall|i: int| 0 <= i < rows@.len() ==> (#[trigger] rows@[i]).dated(),
    ensures
        queries@.len() == crate::batches::batch_count(rows@.len() as int, QUERY_BATCH as int),
        forall|k: int|
            0 <= k < queries@.len() ==> (#[trigger] queries@[k])@ == insert_text(
                rows@,
                crate::batches::batch(rows@.len() as int, QUERY_BATCH as int, k),
            ),
{
    let n: usize = rows.len();
    let parts = batches(n, QUERY_BATCH);
    let mut queries: Vec<String> = Vec::new();
    let mut k: usize = 0;
    while k < parts.len()
        invariant
            n == rows@.len(),
            forall|i: int| 0 <= i < rows@.len() ==> (#[trigger] rows@[i]).dated(),
            parts@ == Seq::new(
                crate::batches::batch_count(n as int, QUERY_BATCH as int) as nat,
                |k: int| crate::batches::batch(n as int, QUERY_BATCH as int, k),
            ),
            k <= parts@.len(),
            queries@.len() == k,
            forall|j: int|
                0 <= j < k ==> (#[trigger] queries@[j])@ == insert_text(rows@, parts@[j]),
        decreases parts@.len() - k,
    {
        proof {
            crate::batches::law_batches_cover_the_list(n as int, QUERY_BATCH as int, k as int);
        }
        let b = parts[k];
        let mut values: Vec<String> = Vec::new();
        let mut i: usize = b.start;
        while i < b.end
            invariant
                b.start <= i <= b.end <= rows@.len(),
                forall|i: int| 0 <= i < rows@.len() ==> (#[trigger] rows@[i]).dated(),
                values@.len() == i - b.start,
                forall|j: int|
                    0 <= j < values@.len() ==> (#[trigger] values@[j])@ == rows@[b.start
                        + j].text(),
            decreases b.end - i,
        {
            values.push(rows[i].values());
            i += 1;
        }
        let mut s = INSERT_HEAD.to_owned();
        let list = join(&values, ", ");
        s.append(list.as_str());
        proof {
            assert(crate::text::texts(values@) =~= Seq::new(
                (b.end - b.start) as nat,
                |i: int| rows@[b.start + i].text(),
            ));
        }
        queries.push(s);
        k += 1;
    }
    queries
}

/// Whether the progress is printed once `done` of `rows` rows are inserted.
pub fn reports_progress(done: usize, rows: usize) -> (r: bool)
    ensures
        r == (done % 100 == 0 || done == rows),
{
    done % 100 == 0 || done == rows
}

/// `s` with every pair of `c` written once.
pub open spec fn halved(s: Seq<char>, c: char) -> Seq<char>
    decreases s.len(),
{
    if s.len() == 0 {
        s
    } else if s.len() >= 2 && s.last() == c && s[s.len() - 2] == c {
        halved(s.drop_last().drop_last(), c).push(c)
    } else {
        halved(s.drop_last(), c).push(s.last())
    }
}

/// A text whose quotes are written twice reads back as it was.
pub proof fn law_escaped_text_reads_back(s: Seq<char>, c: char)
    ensures
        halved(crate::text::doubled(s, c), c) == s,
    decreases s.len(),
{
    if s.len() > 0 {
        law_escaped_text_reads_back(s.drop_last(), c);
        let rest = crate::text::doubled(s.drop_last(), c);
        let all = crate::text::doubled(s, c);
        if s.last() == c {
            assert(all.drop_last().drop_last() =~= rest);
        } else {
            assert(all.drop_last() =~= rest);
        }
        assert(s =~= s.drop_last().push(s.last()));
    }
}

/// Every ticker is asked for in exactly one query, of at most twenty-five
/// tickers.
pub proof fn law_every_ticker_is_asked_for(tickers: Seq<String>, i: int)
    requires
        0 <= i < tickers.len() <= usize::MAX,
    ensures
        exists|k: int|
            0 <= k < crate::batches::batch_count(tickers.len() as int, TICKERS_PER_QUERY as int) && {
                let b = #[trigger] crate::batches::batch(
                    tickers.len() as int,
                    TICKERS_PER_QUERY as int,
                    k,
                );
                &&& b.start <= i < b.end
                &&& tickers_of(tickers, b)[i - b.start] == tickers[i]
                &&& tickers_of(tickers, b).len() <= 25
            },
        forall|j: int, k: int|
            0 <= j < k < crate::batches::batch_count(
                tickers.len() as int,
                TICKERS_PER_QUERY as int,
            ) ==> (#[trigger] crate::batches::batch(
                tickers.len() as int,
                TICKERS_PER_QUERY as int,
                j,
            )).end <= (#[trigger] crate::batches::batch(
                tickers.len() as int,
                TICKERS_PER_QUERY as int,
                k,
            )).start,
{
    let n = tickers.len() as int;
    let size = TICKERS_PER_QUERY as int;
    crate::batches::law_place_has_one_batch(n, size, i);
    crate::batches::law_batches_cover_the_list(n, size, i / size);
    let b = crate::batches::batch(n, size, i / size);
    assert(tickers_of(tickers, b)[i - b.start] == tickers[i]);
    assert forall|j: int, k: int|
        0 <= j < k < crate::batches::batch_count(n, size) implies (#[trigger] crate::batches::batch(
        n,
        size,
        j,
    )).end <= (#[trigger] crate::batches::batch(n, size, k)).start by {
        crate::batches::law_batches_cover_the_list(n, size, j);
        crate::batches::law_batches_cover_the_list(n, size, k);
    }
}

/// A price query names its tickers in quotes with commas between them, and one
/// for stocks its universe too, within the text for its assets and its kind of
/// run.
pub proof fn law_queries_name_their_tickers(
    production: bool,
    univ: Seq<char>,
    tickers: Seq<String>,
    ticker: String,
)
    ensures
        ticker_list(seq![ticker]) == "'"@ + ticker@ + "'"@,
        tickers.len() > 0 ==> ticker_list(tickers.push(ticker)) == ticker_list(tickers) + ","@ + (
        "'"@ + ticker@ + "'"@),
        univ == "Crypto"@ && production ==> price_query_text(production, univ, tickers)
            == CRYPTO_PRODUCTION_1@ + ticker_list(tickers) + CRYPTO_PRODUCTION_2@,
        univ == "Crypto"@ && !production ==> price_query_text(production, univ, tickers)
            == CRYPTO_TESTING_1@ + ticker_list(tickers) + CRYPTO_TESTING_2@,
        univ != "Crypto"@ && production ==> price_query_text(production, univ, tickers)
            == STOCK_PRODUCTION_1@ + ticker_list(tickers) + STOCK_PRODUCTION_2@ + univ
            + STOCK_PRODUCTION_3@,
        univ != "Crypto"@ && !production ==> price_query_text(production, univ, tickers)
            == STOCK_TESTING_1@ + ticker_list(tickers) + STOCK_TESTING_2@ + univ
            + STOCK_TESTING_3@,
{
    let parts = Seq::new(tickers.len(), |i: int| quoted(tickers[i]@));
    let longer = tickers.push(ticker);
    assert(Seq::new(longer.len(), |i: int| quoted(longer[i]@)) =~= parts.push(quoted(ticker@)));
    crate::text::law_joined_adds_a_part(parts, ","@, quoted(ticker@));
    let one = seq![ticker];
    assert(Seq::new(one.len(), |i: int| quoted(one[i]@)) =~= seq![quoted(ticker@)]);
}

/// Every row is inserted by exactly one query, in its order.
pub proof fn law_every_score_is_inserted(rows: Seq<ScoreRow>, i: int)
    requires
        0 <= i < rows.len() <= usize::MAX,
    ensures
        exists|k: int|
            0 <= k < crate::batches::batch_count(rows.len() as int, QUERY_BATCH as int) && {
                let b = #[trigger] crate::batches::batch(
                    rows.len() as int,
                    QUERY_BATCH as int,
                    k,
                );
                b.start <= i < b.end <= rows.len() && b.end - b.start <= 50
            },
        forall|j: int, k: int|
            0 <= j < k < crate::batches::batch_count(rows.len() as int, QUERY_BATCH as int) ==> (
            #[trigger] crate::batches::batch(rows.len() as int, QUERY_BATCH as int, j)).end <= (
            #[trigger] crate::batches::batch(rows.len() as int, QUERY_BATCH as int, k)).start,
{
    let n = rows.len() as int;
    let size = QUERY_BATCH as int;
    crate::batches::law_place_has_one_batch(n, size, i);
    crate::batches::law_batches_cover_the_list(n, size, i / size);
    assert forall|j: int, k: int|
        0 <= j < k < crate::batches::batch_count(n, size) implies (#[trigger] crate::batches::batch(
        n,
        size,
        j,
    )).end <= (#[trigger] crate::batches::batch(n, size, k)).start by {
        crate::batches::law_batches_cover_the_list(n, size, j);
        crate::batches::law_batches_cover_the_list(n, size, k);
    }
}

/// An insert holds each row of its batch: one more row adds a comma and the row.
pub proof fn law_inserts_hold_their_rows(rows: Seq<ScoreRow>, b: Batch)
    requires
        b.start < b.end < rows.len() <= usize::MAX,
    ensures
        insert_text(rows, Batch { start: b.start, end: (b.start + 1) as usize }) == INSERT_HEAD@
            + rows[b.start as int].text(),
        insert_text(rows, Batch { start: b.start, end: (b.end + 1) as usize }) == insert_text(
            rows,
            b,
        ) + ", "@ + rows[b.end as int].text(),
{
    let parts = Seq::new((b.end - b.start) as nat, |i: int| rows[b.start + i].text());
    let x = rows[b.end as int].text();
    let more = Batch { start: b.start, end: (b.end + 1) as usize };
    let one = Batch { start: b.start, end: (b.start + 1) as usize };
    assert(Seq::new((more.end - more.start) as nat, |i: int| rows[more.start + i].text())
        =~= parts.push(x));
    assert(Seq::new((one.end - one.start) as nat, |i: int| rows[one.start + i].text()) =~= seq![
        rows[b.start as int].text(),
    ]);
    crate::text::law_joined_adds_a_part(parts, ", "@, x);
    crate::text::law_joined_adds_a_part(parts, ", "@, rows[b.start as int].text());
    assert(insert_text(rows, more) =~= insert_text(rows, b) + ", "@ + x);
}

/// The query for the tickers of a universe asks for the crypto currencies or
/// names the universe; those of two universes of stocks differ.
pub proof fn law_universe_queries_differ(univ: Seq<char>, other: Seq<char>)
    ensures
        univ != "Crypto"@ ==> universe_query(univ)
            == "SELECT DISTINCT Ticker FROM univ WHERE batch = '"@ + univ + "' ORDER BY Ticker"@,
        univ != "Crypto"@ && other != "Crypto"@ && universe_query(univ) == universe_query(other)
            ==> univ == other,
{
    if univ != "Crypto"@ && other != "Crypto"@ && universe_query(univ) == universe_query(other) {
        crate::paths::lemma_same_between(
            "SELECT DISTINCT Ticker FROM univ WHERE batch = '"@,
            univ,
            other,
            "' ORDER BY Ticker"@,
        );
    }
}

} // verus!

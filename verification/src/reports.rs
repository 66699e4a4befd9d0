//! What a run reports: the tables it can read, the files it writes, the lists
//! of its signals, and the coverage of the tickers.
use crate::groups::{group_rows, known_rows};
use crate::paths::{group_performance_file, signal_list_file, tested_performance_file};
use crate::sorting::{all_rows, sort_rows, ByKnownText, ByRank, ByText};
use crate::text::{holds_text, remove_char, same_text, unquote};
use polars::prelude::{StringChunked, StringMethods};
use vstd::prelude::*;

verus! {

/// Why tables could not be put together.
#[derive(Clone, Copy, PartialEq, Eq, Structural, Debug)]
pub enum ConcatError {
    NoTables,
}

impl ConcatError {
    pub open spec fn message(self) -> Seq<char> {
        "No DataFrames to concatenate."@
    }

    pub fn text(&self) -> (r: String)
        ensures
            r@ == self.message(),
    {
        "No DataFrames to concatenate.".to_owned()
    }
}

/// The column types of two tables agree, as far as both have columns.
pub open spec fn is_compatible(types: Seq<Seq<char>>, reference: Seq<Seq<char>>) -> bool {
    forall|i: int|
        0 <= i < types.len() && i < reference.len() ==> #[trigger] types[i] == reference[i]
}

/// The column types of each table.
pub open spec fn table_types(tables: Seq<Vec<String>>) -> Seq<Seq<Seq<char>>> {
    Seq::new(tables.len(), |i: int| crate::text::texts(tables[i]@))
}

/// The tables that agree with a reference.
pub open spec fn compatible_tables(
    tables: Seq<Seq<Seq<char>>>,
    reference: Seq<Seq<char>>,
) -> Seq<usize>
    decreases tables.len(),
{
    if tables.len() == 0 {
        Seq::empty()
    } else {
        let before = compatible_tables(tables.drop_last(), reference);
        if is_compatible(tables.last(), reference) {
            before.push((tables.len() - 1) as usize)
        } else {
            before
        }
    }
}

fn types_agree(types: &Vec<String>, reference: &Vec<String>) -> (r: bool)
    ensures
        r == is_compatible(crate::text::texts(types@), crate::text::texts(reference@)),
{
    let mut i: usize = 0;
    while i < types.len() && i < reference.len()
        invariant
            i <= types@.len(),
            i <= reference@.len(),
            forall|k: int| 0 <= k < i ==> #[trigger] types@[k]@ == reference@[k]@,
        decreases types@.len() - i,
    {
        if !same_text(types[i].as_str(), reference[i].as_str()) {
            proof {
                assert(crate::text::texts(types@)[i as int] != crate::text::texts(
                    reference@,
                )[i as int]);
            }
            return false;
        }
        i += 1;
    }
    proof {
        let a = crate::text::texts(types@);
        let b = crate::text::texts(reference@);
        assert forall|k: int| 0 <= k < a.len() && k < b.len() implies #[trigger] a[k] == b[k] by {
            assert(types@[k]@ == reference@[k]@);
        }
    }
    true
}

/// The tables that can be put together with the first one, which is among them.
pub fn concat_dataframes(tables: &Vec<Vec<String>>) -> (r: Result<Vec<usize>, ConcatError>)
    ensures
        tables@.len() == 0 <==> r is Err,
        r matches Ok(rows) ==> rows@ == compatible_tables(
            table_types(tables@),
            crate::text::texts(tables@[0]@),
        ),
        r matches Err(e) ==> e == ConcatError::NoTables,
{
    if tables.len() == 0 {
        return Err(ConcatError::NoTables);
    }
    let ghost all = table_types(tables@);
    let ghost reference = crate::text::texts(tables@[0]@);
    let mut rows: Vec<usize> = Vec::new();
    let mut i: usize = 0;
    while i < tables.len()
        invariant
            i <= tables@.len(),
            tables@.len() > 0,
            all == table_types(tables@),
            reference == crate::text::texts(tables@[0]@),
            rows@ == compatible_tables(all.take(i as int), reference),
        decreases tables@.len() - i,
    {
        proof {
            assert(all.take(i + 1).drop_last() =~= all.take(i as int));
        }
        if types_agree(&tables[i], &tables[0]) {
            rows.push(i);
        }
        i += 1;
    }
    proof {
        assert(all.take(tables@.len() as int) =~= all);
    }
    Ok(rows)
}

/// The columns of a backtest table.
pub open spec fn backtest_column_names() -> Seq<Seq<char>> {
    seq![
        "ticker"@,
        "universe"@,
        "strategy"@,
        "expectancy"@,
        "profit_factor"@,
        "hit_ratio"@,
        "realized_risk_reward"@,
        "avg_gain"@,
        "avg_loss"@,
        "max_gain"@,
        "max_loss"@,
        "buys"@,
        "sells"@,
        "trades"@,
        "date"@,
        "buy"@,
        "sell"@,
        "pos_conf"@,
        "neg_conf"@,
    ]
}

/// The columns of a backtest table.
pub fn backtest_columns() -> (r: Vec<String>)
    ensures
        crate::text::texts(r@) == backtest_column_names(),
{
    let mut out: Vec<String> = Vec::new();
    out.push("ticker".to_owned());
    out.push("universe".to_owned());
    out.push("strategy".to_owned());
    out.push("expectancy".to_owned());
    out.push("profit_factor".to_owned());
    out.push("hit_ratio".to_owned());
    out.push("realized_risk_reward".to_owned());
    out.push("avg_gain".to_owned());
    out.push("avg_loss".to_owned());
    out.push("max_gain".to_owned());
    out.push("max_loss".to_owned());
    out.push("buys".to_owned());
    out.push("sells".to_owned());
    out.push("trades".to_owned());
    out.push("date".to_owned());
    out.push("buy".to_owned());
    out.push("sell".to_owned());
    out.push("pos_conf".to_owned());
    out.push("neg_conf".to_owned());
    proof {
        assert(crate::text::texts(out@) =~= backtest_column_names());
    }
    out
}

/// The columns of a backtest table whose gaps are read as zero.
pub open spec fn filled_column_names() -> Seq<Seq<char>> {
    seq![
        "expectancy"@,
        "profit_factor"@,
        "hit_ratio"@,
        "realized_risk_reward"@,
        "avg_gain"@,
        "avg_loss"@,
        "max_gain"@,
        "max_loss"@,
    ]
}

/// The columns of a backtest table whose gaps are read as zero.
pub fn filled_columns() -> (r: Vec<String>)
    ensures
        crate::text::texts(r@) == filled_column_names(),
{
    let mut out: Vec<String> = Vec::new();
    out.push("expectancy".to_owned());
    out.push("profit_factor".to_owned());
    out.push("hit_ratio".to_owned());
    out.push("realized_risk_reward".to_owned());
    out.push("avg_gain".to_owned());
    out.push("avg_loss".to_owned());
    out.push("max_gain".to_owned());
    out.push("max_loss".to_owned());
    proof {
        assert(crate::text::texts(out@) =~= filled_column_names());
    }
    out
}

/// Gaps are filled only in columns that a backtest table has.
pub proof fn law_filled_columns_are_backtest_columns(k: int)
    requires
        0 <= k < filled_column_names().len(),
    ensures
        backtest_column_names().contains(filled_column_names()[k]),
{
    let names = backtest_column_names();
    assert(names[3 + k] == filled_column_names()[k]);
}

/// The columns of a table of signals.
pub open spec fn signal_column_names() -> Seq<Seq<char>> {
    seq![
        "ticker"@,
        "universe"@,
        "strategy"@,
        "date"@,
        "buy"@,
        "sell"@,
        "pos_conf"@,
        "neg_conf"@,
    ]
}

/// The columns of a table of signals.
pub fn signal_columns() -> (r: Vec<String>)
    ensures
        crate::text::texts(r@) == signal_column_names(),
{
    let mut out: Vec<String> = Vec::new();
    out.push("ticker".to_owned());
    out.push("universe".to_owned());
    out.push("strategy".to_owned());
    out.push("date".to_owned());
    out.push("buy".to_owned());
    out.push("sell".to_owned());
    out.push("pos_conf".to_owned());
    out.push("neg_conf".to_owned());
    proof {
        assert(crate::text::texts(out@) =~= signal_column_names());
    }
    out
}

/// Whether a table has every column of a backtest; it may have others too.
pub fn is_backtest_table(names: &Vec<String>) -> (r: bool)
    ensures
        r == forall|k: int|
            0 <= k < backtest_column_names().len() ==> crate::text::texts(names@).contains(
                #[trigger] backtest_column_names()[k],
            ),
{
    let required = backtest_columns();
    let mut i: usize = 0;
    while i < required.len()
        invariant
            i <= required@.len(),
            crate::text::texts(required@) == backtest_column_names(),
            forall|k: int|
                0 <= k < i ==> crate::text::texts(names@).contains(
                    #[trigger] backtest_column_names()[k],
                ),
        decreases required@.len() - i,
    {
        proof {
            assert(crate::text::texts(required@)[i as int] == required@[i as int]@);
        }
        if !holds_text(names, required[i].as_str()) {
            return false;
        }
        i += 1;
    }
    true
}

/// The part of the results that a file holds.
pub enum Content {
    /// The performance of every strategy in every universe.
    All,
    /// The performance in some universes.
    Universes(Vec<String>),
    /// The signals to buy of the day.
    Buys,
    /// The signals to sell of the day.
    Sells,
}

/// A part of the results, by what it selects.
pub enum Selection {
    All,
    Universes(Seq<Seq<char>>),
    Buys,
    Sells,
}

impl Content {
    pub open spec fn selects(self) -> Selection {
        match self {
            Content::All => Selection::All,
            Content::Universes(list) => Selection::Universes(crate::text::texts(list@)),
            Content::Buys => Selection::Buys,
            Content::Sells => Selection::Sells,
        }
    }
}

/// A file of results.
pub struct Output {
    pub file: String,
    pub content: Content,
}

/// The files of a run: in a test the performance of all strategies and of each
/// group of universes, in production the lists of the day.
pub open spec fn planned(
    path: Seq<char>,
    production: bool,
    stocks: bool,
    datetag: Seq<char>,
) -> Seq<(Seq<char>, Selection)> {
    if production {
        seq![
            (
                crate::paths::performance_file_text(
                    path,
                    crate::paths::signal_list_name(stocks, true, datetag),
                ),
                Selection::Buys,
            ),
            (
                crate::paths::performance_file_text(
                    path,
                    crate::paths::signal_list_name(stocks, false, datetag),
                ),
                Selection::Sells,
            ),
        ]
    } else {
        seq![
            (
                crate::paths::performance_file_text(
                    path,
                    crate::paths::assets_text(stocks) + "_testing"@,
                ),
                Selection::All,
            ),
            (
                crate::paths::performance_file_text(path, "LC"@),
                Selection::Universes(seq!["LC1"@, "LC2"@]),
            ),
            (
                crate::paths::performance_file_text(path, "MC"@),
                Selection::Universes(seq!["MC1"@, "MC2"@]),
            ),
            (
                crate::paths::performance_file_text(path, "SC"@),
                Selection::Universes(seq!["SC1"@, "SC2"@, "SC3"@, "SC4"@]),
            ),
            (
                crate::paths::performance_file_text(path, "Micro"@),
                Selection::Universes(seq!["Micro1"@, "Micro2"@]),
            ),
        ]
    }
}

/// The date of the results and the files they go to.
pub struct Summary {
    pub datetag: String,
    pub outputs: Vec<Output>,
}

impl Summary {
    pub open spec fn files(self) -> Seq<(Seq<char>, Selection)> {
        Seq::new(
            self.outputs@.len(),
            |i: int| (self.outputs@[i].file@, self.outputs@[i].content.selects()),
        )
    }
}

fn group_output(path: &str, group: &str, universes: Vec<String>) -> (r: Output)
    ensures
        r.file@ == crate::paths::performance_file_text(path@, group@),
        r.content.selects() == Selection::Universes(crate::text::texts(universes@)),
{
    Output { file: group_performance_file(path, group), content: Content::Universes(universes) }
}

/// The digits of a date as it is printed, quotes and dashes taken off.
pub open spec fn datetag_text(printed: Seq<char>) -> Seq<char> {
    crate::text::without(crate::text::trimmed(printed, '"'), '-')
}

/// The files that the results of a run go to, and the tag of their date. The
/// date is that of the first backtest, as it is printed.
pub fn summary_performance_file(
    path: &str,
    production: bool,
    univ: &Vec<String>,
    printed_date: &str,
) -> (r: Summary)
    ensures
        r.datetag@ == datetag_text(printed_date@),
        r.files() == planned(
            path@,
            production,
            !crate::text::texts(univ@).contains("Crypto"@),
            r.datetag@,
        ),
{
    let stocks = !holds_text(univ, "Crypto");
    let plain = unquote(printed_date);
    let datetag = remove_char(plain.as_str(), '-');
    let mut outputs: Vec<Output> = Vec::new();
    if production {
        let buys = signal_list_file(path, stocks, true, datetag.as_str());
        outputs.push(Output { file: buys, content: Content::Buys });
        let sells = signal_list_file(path, stocks, false, datetag.as_str());
        outputs.push(Output { file: sells, content: Content::Sells });
        let r = Summary { datetag, outputs };
        proof {
            assert(r.files() =~= planned(path@, true, stocks, r.datetag@));
        }
        return r;
    }
    let all = tested_performance_file(path, stocks);
    outputs.push(Output { file: all, content: Content::All });
    let lc: Vec<String> = vec!["LC1".to_owned(), "LC2".to_owned()];
    let mc: Vec<String> = vec!["MC1".to_owned(), "MC2".to_owned()];
    let sc: Vec<String> = vec![
        "SC1".to_owned(),
        "SC2".to_owned(),
        "SC3".to_owned(),
        "SC4".to_owned(),
    ];
    let micro: Vec<String> = vec!["Micro1".to_owned(), "Micro2".to_owned()];
    proof {
        assert(crate::text::texts(lc@) =~= seq!["LC1"@, "LC2"@]);
        assert(crate::text::texts(mc@) =~= seq!["MC1"@, "MC2"@]);
        assert(crate::text::texts(sc@) =~= seq!["SC1"@, "SC2"@, "SC3"@, "SC4"@]);
        assert(crate::text::texts(micro@) =~= seq!["Micro1"@, "Micro2"@]);
    }
    outputs.push(group_output(path, "LC", lc));
    outputs.push(group_output(path, "MC", mc));
    outputs.push(group_output(path, "SC", sc));
    outputs.push(group_output(path, "Micro", micro));
    let r = Summary { datetag, outputs };
    proof {
        assert(r.files() =~= planned(path@, false, stocks, r.datetag@));
    }
    r
}

/// The rows whose text is in a list.
pub open spec fn rows_among(column: Seq<Option<Seq<char>>>, wanted: Seq<Seq<char>>) -> Seq<usize>
    decreases column.len(),
{
    if column.len() == 0 {
        Seq::empty()
    } else {
        let before = rows_among(column.drop_last(), wanted);
        if column.last() matches Some(text) && wanted.contains(text) {
            before.push((column.len() - 1) as usize)
        } else {
            before
        }
    }
}

/// The rows of the wanted universes.
pub fn universe_rows(universe: &Vec<Option<String>>, wanted: &Vec<String>) -> (rows: Vec<usize>)
    ensures
        rows@ == rows_among(
            crate::paths::column_texts(universe@),
            crate::text::texts(wanted@),
        ),
{
    let ghost column = crate::paths::column_texts(universe@);
    let mut rows: Vec<usize> = Vec::new();
    let mut i: usize = 0;
    while i < universe.len()
        invariant
            i <= universe@.len(),
            column == crate::paths::column_texts(universe@),
            rows@ == rows_among(column.take(i as int), crate::text::texts(wanted@)),
        decreases universe@.len() - i,
    {
        proof {
            assert(column.take(i + 1).drop_last() =~= column.take(i as int));
        }
        if let Some(text) = &universe[i] {
            if holds_text(wanted, text.as_str()) {
                rows.push(i);
            }
        }
        i += 1;
    }
    proof {
        assert(column.take(universe@.len() as int) =~= column);
    }
    rows
}

/// The rows that hold a signal, those without one left out.
pub fn rows_with_signal(signals: &Vec<Option<i64>>, wanted: i64) -> (rows: Vec<usize>)
    ensures
        rows@ == crate::groups::rows_with(signals@, Some(wanted)),
{
    let mut rows: Vec<usize> = Vec::new();
    let mut i: usize = 0;
    while i < signals.len()
        invariant
            i <= signals@.len(),
            rows@ == crate::groups::rows_with(signals@.take(i as int), Some(wanted)),
        decreases signals@.len() - i,
    {
        proof {
            assert(signals@.take(i + 1).drop_last() =~= signals@.take(i as int));
        }
        if let Some(s) = signals[i] {
            if s == wanted {
                rows.push(i);
            }
        }
        i += 1;
    }
    proof {
        assert(signals@.take(signals@.len() as int) =~= signals@);
    }
    rows
}

/// The rows that hold a signal, in the order of their tickers, missing ones
/// first.
pub fn signal_rows(
    signals: &Vec<Option<i64>>,
    wanted: i64,
    tickers: &Vec<Option<String>>,
) -> (rows: Vec<usize>)
    requires
        signals@.len() == tickers@.len(),
    ensures
        crate::sorting::is_sorted_list(
            ByKnownText { column: tickers },
            rows@,
            crate::groups::rows_with(signals@, Some(wanted)),
        ),
{
    let picked = rows_with_signal(signals, wanted);
    let n: usize = signals.len();
    proof {
        assert(n == signals@.len());
        crate::groups::law_rows_with(signals@, Some(wanted));
    }
    sort_rows(&ByKnownText { column: tickers }, &picked)
}

/// The form of the dates in a price file.
pub const DATE_FORMAT: &'static str = "%Y-%m-%d";

/// The date that a text stands for in a format, in days after 1 January 1970,
/// where it is one: what `StringMethods::as_date` makes of the text.
pub uninterp spec fn parsed_day(text: Seq<char>, format: Seq<char>) -> Option<i32>;

/// `StringMethods::as_date` of polars parses each text of a column on its own,
/// by the given format; gaps stay, and a text that is no date becomes a gap.
/// Which texts are dates is not said here. The call fails for formats with
/// hours but no minutes and the like, so that only the format of the price
/// files is admitted.
#[verifier::external_body]
fn parse_days(texts: &Vec<Option<String>>, format: &str) -> (r: Vec<Option<i32>>)
    requires
        format@ == DATE_FORMAT@,
    ensures
        r@.len() == texts@.len(),
        forall|i: int|
            0 <= i < r@.len() ==> #[trigger] r@[i] == (match texts@[i] {
                Some(text) => parsed_day(text@, format@),
                None => None,
            }),
{
    let column: StringChunked = texts.iter().map(|text| text.as_deref()).collect();
    let dates = column.as_date(Some(format), true).expect("the format is a date's");
    dates.into_iter().collect()
}

/// A ticker of a price file: how many of its rows have a date, and the date of
/// its last row in days after 1 January 1970.
pub struct Observed {
    pub ticker: String,
    pub observations: usize,
    pub last_date: Option<i32>,
}

/// What a price file holds of a ticker.
pub open spec fn is_observed(
    o: Observed,
    tickers: Seq<Option<Seq<char>>>,
    days: Seq<Option<i32>>,
) -> bool {
    let rows = crate::groups::rows_with(tickers, Some(o.ticker@));
    &&& rows.len() > 0
    &&& o.observations == crate::groups::count_known(days, rows)
    &&& o.last_date == days[rows.last() as int]
}

/// `out` lists what a price file holds of each ticker, once and in order; rows
/// without a ticker are left out.
pub open spec fn is_coverage(
    out: Seq<Observed>,
    tickers: Seq<Option<Seq<char>>>,
    days: Seq<Option<i32>>,
) -> bool {
    &&& forall|k: int| 0 <= k < out.len() ==> is_observed(#[trigger] out[k], tickers, days)
    &&& forall|k: int, l: int|
        0 <= k < l < out.len() ==> crate::text::text_before(
            #[trigger] out[k].ticker@,
            #[trigger] out[l].ticker@,
        )
    &&& forall|i: int|
        0 <= i < tickers.len() && (#[trigger] tickers[i]) is Some ==> exists|k: int|
            0 <= k < out.len() && tickers[i] == Some(#[trigger] out[k].ticker@)
}

/// The tickers of a price file, each once, in their order.
pub fn observed_tickers(tickers: &Vec<Option<String>>, days: &Vec<Option<i32>>) -> (out: Vec<
    Observed,
>)
    requires
        tickers@.len() == days@.len(),
    ensures
        is_coverage(out@, crate::paths::column_texts(tickers@), days@),
{
    let ghost column = crate::groups::values(tickers@);
    let ghost keys = crate::groups::distinct(column);
    let n: usize = tickers.len();
    let groups = group_rows(tickers);
    let mut names: Vec<String> = Vec::new();
    let mut places: Vec<usize> = Vec::new();
    let mut g: usize = 0;
    while g < groups.len()
        invariant
            g <= groups@.len(),
            n == tickers@.len(),
            column == crate::groups::values(tickers@),
            keys == crate::groups::distinct(column),
            keys.len() == groups@.len(),
            forall|h: int|
                0 <= h < groups@.len() ==> (#[trigger] groups@[h])@ == crate::groups::rows_with(
                    column,
                    keys[h],
                ),
            names@.len() == places@.len(),
            crate::sorting::are_rows(places@, g as nat),
            forall|h: int|
                0 <= h < names@.len() ==> keys[places@[h] as int] == Some((#[trigger] names@[h])@),
            forall|x: int|
                0 <= x < g && (#[trigger] keys[x]) is Some ==> places@.contains(x as usize),
        decreases groups@.len() - g,
    {
        proof {
            crate::groups::law_groups_have_rows(column, g as int);
        }
        let leader: usize = groups[g][0];
        let ghost before = places@;
        proof {
            assert(column[leader as int] == crate::text::known_text(tickers@[leader as int]));
        }
        if let Some(name) = &tickers[leader] {
            names.push(name.clone());
            places.push(g);
        }
        proof {
            assert forall|x: int| 0 <= x <= g && (#[trigger] keys[x]) is Some implies places@.contains(
                x as usize,
            ) by {
                if x < g {
                    let h = choose|h: int| 0 <= h < before.len() && before[h] == x as usize;
                    assert(places@[h] == x as usize);
                } else {
                    assert(places@.last() == g);
                }
            }
        }
        g += 1;
    }
    let rows = all_rows(names.len());
    let by_name = ByText { column: &names };
    let order = sort_rows(&by_name, &rows);
    let mut out: Vec<Observed> = Vec::new();
    let mut k: usize = 0;
    proof {
        assert forall|x: int| 0 <= x < order@.len() implies #[trigger] order@[x]
            < names@.len() by {
            assert(order@.contains(order@[x]));
            let i = choose|i: int| 0 <= i < rows@.len() && rows@[i] == order@[x];
            assert(rows@[i] == i as usize);
        }
    }
    while k < order.len()
        invariant
            k <= order@.len(),
            n == tickers@.len(),
            tickers@.len() == days@.len(),
            column == crate::groups::values(tickers@),
            keys == crate::groups::distinct(column),
            keys.len() == groups@.len(),
            names@.len() == places@.len(),
            crate::sorting::are_rows(places@, groups@.len()),
            forall|h: int|
                0 <= h < names@.len() ==> keys[places@[h] as int] == Some((#[trigger] names@[h])@),
            forall|x: int| 0 <= x < order@.len() ==> #[trigger] order@[x] < names@.len(),
            forall|x: int|
                0 <= x < groups@.len() ==> (#[trigger] groups@[x])@ == crate::groups::rows_with(
                    column,
                    keys[x],
                ),
            out@.len() == k,
            forall|x: int|
                0 <= x < k ==> is_observed(#[trigger] out@[x], column, days@) && out@[x].ticker@
                    == names@[order@[x] as int]@,
        decreases order@.len() - k,
    {
        let at: usize = order[k];
        let place: usize = places[at];
        proof {
            assert(keys[place as int] == Some(names@[at as int]@));
            crate::groups::law_groups_have_rows(column, place as int);
        }
        let observations: usize = known_rows(days, &groups[place]);
        let last_row: usize = groups[place][groups[place].len() - 1];
        out.push(
            Observed { ticker: names[at].clone(), observations, last_date: days[last_row] },
        );
        k += 1;
    }
    proof {
        crate::groups::law_distinct(column);
        assert(column =~= crate::paths::column_texts(tickers@));
        assert forall|x: int, y: int| 0 <= x < y < out@.len() implies crate::text::text_before(
            #[trigger] out@[x].ticker@,
            #[trigger] out@[y].ticker@,
        ) by {
            assert(is_observed(out@[x], column, days@) && is_observed(out@[y], column, days@));
            let a = order@[x];
            let b = order@[y];
            assert(crate::sorting::listed_before(by_name, a, b));
            crate::text::law_text_order(names@[a as int]@, names@[a as int]@, names@[a as int]@);
            assert(a != b);
            assert(keys[places@[a as int] as int] == Some(names@[a as int]@));
            assert(keys[places@[b as int] as int] == Some(names@[b as int]@));
            crate::text::law_text_order(names@[a as int]@, names@[b as int]@, names@[a as int]@);
        }
        assert forall|i: int| 0 <= i < column.len() && (#[trigger] column[i]) is Some implies exists|
            x: int,
        |
            0 <= x < out@.len() && column[i] == Some(#[trigger] out@[x].ticker@) by {
            assert(column.contains(column[i]));
            assert(keys.contains(column[i]));
            let g = choose|g: int| 0 <= g < keys.len() && keys[g] == column[i];
            assert(places@.contains(g as usize));
            let h = choose|h: int| 0 <= h < places@.len() && places@[h] == g as usize;
            assert(keys[places@[h] as int] == Some(names@[h]@));
            assert(rows@[h] == h as usize);
            assert(rows@.contains(h as usize));
            assert(order@.contains(h as usize));
            let x = choose|x: int| 0 <= x < order@.len() && order@[x] == h as usize;
            assert(is_observed(out@[x], column, days@) && out@[x].ticker@ == names@[h]@);
        }
    }
    out
}

/// The tickers of a price file from its columns of tickers and of printed
/// dates, each ticker once, in their order.
pub fn price_coverage(tickers: &Vec<Option<String>>, dates: &Vec<Option<String>>) -> (out: Vec<
    Observed,
>)
    requires
        tickers@.len() == dates@.len(),
    ensures
        is_coverage(
            out@,
            crate::paths::column_texts(tickers@),
            Seq::new(
                dates@.len(),
                |i: int|
                    match dates@[i] {
                        Some(text) => parsed_day(text@, DATE_FORMAT@),
                        None => None,
                    },
            ),
        ),
{
    let days = parse_days(dates, DATE_FORMAT);
    proof {
        assert(days@ =~= Seq::new(
            dates@.len(),
            |i: int|
                match dates@[i] {
                    Some(text) => parsed_day(text@, DATE_FORMAT@),
                    None => None,
                },
        ));
    }
    observed_tickers(tickers, &days)
}

/// A ticker with backtests: its row among the observed ones, and how many
/// strategies were tested on it.
#[derive(Clone, Copy, PartialEq, Eq, Structural, Debug)]
pub struct Coverage {
    pub observed: usize,
    pub strategies: usize,
}

/// The backtests of a ticker.
pub open spec fn backtests_of(ticker: Seq<char>, tested: Seq<Option<Seq<char>>>) -> Seq<usize> {
    crate::groups::rows_with(tested, Some(ticker))
}

/// How many of the backtests of a ticker name their strategy.
pub open spec fn strategies_of(
    ticker: Seq<char>,
    tested: Seq<Option<Seq<char>>>,
    strategies: Seq<Option<String>>,
) -> nat {
    crate::groups::count_known(strategies, backtests_of(ticker, tested))
}

/// The number of strategies of a ticker, where it has backtests.
fn count_strategies(
    ticker: &String,
    tested: &Vec<Option<String>>,
    strategies: &Vec<Option<String>>,
) -> (r: Option<usize>)
    requires
        tested@.len() == strategies@.len(),
    ensures
        ({
            let column = crate::paths::column_texts(tested@);
            &&& r is Some <==> backtests_of(ticker@, column).len() > 0
            &&& r matches Some(n) ==> n == strategies_of(ticker@, column, strategies@)
        }),
{
    let ghost column = crate::paths::column_texts(tested@);
    let mut rows: Vec<usize> = Vec::new();
    let mut i: usize = 0;
    while i < tested.len()
        invariant
            i <= tested@.len(),
            column == crate::paths::column_texts(tested@),
            rows@ == crate::groups::rows_with(column.take(i as int), Some(ticker@)),
        decreases tested@.len() - i,
    {
        proof {
            assert(column.take(i + 1).drop_last() =~= column.take(i as int));
        }
        if let Some(name) = &tested[i] {
            if same_text(name.as_str(), ticker.as_str()) {
                rows.push(i);
            }
        }
        i += 1;
    }
    proof {
        assert(column.take(tested@.len() as int) =~= column);
        crate::groups::law_rows_with(column, Some(ticker@));
    }
    if rows.len() == 0 {
        None
    } else {
        Some(known_rows(strategies, &rows))
    }
}

/// The observed tickers that have backtests, those with few strategies first. A
/// backtest counts where it names its strategy; a ticker whose backtests name
/// none is listed with none.
pub fn strategy_coverage(
    observed: &Vec<Observed>,
    tested: &Vec<Option<String>>,
    strategies: &Vec<Option<String>>,
) -> (out: Vec<Coverage>)
    requires
        tested@.len() == strategies@.len(),
    ensures
        forall|k: int|
            0 <= k < out@.len() ==> {
                let c = #[trigger] out@[k];
                let column = crate::paths::column_texts(tested@);
                &&& c.observed < observed@.len()
                &&& backtests_of(observed@[c.observed as int].ticker@, column).len() > 0
                &&& c.strategies == strategies_of(
                    observed@[c.observed as int].ticker@,
                    column,
                    strategies@,
                )
            },
        forall|k: int, l: int|
            0 <= k < l < out@.len() ==> {
                let c = #[trigger] out@[k];
                let d = #[trigger] out@[l];
                c.strategies < d.strategies || (c.strategies == d.strategies && c.observed
                    < d.observed)
            },
        forall|i: int|
            0 <= i < observed@.len() && backtests_of(
                (#[trigger] observed@[i]).ticker@,
                crate::paths::column_texts(tested@),
            ).len() > 0 ==> exists|k: int| 0 <= k < out@.len() && #[trigger] out@[k].observed == i,
{
    let ghost column = crate::paths::column_texts(tested@);
    let mut counts: Vec<i128> = Vec::new();
    let mut covered: Vec<usize> = Vec::new();
    let mut i: usize = 0;
    while i < observed.len()
        invariant
            i <= observed@.len(),
            tested@.len() == strategies@.len(),
            column == crate::paths::column_texts(tested@),
            counts@.len() == i,
            crate::sorting::are_rows(covered@, i as nat),
            forall|k: int| 0 <= k < i ==> 0 <= #[trigger] counts@[k] <= usize::MAX,
            forall|k: int|
                0 <= k < covered@.len() ==> {
                    let ticker = observed@[#[trigger] covered@[k] as int].ticker@;
                    &&& backtests_of(ticker, column).len() > 0
                    &&& counts@[covered@[k] as int] == strategies_of(ticker, column, strategies@)
                },
            forall|k: int|
                0 <= k < i && backtests_of((#[trigger] observed@[k]).ticker@, column).len() > 0
                    ==> covered@.contains(k as usize),
        decreases observed@.len() - i,
    {
        let ghost before = covered@;
        match count_strategies(&observed[i].ticker, tested, strategies) {
            Some(n) => {
                counts.push(n as i128);
                covered.push(i);
            },
            None => {
                counts.push(0);
            },
        }
        proof {
            assert forall|k: int|
                0 <= k <= i && backtests_of((#[trigger] observed@[k]).ticker@, column).len()
                    > 0 implies covered@.contains(k as usize) by {
                if k < i {
                    let x = choose|x: int| 0 <= x < before.len() && before[x] == k as usize;
                    assert(covered@[x] == k as usize);
                } else {
                    assert(covered@.last() == i);
                }
            }
        }
        i += 1;
    }
    let by_count = ByRank { column: &counts };
    let order = sort_rows(&by_count, &covered);
    let mut out: Vec<Coverage> = Vec::new();
    let mut k: usize = 0;
    proof {
        assert forall|x: int| 0 <= x < order@.len() implies {
            let ticker = observed@[#[trigger] order@[x] as int].ticker@;
            &&& order@[x] < counts@.len()
            &&& backtests_of(ticker, column).len() > 0
            &&& counts@[order@[x] as int] == strategies_of(ticker, column, strategies@)
        } by {
            assert(order@.contains(order@[x]));
            let y = choose|y: int| 0 <= y < covered@.len() && covered@[y] == order@[x];
            assert(covered@[y] < counts@.len());
        }
    }
    while k < order.len()
        invariant
            k <= order@.len(),
            counts@.len() == observed@.len(),
            forall|x: int| 0 <= x < counts@.len() ==> 0 <= #[trigger] counts@[x] <= usize::MAX,
            forall|x: int| 0 <= x < order@.len() ==> #[trigger] order@[x] < counts@.len(),
            out@.len() == k,
            forall|x: int|
                0 <= x < k ==> (#[trigger] out@[x]).observed == order@[x] && out@[x].strategies
                    == counts@[order@[x] as int],
        decreases order@.len() - k,
    {
        let at: usize = order[k];
        proof {
            assert(0 <= counts@[at as int] <= usize::MAX);
        }
        out.push(Coverage { observed: at, strategies: counts[at] as usize });
        k += 1;
    }
    proof {
        assert forall|x: int, y: int| 0 <= x < y < out@.len() implies ({
            let c = #[trigger] out@[x];
            let d = #[trigger] out@[y];
            c.strategies < d.strategies || (c.strategies == d.strategies && c.observed < d.observed)
        }) by {
            assert(crate::sorting::listed_before(by_count, order@[x], order@[y]));
        }
        assert forall|x: int|
            0 <= x < observed@.len() && backtests_of(
                (#[trigger] observed@[x]).ticker@,
                column,
            ).len() > 0 implies exists|y: int|
            0 <= y < out@.len() && #[trigger] out@[y].observed == x by {
            assert(covered@.contains(x as usize));
            assert(order@.contains(x as usize));
            let y = choose|y: int| 0 <= y < order@.len() && order@[y] == x as usize;
            assert(out@[y].observed == x);
        }
    }
    out
}

/// The tables that agree are those whose column types are those of the
/// reference as far as both have columns, all of them, in their order.
pub proof fn law_compatible_tables(tables: Seq<Seq<Seq<char>>>, reference: Seq<Seq<char>>, i: int)
    requires
        0 <= i < tables.len() <= usize::MAX,
    ensures
        compatible_tables(tables, reference).contains(i as usize) <==> forall|c: int|
            0 <= c < tables[i].len() && c < reference.len() ==> #[trigger] tables[i][c]
                == reference[c],
        crate::sorting::are_rows(compatible_tables(tables, reference), tables.len()),
    decreases tables.len(),
{
    let rest = tables.drop_last();
    let before = compatible_tables(rest, reference);
    let after = compatible_tables(tables, reference);
    let last = tables.len() - 1;
    if rest.len() > 0 {
        law_compatible_tables(rest, reference, if i < last {
            i
        } else {
            0
        });
    }
    if i < last {
        assert(rest[i] == tables[i]);
        if before.contains(i as usize) {
            let k = choose|k: int| 0 <= k < before.len() && before[k] == i as usize;
            assert(after[k] == i as usize);
        }
        if after.contains(i as usize) {
            let k = choose|k: int| 0 <= k < after.len() && after[k] == i as usize;
            assert(before[k] == i as usize);
        }
    } else {
        if is_compatible(tables.last(), reference) {
            assert(after.last() == i as usize);
        }
        if after.contains(i as usize) {
            let k = choose|k: int| 0 <= k < after.len() && after[k] == i as usize;
            if k < before.len() {
                assert(before[k] < rest.len());
            }
        }
    }
}

/// The rows among the wanted texts are those that have a text and whose text is
/// wanted, all of them, in their order.
pub proof fn law_rows_among(column: Seq<Option<Seq<char>>>, wanted: Seq<Seq<char>>, i: int)
    requires
        0 <= i < column.len() <= usize::MAX,
    ensures
        rows_among(column, wanted).contains(i as usize) <==> exists|w: int|
            0 <= w < wanted.len() && column[i] == Some(#[trigger] wanted[w]),
        crate::sorting::are_rows(rows_among(column, wanted), column.len()),
    decreases column.len(),
{
    let rest = column.drop_last();
    let before = rows_among(rest, wanted);
    let after = rows_among(column, wanted);
    let last = column.len() - 1;
    if rest.len() > 0 {
        law_rows_among(rest, wanted, if i < last {
            i
        } else {
            0
        });
    }
    if i < last {
        assert(rest[i] == column[i]);
        if before.contains(i as usize) {
            let k = choose|k: int| 0 <= k < before.len() && before[k] == i as usize;
            assert(after[k] == i as usize);
        }
        if after.contains(i as usize) {
            let k = choose|k: int| 0 <= k < after.len() && after[k] == i as usize;
            assert(before[k] == i as usize);
        }
    } else {
        if after.contains(i as usize) {
            let k = choose|k: int| 0 <= k < after.len() && after[k] == i as usize;
            if k < before.len() {
                assert(before[k] < rest.len());
            }
        }
        if exists|w: int| 0 <= w < wanted.len() && column[i] == Some(#[trigger] wanted[w]) {
            let w = choose|w: int| 0 <= w < wanted.len() && column[i] == Some(#[trigger] wanted[w]);
            assert(wanted.contains(wanted[w]));
            assert(after.last() == i as usize);
        }
    }
}

/// The last date of a ticker is that of the last of its rows.
pub proof fn law_last_date_is_of_the_last_row(
    o: Observed,
    tickers: Seq<Option<Seq<char>>>,
    days: Seq<Option<i32>>,
)
    requires
        tickers.len() == days.len() <= usize::MAX,
        is_observed(o, tickers, days),
    ensures
        exists|i: int|
            0 <= i < tickers.len() && #[trigger] tickers[i] == Some(o.ticker@) && o.last_date
                == days[i] && (forall|j: int|
                i < j < tickers.len() ==> #[trigger] tickers[j] != Some(o.ticker@)),
{
    let rows = crate::groups::rows_with(tickers, Some(o.ticker@));
    crate::groups::law_rows_with(tickers, Some(o.ticker@));
    let top = rows.len() - 1;
    let i = rows[top] as int;
    assert(tickers[i] == Some(o.ticker@));
    assert forall|j: int| i < j < tickers.len() implies #[trigger] tickers[j] != Some(
        o.ticker@,
    ) by {
        if tickers[j] == Some(o.ticker@) {
            assert(rows.contains(j as usize));
            let k = choose|k: int| 0 <= k < rows.len() && rows[k] == j as usize;
            if k < top {
                assert(rows[k] < rows[top]);
            }
        }
    }
}

/// The files of the large, middle and small companies of a test hold the
/// universes that these names stand for, and the file of the smallest ones the
/// first two of theirs.
pub proof fn law_group_files_hold_their_universes(
    path: Seq<char>,
    stocks: bool,
    datetag: Seq<char>,
)
    ensures
        ({
            let files = planned(path, false, stocks, datetag);
            &&& files.len() == 5
            &&& files[0].1 == Selection::All
            &&& files[1] == (
                crate::paths::performance_file_text(path, "LC"@),
                Selection::Universes(crate::pipeline::universes_of("LC"@)),
            )
            &&& files[2] == (
                crate::paths::performance_file_text(path, "MC"@),
                Selection::Universes(crate::pipeline::universes_of("MC"@)),
            )
            &&& files[3] == (
                crate::paths::performance_file_text(path, "SC"@),
                Selection::Universes(crate::pipeline::universes_of("SC"@)),
            )
            &&& files[4] == (
                crate::paths::performance_file_text(path, "Micro"@),
                Selection::Universes(crate::pipeline::universes_of("Micro"@).take(2)),
            )
        }),
{
    reveal_strlit("SC");
    reveal_strlit("MC");
    reveal_strlit("MC1");
    reveal_strlit("LC");
    reveal_strlit("Micro");
    assert("SC"@[0] == 'S' && "MC"@[0] == 'M' && "LC"@[0] == 'L');
    assert("MC"@.len() == 2 && "MC1"@.len() == 3 && "Micro"@.len() == 5);
    assert(crate::pipeline::universes_of("Micro"@).take(2) =~= seq!["Micro1"@, "Micro2"@]);
}

/// The observations of a ticker are its rows that have a date: one more row of
/// the file is one more observation exactly where it is of the ticker and has a
/// date. Its last date is that of the last of its rows.
pub proof fn law_observations_have_dates(
    tickers: Seq<Option<Seq<char>>>,
    days: Seq<Option<i32>>,
    ticker: Option<Seq<char>>,
    day: Option<i32>,
    before: Observed,
    after: Observed,
)
    requires
        tickers.len() == days.len() < usize::MAX,
        before.ticker@ == after.ticker@,
        is_observed(before, tickers, days),
        is_observed(after, tickers.push(ticker), days.push(day)),
    ensures
        after.observations == before.observations + (if ticker == Some(before.ticker@) && day
            is Some {
            1int
        } else {
            0
        }),
        after.last_date == (if ticker == Some(before.ticker@) {
            day
        } else {
            before.last_date
        }),
{
    let v = Some(before.ticker@);
    crate::groups::law_known_rows_are_counted(tickers, days, v, ticker, day);
    crate::groups::law_rows_with(tickers, v);
    assert(tickers.push(ticker).drop_last() =~= tickers);
    let rows = crate::groups::rows_with(tickers, v);
    assert(rows[rows.len() - 1] < tickers.len());
}

/// The strategies of a ticker are its backtests that name one: one more backtest
/// counts exactly where it is of the ticker and names its strategy.
pub proof fn law_strategies_are_named(
    ticker: Seq<char>,
    tested: Seq<Option<Seq<char>>>,
    strategies: Seq<Option<String>>,
    key: Option<Seq<char>>,
    name: Option<String>,
)
    requires
        tested.len() == strategies.len() < usize::MAX,
    ensures
        strategies_of(ticker, tested.push(key), strategies.push(name)) == strategies_of(
            ticker,
            tested,
            strategies,
        ) + (if key == Some(ticker) && name is Some {
            1nat
        } else {
            0nat
        }),
        backtests_of(ticker, tested.push(key)).len() == backtests_of(ticker, tested).len() + (if key
            == Some(ticker) {
            1nat
        } else {
            0nat
        }),
{
    crate::groups::law_known_rows_are_counted(tested, strategies, Some(ticker), key, name);
    assert(tested.push(key).drop_last() =~= tested);
}

/// The coverage of a price file lists every ticker that has a row, once, and no
/// other.
pub proof fn law_coverage_lists_every_ticker(
    out: Seq<Observed>,
    tickers: Seq<Option<Seq<char>>>,
    days: Seq<Option<i32>>,
    ticker: Seq<char>,
)
    requires
        tickers.len() == days.len() <= usize::MAX,
        is_coverage(out, tickers, days),
    ensures
        (exists|k: int| 0 <= k < out.len() && (#[trigger] out[k]).ticker@ == ticker)
            <==> tickers.contains(Some(ticker)),
        forall|k: int, l: int|
            0 <= k < l < out.len() ==> (#[trigger] out[k]).ticker@ != (#[trigger] out[l]).ticker@,
{
    if exists|k: int| 0 <= k < out.len() && (#[trigger] out[k]).ticker@ == ticker {
        let k = choose|k: int| 0 <= k < out.len() && (#[trigger] out[k]).ticker@ == ticker;
        assert(is_observed(out[k], tickers, days));
        crate::groups::law_rows_with(tickers, Some(ticker));
        let row = crate::groups::rows_with(tickers, Some(ticker))[0];
        assert(tickers[row as int] == Some(ticker));
    }
    if tickers.contains(Some(ticker)) {
        let i = choose|i: int| 0 <= i < tickers.len() && tickers[i] == Some(ticker);
        let k = choose|k: int| 0 <= k < out.len() && tickers[i] == Some(#[trigger] out[k].ticker@);
        assert(out[k].ticker@ == ticker);
    }
    assert forall|k: int, l: int| 0 <= k < l < out.len() implies (#[trigger] out[k]).ticker@ != (
    #[trigger] out[l]).ticker@ by {
        assert(crate::text::text_before(out[k].ticker@, out[l].ticker@));
        crate::text::law_text_order(out[k].ticker@, out[k].ticker@, out[k].ticker@);
    }
}

/// The first table is always among those that are put together.
pub proof fn law_first_table_is_kept(tables: Seq<Vec<String>>)
    requires
        0 < tables.len() <= usize::MAX,
    ensures
        compatible_tables(table_types(tables), crate::text::texts(tables[0]@)).contains(0),
{
    law_compatible_tables(table_types(tables), crate::text::texts(tables[0]@), 0);
}

/// The tag of a date is what is printed of it without the quotes at its ends and
/// without any dash, all else in its order.
pub proof fn law_datetag_drops_only_dashes(printed: Seq<char>)
    ensures
        datetag_text(printed) == crate::text::trimmed(printed, '"').filter(|x: char| x != '-'),
        printed.len() > 0 && printed[0] != '"' && printed.last() != '"' ==> datetag_text(printed)
            == printed.filter(|x: char| x != '-'),
{
    crate::text::law_without_keeps_the_others(crate::text::trimmed(printed, '"'), '-');
    crate::text::law_trimmed_at_both_ends(printed, '"');
}

} // verus!

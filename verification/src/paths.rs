//! Where the files of the pipeline lie, and what their names say.
use crate::text::{holds_text, same_text, split_text};
use vstd::prelude::*;
use vstd::string::*;

verus! {

/// The home of the project files below a user's directory.
pub open spec fn project_text(user: Seq<char>) -> Seq<char> {
    user + "/rust_home/lppl_new"@
}

/// The user's directory: the setting, or `/srv` without one.
pub open spec fn user_text(setting: Option<String>) -> Seq<char> {
    match setting {
        Some(path) => path@,
        None => "/srv"@,
    }
}

/// The home of the project files, below the directory of the setting or `/srv`.
pub fn project_path(setting: Option<String>) -> (r: String)
    ensures
        r@ == project_text(user_text(setting)),
{
    let mut s = match setting {
        Some(path) => path,
        None => "/srv".to_owned(),
    };
    s.append("/rust_home/lppl_new");
    s
}

/// The folder of a run.
pub open spec fn folder_text(production: bool) -> Seq<char> {
    if production {
        "production"@
    } else {
        "testing"@
    }
}

/// The folder of a run.
pub fn folder(production: bool) -> (r: String)
    ensures
        r@ == folder_text(production),
{
    if production {
        "production".to_owned()
    } else {
        "testing".to_owned()
    }
}

/// The price file of a universe.
pub open spec fn price_file_text(path: Seq<char>, folder: Seq<char>, univ: Seq<char>) -> Seq<char> {
    path + "/data/"@ + folder + "/"@ + univ + ".csv"@
}

/// The price file of a universe.
pub fn price_file(path: &str, folder: &str, univ: &str) -> (r: String)
    ensures
        r@ == price_file_text(path@, folder@, univ@),
{
    let mut s = path.to_owned();
    s.append("/data/");
    s.append(folder);
    s.append("/");
    s.append(univ);
    s.append(".csv");
    s
}

/// The folder of the fits.
pub open spec fn fit_dir_text(path: Seq<char>, folder: Seq<char>) -> Seq<char> {
    path + "/fit/"@ + folder
}

/// The folder of the fits.
pub fn fit_dir(path: &str, folder: &str) -> (r: String)
    ensures
        r@ == fit_dir_text(path@, folder@),
{
    let mut s = path.to_owned();
    s.append("/fit/");
    s.append(folder);
    s
}

/// The name of a fit file, without its extension.
pub open spec fn fit_stem(universe: Seq<char>, ticker: Seq<char>) -> Seq<char> {
    "fit_"@ + universe + "_"@ + ticker
}

/// The fit file of a ticker.
pub open spec fn fit_file_text(
    path: Seq<char>,
    folder: Seq<char>,
    universe: Seq<char>,
    ticker: Seq<char>,
) -> Seq<char> {
    fit_dir_text(path, folder) + "/"@ + fit_stem(universe, ticker) + ".csv"@
}

/// The fit file of a ticker.
pub fn fit_file(path: &str, folder: &str, universe: &str, ticker: &str) -> (r: String)
    ensures
        r@ == fit_file_text(path@, folder@, universe@, ticker@),
{
    let mut s = fit_dir(path, folder);
    let ghost dir = s@;
    s.append("/");
    s.append("fit_");
    s.append(universe);
    s.append("_");
    s.append(ticker);
    s.append(".csv");
    proof {
        assert(s@ =~= dir + "/"@ + fit_stem(universe@, ticker@) + ".csv"@);
    }
    s
}

/// The folder of the backtests.
pub open spec fn output_dir_text(path: Seq<char>, crypto: bool, folder: Seq<char>) -> Seq<char> {
    path + (if crypto {
        "/output_crypto/"@
    } else {
        "/output/"@
    }) + folder
}

/// The folder of the backtests.
pub fn output_dir(path: &str, crypto: bool, folder: &str) -> (r: String)
    ensures
        r@ == output_dir_text(path@, crypto, folder@),
{
    let mut s = path.to_owned();
    if crypto {
        s.append("/output_crypto/");
    } else {
        s.append("/output/");
    }
    s.append(folder);
    s
}

/// The backtest file of a ticker.
pub open spec fn backtest_file_text(
    path: Seq<char>,
    univ: Seq<char>,
    folder: Seq<char>,
    ticker: Seq<char>,
) -> Seq<char> {
    output_dir_text(path, univ == "Crypto"@, folder) + "/"@ + ticker + ".parquet"@
}

/// The backtest file of a ticker.
pub fn parquet_save_backtest(path: &str, univ: &str, ticker: &str, production: bool) -> (r: String)
    ensures
        r@ == backtest_file_text(path@, univ@, folder_text(production), ticker@),
{
    let name = folder(production);
    let mut s = output_dir(path, same_text(univ, "Crypto"), name.as_str());
    s.append("/");
    s.append(ticker);
    s.append(".parquet");
    s
}

/// The kind of assets that a file covers.
pub open spec fn assets_text(stocks: bool) -> Seq<char> {
    if stocks {
        "stocks"@
    } else {
        "crypto"@
    }
}

/// The kind of assets that a file covers.
pub fn assets(stocks: bool) -> (r: String)
    ensures
        r@ == assets_text(stocks),
{
    if stocks {
        "stocks".to_owned()
    } else {
        "crypto".to_owned()
    }
}

/// A file of the performance folder.
pub open spec fn performance_file_text(path: Seq<char>, name: Seq<char>) -> Seq<char> {
    path + "/performance/"@ + name + ".csv"@
}

fn performance_file(path: &str, name: &str) -> (r: String)
    ensures
        r@ == performance_file_text(path@, name@),
{
    let mut s = path.to_owned();
    s.append("/performance/");
    s.append(name);
    s.append(".csv");
    s
}

/// The performance of all tested strategies.
pub fn tested_performance_file(path: &str, stocks: bool) -> (r: String)
    ensures
        r@ == performance_file_text(path@, assets_text(stocks) + "_testing"@),
{
    let mut name = assets(stocks);
    name.append("_testing");
    performance_file(path, name.as_str())
}

/// The performance of the tested strategies in a group of universes.
pub fn group_performance_file(path: &str, group: &str) -> (r: String)
    ensures
        r@ == performance_file_text(path@, group@),
{
    performance_file(path, group)
}

/// The name of a list of a day's signals.
pub open spec fn signal_list_name(stocks: bool, buys: bool, datetag: Seq<char>) -> Seq<char> {
    assets_text(stocks) + (if buys {
        "_buys_"@
    } else {
        "_sells_"@
    }) + datetag
}

/// The list of a day's buys or sells.
pub fn signal_list_file(path: &str, stocks: bool, buys: bool, datetag: &str) -> (r: String)
    ensures
        r@ == performance_file_text(path@, signal_list_name(stocks, buys, datetag@)),
{
    let mut name = assets(stocks);
    if buys {
        name.append("_buys_");
    } else {
        name.append("_sells_");
    }
    name.append(datetag);
    performance_file(path, name.as_str())
}

/// The scores of a day.
pub open spec fn score_file_text(path: Seq<char>, stocks: bool, datetag: Seq<char>) -> Seq<char> {
    path + "/score/"@ + assets_text(stocks) + "_"@ + datetag + ".csv"@
}

/// The scores of a day.
pub fn score_file(path: &str, stocks: bool, datetag: &str) -> (r: String)
    ensures
        r@ == score_file_text(path@, stocks, datetag@),
{
    let mut s = path.to_owned();
    s.append("/score/");
    let tag = assets(stocks);
    s.append(tag.as_str());
    s.append("_");
    s.append(datetag);
    s.append(".csv");
    s
}

/// An entry of a folder: whether it is a file, and the two parts of its name
/// where they can be read.
pub struct DirEntry {
    pub is_file: bool,
    pub extension: Option<String>,
    pub stem: Option<String>,
}

impl DirEntry {
    /// The stem of a file with the given extension.
    pub open spec fn stem_with(self, extension: Seq<char>) -> Option<Seq<char>> {
        if self.is_file && (self.extension matches Some(e) && e@ == extension) {
            match self.stem {
                Some(s) => Some(s@),
                None => None,
            }
        } else {
            None
        }
    }

    /// Whether the entry is a file with the given extension.
    pub fn is_kind(&self, extension: &str) -> (r: bool)
        ensures
            r == (self.is_file && (self.extension matches Some(e) && e@ == extension@)),
    {
        if !self.is_file {
            return false;
        }
        match &self.extension {
            Some(e) => same_text(e.as_str(), extension),
            None => false,
        }
    }
}

/// The tickers that have a backtest file, in the order of the entries.
pub open spec fn tested_tickers(entries: Seq<DirEntry>) -> Seq<Seq<char>>
    decreases entries.len(),
{
    if entries.len() == 0 {
        Seq::empty()
    } else {
        let before = tested_tickers(entries.drop_last());
        match entries.last().stem_with("parquet"@) {
            Some(stem) => before.push(stem),
            None => before,
        }
    }
}

/// The tickers that have a backtest file.
pub fn finished_backtests(entries: &Vec<DirEntry>) -> (r: Vec<String>)
    ensures
        crate::text::texts(r@) == tested_tickers(entries@),
{
    let mut out: Vec<String> = Vec::new();
    let mut i: usize = 0;
    proof {
        assert(crate::text::texts(out@) =~= tested_tickers(entries@.take(0)));
    }
    while i < entries.len()
        invariant
            i <= entries@.len(),
            crate::text::texts(out@) == tested_tickers(entries@.take(i as int)),
        decreases entries@.len() - i,
    {
        proof {
            assert(entries@.take(i + 1).drop_last() =~= entries@.take(i as int));
        }
        if entries[i].is_kind("parquet") {
            if let Some(stem) = &entries[i].stem {
                let ghost before = crate::text::texts(out@);
                out.push(stem.clone());
                proof {
                    assert(crate::text::texts(out@) =~= before.push(stem@));
                }
            }
        }
        i += 1;
    }
    proof {
        assert(entries@.take(entries@.len() as int) =~= entries@);
    }
    out
}

/// The ticker in the name of a fit file: what stands after the second
/// underscore, up to a third one.
pub open spec fn symbol_in(stem: Seq<char>) -> Option<Seq<char>> {
    let parts = crate::text::split(stem, '_');
    if parts.len() >= 3 {
        Some(parts[2])
    } else {
        None
    }
}

/// The tickers that have a fit file, in the order of the entries.
pub open spec fn fitted_tickers(entries: Seq<DirEntry>) -> Seq<Seq<char>>
    decreases entries.len(),
{
    if entries.len() == 0 {
        Seq::empty()
    } else {
        let before = fitted_tickers(entries.drop_last());
        match entries.last().stem_with("csv"@) {
            Some(stem) => match symbol_in(stem) {
                Some(symbol) => before.push(symbol),
                None => before,
            },
            None => before,
        }
    }
}

/// The tickers that have a fit file.
pub fn finished_fits(entries: &Vec<DirEntry>) -> (r: Vec<String>)
    ensures
        crate::text::texts(r@) == fitted_tickers(entries@),
{
    let mut out: Vec<String> = Vec::new();
    let mut i: usize = 0;
    proof {
        assert(crate::text::texts(out@) =~= fitted_tickers(entries@.take(0)));
    }
    while i < entries.len()
        invariant
            i <= entries@.len(),
            crate::text::texts(out@) == fitted_tickers(entries@.take(i as int)),
        decreases entries@.len() - i,
    {
        proof {
            assert(entries@.take(i + 1).drop_last() =~= entries@.take(i as int));
        }
        if entries[i].is_kind("csv") {
            if let Some(stem) = &entries[i].stem {
                let parts = split_text(stem.as_str(), '_');
                if parts.len() >= 3 {
                    let ghost before = crate::text::texts(out@);
                    let ghost symbol = crate::text::texts(parts@)[2];
                    out.push(parts[2].clone());
                    proof {
                        assert(crate::text::texts(out@) =~= before.push(symbol));
                    }
                }
            }
        }
        i += 1;
    }
    proof {
        assert(entries@.take(entries@.len() as int) =~= entries@);
    }
    out
}

/// The tickers of a column that are still to be done: each that occurs and is
/// not done yet, once, in the order of their first rows.
pub open spec fn tickers_left(column: Seq<Option<Seq<char>>>, done: Seq<Seq<char>>) -> Seq<
    Seq<char>,
>
    decreases column.len(),
{
    if column.len() == 0 {
        Seq::empty()
    } else {
        let before = tickers_left(column.drop_last(), done);
        match column.last() {
            Some(t) => if done.contains(t) || before.contains(t) {
                before
            } else {
                before.push(t)
            },
            None => before,
        }
    }
}

/// The texts of a column with gaps.
pub open spec fn column_texts(column: Seq<Option<String>>) -> Seq<Option<Seq<char>>> {
    Seq::new(column.len(), |i: int| crate::text::known_text(column[i]))
}

/// The tickers of a column that are not done yet.
pub fn needed_tickers(column: &Vec<Option<String>>, done: &Vec<String>) -> (r: Vec<String>)
    ensures
        crate::text::texts(r@) == tickers_left(column_texts(column@), crate::text::texts(done@)),
{
    let mut out: Vec<String> = Vec::new();
    let ghost all = column_texts(column@);
    let ghost finished = crate::text::texts(done@);
    let mut i: usize = 0;
    proof {
        assert(crate::text::texts(out@) =~= tickers_left(all.take(0), finished));
    }
    while i < column.len()
        invariant
            all == column_texts(column@),
            finished == crate::text::texts(done@),
            i <= column@.len(),
            crate::text::texts(out@) == tickers_left(all.take(i as int), finished),
        decreases column@.len() - i,
    {
        proof {
            assert(all.take(i + 1).drop_last() =~= all.take(i as int));
        }
        if let Some(t) = &column[i] {
            if !holds_text(done, t.as_str()) && !holds_text(&out, t.as_str()) {
                let ghost before = crate::text::texts(out@);
                out.push(t.clone());
                proof {
                    assert(crate::text::texts(out@) =~= before.push(t@));
                }
            }
        }
        i += 1;
    }
    proof {
        assert(all.take(column@.len() as int) =~= all);
    }
    out
}

/// The tickers that are left are those of the column that are not done, and
/// each is listed once.
pub proof fn law_tickers_left(column: Seq<Option<Seq<char>>>, done: Seq<Seq<char>>)
    ensures
        tickers_left(column, done).no_duplicates(),
        forall|t: Seq<char>|
            #[trigger] tickers_left(column, done).contains(t) <==> column.contains(Some(t))
                && !done.contains(t),
    decreases column.len(),
{
    if column.len() > 0 {
        let rest = column.drop_last();
        let before = tickers_left(rest, done);
        let after = tickers_left(column, done);
        law_tickers_left(rest, done);
        assert forall|t: Seq<char>| #[trigger] after.contains(t) <==> column.contains(Some(t))
            && !done.contains(t) by {
            if column.contains(Some(t)) && !done.contains(t) {
                let i = choose|i: int| 0 <= i < column.len() && column[i] == Some(t);
                if i < rest.len() {
                    assert(rest[i] == Some(t));
                    assert(rest.contains(Some(t)));
                }
                if before.contains(t) {
                    let k = choose|k: int| 0 <= k < before.len() && before[k] == t;
                    assert(after[k] == t);
                } else {
                    assert(after.last() == t);
                }
            }
            if after.contains(t) {
                let k = choose|k: int| 0 <= k < after.len() && after[k] == t;
                if k < before.len() {
                    assert(before[k] == t);
                    assert(before.contains(t));
                    let i = choose|i: int| 0 <= i < rest.len() && rest[i] == Some(t);
                    assert(column[i] == Some(t));
                } else {
                    assert(column[column.len() - 1] == Some(t));
                }
            }
        }
    }
}

proof fn lemma_split_whole(s: Seq<char>, c: char)
    requires
        !s.contains(c),
    ensures
        crate::text::split(s, c) == seq![s],
    decreases s.len(),
{
    if s.len() == 0 {
        assert(s =~= Seq::empty());
    } else {
        let rest = s.drop_last();
        assert(!rest.contains(c)) by {
            if rest.contains(c) {
                let i = choose|i: int| 0 <= i < rest.len() && rest[i] == c;
                assert(s[i] == c);
            }
        }
        lemma_split_whole(rest, c);
        assert(s[s.len() - 1] == s.last());
        assert(rest.push(s.last()) =~= s);
    }
    assert(crate::text::split(s, c) =~= seq![s]);
}

proof fn lemma_split_nonempty(s: Seq<char>, c: char)
    ensures
        crate::text::split(s, c).len() > 0,
    decreases s.len(),
{
    if s.len() > 0 {
        lemma_split_nonempty(s.drop_last(), c);
    }
}

proof fn lemma_split_join(a: Seq<char>, b: Seq<char>, c: char)
    ensures
        crate::text::split(a + seq![c] + b, c) == crate::text::split(a, c) + crate::text::split(
            b,
            c,
        ),
    decreases b.len(),
{
    let s = a + seq![c] + b;
    lemma_split_nonempty(b, c);
    if b.len() == 0 {
        assert(s.drop_last() =~= a);
        assert(crate::text::split(s, c) =~= crate::text::split(a, c) + crate::text::split(b, c));
    } else {
        let rest = b.drop_last();
        lemma_split_join(a, rest, c);
        lemma_split_nonempty(rest, c);
        assert(s.drop_last() =~= a + seq![c] + rest);
        assert(crate::text::split(s, c) =~= crate::text::split(a, c) + crate::text::split(b, c));
    }
}

/// The ticker is read back from the name of its fit file, as long as neither it
/// nor its universe holds an underscore.
pub proof fn law_fit_file_names_its_ticker(universe: Seq<char>, ticker: Seq<char>)
    requires
        !universe.contains('_'),
        !ticker.contains('_'),
    ensures
        symbol_in(fit_stem(universe, ticker)) == Some(ticker),
{
    reveal_strlit("fit_");
    reveal_strlit("_");
    let fit = seq!['f', 'i', 't'];
    assert("fit_"@ =~= fit + seq!['_']);
    assert("_"@ =~= seq!['_']);
    let tail = universe + seq!['_'] + ticker;
    assert(fit_stem(universe, ticker) =~= fit + seq!['_'] + tail);
    lemma_split_join(fit, tail, '_');
    lemma_split_join(universe, ticker, '_');
    lemma_split_whole(fit, '_');
    lemma_split_whole(universe, '_');
    lemma_split_whole(ticker, '_');
}

/// A ticker whose backtest file is among the entries is done: the stem of the
/// file is the ticker.
pub proof fn law_saved_backtest_is_finished(entries: Seq<DirEntry>, k: int, ticker: Seq<char>)
    requires
        0 <= k < entries.len(),
        entries[k].stem_with("parquet"@) == Some(ticker),
    ensures
        tested_tickers(entries).contains(ticker),
    decreases entries.len(),
{
    let after = tested_tickers(entries);
    if k == entries.len() - 1 {
        assert(after.last() == ticker);
    } else {
        let rest = entries.drop_last();
        law_saved_backtest_is_finished(rest, k, ticker);
        let before = tested_tickers(rest);
        let i = choose|i: int| 0 <= i < before.len() && before[i] == ticker;
        assert(after[i] == ticker);
    }
}

proof fn lemma_listed_stems(entries: Seq<DirEntry>, ticker: Seq<char>)
    ensures
        tested_tickers(entries).contains(ticker) ==> exists|k: int|
            0 <= k < entries.len() && (#[trigger] entries[k]).is_file && known_name(
                entries[k].extension,
                "parquet"@,
            ) && known_name(entries[k].stem, ticker),
    decreases entries.len(),
{
    if entries.len() > 0 && tested_tickers(entries).contains(ticker) {
        let rest = entries.drop_last();
        let before = tested_tickers(rest);
        let after = tested_tickers(entries);
        lemma_listed_stems(rest, ticker);
        let i = choose|i: int| 0 <= i < after.len() && after[i] == ticker;
        if i < before.len() {
            assert(before[i] == ticker);
            assert(before.contains(ticker));
            let k = choose|k: int|
                0 <= k < rest.len() && (#[trigger] rest[k]).is_file && known_name(
                    rest[k].extension,
                    "parquet"@,
                ) && known_name(rest[k].stem, ticker);
            assert(entries[k] == rest[k]);
        } else {
            let k = entries.len() - 1;
            assert(entries[k].is_file && known_name(entries[k].extension, "parquet"@)
                && known_name(entries[k].stem, ticker));
        }
    }
}

/// The text is there and is the given one.
pub open spec fn known_name(text: Option<String>, name: Seq<char>) -> bool {
    text matches Some(t) && t@ == name
}

/// A ticker is done exactly where the folder of the backtests holds a file of
/// its name with the extension of a backtest.
pub proof fn law_tested_tickers_have_files(entries: Seq<DirEntry>, ticker: Seq<char>)
    ensures
        tested_tickers(entries).contains(ticker) <==> exists|k: int|
            0 <= k < entries.len() && (#[trigger] entries[k]).is_file && known_name(
                entries[k].extension,
                "parquet"@,
            ) && known_name(entries[k].stem, ticker),
{
    lemma_listed_stems(entries, ticker);
    if exists|k: int|
        0 <= k < entries.len() && (#[trigger] entries[k]).is_file && known_name(
            entries[k].extension,
            "parquet"@,
        ) && known_name(entries[k].stem, ticker) {
        let k = choose|k: int|
            0 <= k < entries.len() && (#[trigger] entries[k]).is_file && known_name(
                entries[k].extension,
                "parquet"@,
            ) && known_name(entries[k].stem, ticker);
        law_saved_backtest_is_finished(entries, k, ticker);
    }
}

/// A ticker is fitted exactly where the folder of the fits holds a file with the
/// extension of a fit whose name has the ticker in the third place.
pub proof fn law_fitted_tickers_have_files(entries: Seq<DirEntry>, ticker: Seq<char>)
    ensures
        fitted_tickers(entries).contains(ticker) <==> exists|k: int|
            0 <= k < entries.len() && (#[trigger] entries[k]).is_file && known_name(
                entries[k].extension,
                "csv"@,
            ) && (entries[k].stem matches Some(stem) && crate::text::split(stem@, '_').len() >= 3
                && crate::text::split(stem@, '_')[2] == ticker),
    decreases entries.len(),
{
    if entries.len() > 0 {
        let rest = entries.drop_last();
        let before = fitted_tickers(rest);
        let after = fitted_tickers(entries);
        let last = entries.len() - 1;
        law_fitted_tickers_have_files(rest, ticker);
        if after.contains(ticker) {
            let i = choose|i: int| 0 <= i < after.len() && after[i] == ticker;
            if i < before.len() {
                assert(before[i] == ticker);
                assert(before.contains(ticker));
                let k = choose|k: int|
                    0 <= k < rest.len() && (#[trigger] rest[k]).is_file && known_name(
                        rest[k].extension,
                        "csv"@,
                    ) && (rest[k].stem matches Some(stem) && crate::text::split(stem@, '_').len()
                        >= 3 && crate::text::split(stem@, '_')[2] == ticker);
                assert(entries[k] == rest[k]);
            } else {
                assert(entries[last].is_file && known_name(entries[last].extension, "csv"@));
            }
        }
        if exists|k: int|
            0 <= k < entries.len() && (#[trigger] entries[k]).is_file && known_name(
                entries[k].extension,
                "csv"@,
            ) && (entries[k].stem matches Some(stem) && crate::text::split(stem@, '_').len() >= 3
                && crate::text::split(stem@, '_')[2] == ticker) {
            let k = choose|k: int|
                0 <= k < entries.len() && (#[trigger] entries[k]).is_file && known_name(
                    entries[k].extension,
                    "csv"@,
                ) && (entries[k].stem matches Some(stem) && crate::text::split(stem@, '_').len()
                    >= 3 && crate::text::split(stem@, '_')[2] == ticker);
            if k < last {
                assert(rest[k] == entries[k]);
                assert(before.contains(ticker));
                let i = choose|i: int| 0 <= i < before.len() && before[i] == ticker;
                assert(after[i] == ticker);
            } else {
                assert(after.last() == ticker);
            }
        }
    }
}

/// The tickers that are left stand in the order of their first rows: every row
/// of one comes after some row of each ticker that is listed before it.
pub proof fn law_tickers_left_in_order(
    column: Seq<Option<Seq<char>>>,
    done: Seq<Seq<char>>,
    g: int,
    h: int,
    i: int,
)
    requires
        0 <= g < h < tickers_left(column, done).len(),
        0 <= i < column.len(),
        column[i] == Some(tickers_left(column, done)[h]),
    ensures
        exists|j: int| 0 <= j < i && #[trigger] column[j] == Some(tickers_left(column, done)[g]),
    decreases column.len(),
{
    let rest = column.drop_last();
    let before = tickers_left(rest, done);
    let after = tickers_left(column, done);
    law_tickers_left(rest, done);
    law_tickers_left(column, done);
    assert(after[g] == before[g]);
    assert(before.contains(before[g]));
    let j = choose|j: int| 0 <= j < rest.len() && rest[j] == Some(before[g]);
    assert(column[j] == Some(after[g]));
    if i < rest.len() {
        assert(rest[i] == column[i]);
        if h < before.len() {
            law_tickers_left_in_order(rest, done, g, h, i);
            let k = choose|k: int| 0 <= k < i && #[trigger] rest[k] == Some(before[g]);
            assert(column[k] == Some(after[g]));
        } else {
            assert(rest.contains(Some(after[h])));
            assert(after.contains(after[h]));
            assert(before.contains(after[h]));
            let k = choose|k: int| 0 <= k < before.len() && before[k] == after[h];
            assert(after[k] == after[h]);
        }
    }
}

/// Two texts are the same where they stand between the same two texts.
pub(crate) proof fn lemma_same_between(head: Seq<char>, a: Seq<char>, b: Seq<char>, tail: Seq<char>)
    requires
        head + a + tail == head + b + tail,
    ensures
        a == b,
{
    let x = head + a + tail;
    let y = head + b + tail;
    assert(x.len() == y.len());
    assert(a.len() == b.len());
    assert forall|i: int| 0 <= i < a.len() implies a[i] == b[i] by {
        assert(x[head.len() + i] == y[head.len() + i]);
    }
    assert(a =~= b);
}

/// No two tickers of a universe share a file of fits or of backtests, no two
/// universes a price file, and no two days a file of scores, a list of buys or
/// one of sells.
pub proof fn law_files_are_told_apart(
    path: Seq<char>,
    folder: Seq<char>,
    universe: Seq<char>,
    stocks: bool,
    buys: bool,
    a: Seq<char>,
    b: Seq<char>,
)
    ensures
        fit_file_text(path, folder, universe, a) == fit_file_text(path, folder, universe, b) ==> a
            == b,
        backtest_file_text(path, universe, folder, a) == backtest_file_text(
            path,
            universe,
            folder,
            b,
        ) ==> a == b,
        price_file_text(path, folder, a) == price_file_text(path, folder, b) ==> a == b,
        score_file_text(path, stocks, a) == score_file_text(path, stocks, b) ==> a == b,
        performance_file_text(path, signal_list_name(stocks, buys, a)) == performance_file_text(
            path,
            signal_list_name(stocks, buys, b),
        ) ==> a == b,
{
    if fit_file_text(path, folder, universe, a) == fit_file_text(path, folder, universe, b) {
        let head = fit_dir_text(path, folder) + "/"@ + ("fit_"@ + universe + "_"@);
        assert(fit_file_text(path, folder, universe, a) =~= head + a + ".csv"@);
        assert(fit_file_text(path, folder, universe, b) =~= head + b + ".csv"@);
        lemma_same_between(head, a, b, ".csv"@);
    }
    if backtest_file_text(path, universe, folder, a) == backtest_file_text(
        path,
        universe,
        folder,
        b,
    ) {
        let head = output_dir_text(path, universe == "Crypto"@, folder) + "/"@;
        lemma_same_between(head, a, b, ".parquet"@);
    }
    if price_file_text(path, folder, a) == price_file_text(path, folder, b) {
        lemma_same_between(path + "/data/"@ + folder + "/"@, a, b, ".csv"@);
    }
    if score_file_text(path, stocks, a) == score_file_text(path, stocks, b) {
        lemma_same_between(path + "/score/"@ + assets_text(stocks) + "_"@, a, b, ".csv"@);
    }
    let x = signal_list_name(stocks, buys, a);
    let y = signal_list_name(stocks, buys, b);
    if performance_file_text(path, x) == performance_file_text(path, y) {
        lemma_same_between(path + "/performance/"@, x, y, ".csv"@);
        let head = assets_text(stocks) + (if buys {
            "_buys_"@
        } else {
            "_sells_"@
        });
        assert(x =~= head + a + Seq::empty());
        assert(y =~= head + b + Seq::empty());
        lemma_same_between(head, a, b, Seq::empty());
    }
}

} // verus!

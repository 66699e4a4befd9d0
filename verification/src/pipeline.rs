//! The decisions of a run: what it covers, which rows it fits, how prices are
//! kept and scaled, and what is removed before it starts.
use crate::batches::{batches, Batch};
use crate::double::Double;
use crate::nested_fits::Nesting;
use crate::paths::{finished_backtests, finished_fits, needed_tickers, DirEntry};
use crate::text::{begins_with, holds_text, same_text};
use vstd::prelude::*;
use vstd::string::*;

verus! {

/// How many tickers are worked on at a time.
pub const BATCH_SIZE: usize = 10;

/// How many of the last rows a production fit uses.
pub const PRODUCTION_ROWS: usize = 120;

/// How many of the best strategies a test run shows.
pub const SHOWN_STRATEGIES: usize = 5;

/// The infinities, by which an empty range of prices is bounded.
pub const INFINITY: u64 = 0x7FF0_0000_0000_0000;
pub const NEG_INFINITY: u64 = 0xFFF0_0000_0000_0000;

/// The universes that a name stands for.
pub open spec fn universes_of(name: Seq<char>) -> Seq<Seq<char>> {
    if name == "SC"@ {
        seq!["SC1"@, "SC2"@, "SC3"@, "SC4"@]
    } else if name == "MC"@ {
        seq!["MC1"@, "MC2"@]
    } else if name == "MC1"@ {
        seq!["MC1"@]
    } else if name == "LC"@ {
        seq!["LC1"@, "LC2"@]
    } else if name == "Micro"@ {
        seq!["Micro1"@, "Micro2"@, "Micro3"@, "Micro4"@]
    } else if name == "Stocks"@ {
        seq![
            "SC1"@,
            "SC2"@,
            "SC3"@,
            "SC4"@,
            "MC1"@,
            "MC2"@,
            "LC1"@,
            "LC2"@,
            "Micro1"@,
            "Micro2"@,
            "Micro3"@,
            "Micro4"@,
        ]
    } else {
        seq!["Crypto"@]
    }
}

/// The universes that a name stands for; any other name stands for `Crypto`.
pub fn universes(name: &str) -> (r: Vec<String>)
    ensures
        crate::text::texts(r@) == universes_of(name@),
{
    let mut out: Vec<String> = Vec::new();
    if same_text(name, "SC") {
        out.push("SC1".to_owned());
        out.push("SC2".to_owned());
        out.push("SC3".to_owned());
        out.push("SC4".to_owned());
    } else if same_text(name, "MC") {
        out.push("MC1".to_owned());
        out.push("MC2".to_owned());
    } else if same_text(name, "MC1") {
        out.push("MC1".to_owned());
    } else if same_text(name, "LC") {
        out.push("LC1".to_owned());
        out.push("LC2".to_owned());
    } else if same_text(name, "Micro") {
        out.push("Micro1".to_owned());
        out.push("Micro2".to_owned());
        out.push("Micro3".to_owned());
        out.push("Micro4".to_owned());
    } else if same_text(name, "Stocks") {
        out.push("SC1".to_owned());
        out.push("SC2".to_owned());
        out.push("SC3".to_owned());
        out.push("SC4".to_owned());
        out.push("MC1".to_owned());
        out.push("MC2".to_owned());
        out.push("LC1".to_owned());
        out.push("LC2".to_owned());
        out.push("Micro1".to_owned());
        out.push("Micro2".to_owned());
        out.push("Micro3".to_owned());
        out.push("Micro4".to_owned());
    } else {
        out.push("Crypto".to_owned());
    }
    proof {
        assert(crate::text::texts(out@) =~= universes_of(name@));
    }
    out
}

/// What a run covers and where its files lie.
pub struct RunSettings {
    pub name: String,
    pub folder: String,
    pub path: String,
    pub production: bool,
    pub universes: Vec<String>,
    pub stocks: bool,
}

/// The argument at a place, or a default without one.
pub open spec fn argument(args: Seq<String>, place: int, default: Seq<char>) -> Seq<char> {
    if place < args.len() {
        args[place]@
    } else {
        default
    }
}

/// The directory of the project files without a path argument.
pub open spec fn default_path(setting: Option<String>) -> Seq<char> {
    crate::paths::project_text(
        match setting {
            Some(path) => path@,
            None => "/Users/rogerbos"@,
        },
    )
}

/// The settings of a run from its command line, of which the first word is the
/// program's name, and from the user's directory where one is set: the
/// universe, the folder, and the path of the project files.
pub fn run_settings(args: &Vec<String>, setting: Option<String>) -> (r: RunSettings)
    ensures
        r.name@ == argument(args@, 1, "Crypto"@),
        r.folder@ == argument(args@, 2, "testing"@),
        r.path@ == argument(args@, 3, default_path(setting)),
        r.production == (r.folder@ == "production"@),
        crate::text::texts(r.universes@) == universes_of(r.name@),
        r.stocks == !universes_of(r.name@).contains("Crypto"@),
{
    let name = if args.len() > 1 {
        args[1].clone()
    } else {
        "Crypto".to_owned()
    };
    let folder = if args.len() > 2 {
        args[2].clone()
    } else {
        "testing".to_owned()
    };
    let path = if args.len() > 3 {
        args[3].clone()
    } else {
        let mut s = match setting {
            Some(user) => user,
            None => "/Users/rogerbos".to_owned(),
        };
        s.append("/rust_home/lppl_new");
        s
    };
    let production = same_text(folder.as_str(), "production");
    let list = universes(name.as_str());
    let stocks = !holds_text(&list, "Crypto");
    RunSettings { name, folder, path, production, universes: list, stocks }
}

/// The tag by which a backtest picks its strategies.
pub open spec fn backtest_tag_text(production: bool, univ: Seq<char>) -> Seq<char> {
    if !production {
        "testing"@
    } else if univ == "Crypto"@ {
        "crypto"@
    } else if "Micro"@.is_prefix_of(univ) {
        "micro"@
    } else if "SC"@.is_prefix_of(univ) {
        "sc"@
    } else if "MC"@.is_prefix_of(univ) {
        "mc"@
    } else if "LC"@.is_prefix_of(univ) {
        "lc"@
    } else {
        "crypto"@
    }
}

/// The tag by which a backtest picks its strategies.
pub fn backtest_tag(production: bool, univ: &str) -> (r: String)
    ensures
        r@ == backtest_tag_text(production, univ@),
{
    if !production {
        "testing".to_owned()
    } else if same_text(univ, "Crypto") {
        "crypto".to_owned()
    } else if begins_with(univ, "Micro") {
        "micro".to_owned()
    } else if begins_with(univ, "SC") {
        "sc".to_owned()
    } else if begins_with(univ, "MC") {
        "mc".to_owned()
    } else if begins_with(univ, "LC") {
        "lc".to_owned()
    } else {
        "crypto".to_owned()
    }
}

/// In production every listed universe picks a strategy of its own beside the
/// one that all share.
pub proof fn law_every_universe_has_its_strategy(name: Seq<char>, k: int)
    requires
        0 <= k < universes_of(name).len(),
    ensures
        crate::strategies::tagged_rule(backtest_tag_text(true, universes_of(name)[k])) is Some,
{
    reveal_strlit("Micro");
    reveal_strlit("SC");
    reveal_strlit("MC");
    reveal_strlit("LC");
}

/// The tickers that a helper still has to work on, and the batches it works in.
/// A batch starts where so many tickers are already done.
pub struct Plan {
    pub needed: Vec<String>,
    pub batches: Vec<Batch>,
}

impl Plan {
    /// The plan lists the tickers of a column that are not done, in batches of
    /// at most `size`.
    pub open spec fn covers(
        self,
        column: Seq<Option<Seq<char>>>,
        done: Seq<Seq<char>>,
        size: int,
    ) -> bool {
        let left = crate::paths::tickers_left(column, done);
        &&& crate::text::texts(self.needed@) == left
        &&& self.batches@ == Seq::new(
            crate::batches::batch_count(left.len() as int, size) as nat,
            |k: int| crate::batches::batch(left.len() as int, size, k),
        )
    }
}

fn plan(column: &Vec<Option<String>>, done: &Vec<String>, size: usize) -> (r: Plan)
    requires
        size > 0,
    ensures
        r.covers(crate::paths::column_texts(column@), crate::text::texts(done@), size as int),
{
    let needed = needed_tickers(column, done);
    let cut = batches(needed.len(), size);
    Plan { needed, batches: cut }
}

/// What is left to backtest of a column of tickers, given the entries of the
/// folder of the backtests.
pub fn backtest_helper(
    column: &Vec<Option<String>>,
    entries: &Vec<DirEntry>,
    batch_size: usize,
) -> (r: Plan)
    requires
        batch_size > 0,
    ensures
        r.covers(
            crate::paths::column_texts(column@),
            crate::paths::tested_tickers(entries@),
            batch_size as int,
        ),
{
    let done = finished_backtests(entries);
    plan(column, &done, batch_size)
}

/// What is left to fit of a column of tickers, given the entries of the folder
/// of the fits.
pub fn fits_helper(
    column: &Vec<Option<String>>,
    entries: &Vec<DirEntry>,
    batch_size: usize,
) -> (r: Plan)
    requires
        batch_size > 0,
    ensures
        r.covers(
            crate::paths::column_texts(column@),
            crate::paths::fitted_tickers(entries@),
            batch_size as int,
        ),
{
    let done = finished_fits(entries);
    plan(column, &done, batch_size)
}

/// Every ticker that is left is worked on in exactly one batch.
pub proof fn law_every_ticker_has_one_batch(
    plan: Plan,
    column: Seq<Option<Seq<char>>>,
    done: Seq<Seq<char>>,
    size: int,
    i: int,
)
    requires
        plan.covers(column, done, size),
        0 < size <= usize::MAX,
        0 <= i < plan.needed@.len() <= usize::MAX,
    ensures
        exists|k: int|
            0 <= k < plan.batches@.len() && (#[trigger] plan.batches@[k]).start <= i
                < plan.batches@[k].end,
        forall|j: int, k: int|
            0 <= j < plan.batches@.len() && 0 <= k < plan.batches@.len() && (
            #[trigger] plan.batches@[j]).start <= i < plan.batches@[j].end && (
            #[trigger] plan.batches@[k]).start <= i < plan.batches@[k].end ==> j == k,
{
    let n = plan.needed@.len() as int;
    crate::batches::law_place_has_one_batch(n, size, i);
    let k = i / size;
    assert(plan.batches@[k] == crate::batches::batch(n, size, k));
    assert forall|j: int, k: int|
        0 <= j < plan.batches@.len() && 0 <= k < plan.batches@.len() && (
        #[trigger] plan.batches@[j]).start <= i < plan.batches@[j].end && (
        #[trigger] plan.batches@[k]).start <= i < plan.batches@[k].end implies j == k by {
        assert(plan.batches@[j] == crate::batches::batch(n, size, j));
        assert(plan.batches@[k] == crate::batches::batch(n, size, k));
    }
}

/// A run that has finished every ticker of the column needs none of them again.
pub proof fn law_finished_run_needs_nothing(column: Seq<Option<Seq<char>>>, done: Seq<Seq<char>>)
    requires
        forall|t: Seq<char>| #[trigger] column.contains(Some(t)) ==> done.contains(t),
    ensures
        crate::paths::tickers_left(column, done).len() == 0,
{
    crate::paths::law_tickers_left(column, done);
    let left = crate::paths::tickers_left(column, done);
    if left.len() > 0 {
        assert(left.contains(left[0]));
        assert(column.contains(Some(left[0])));
    }
}

/// The first row that a fit of `rows` rows uses: all of them in a test, the
/// last ones otherwise.
pub fn first_fitted_row(tag: &str, rows: usize) -> (r: usize)
    ensures
        r == (if tag@ == "testing"@ || rows <= PRODUCTION_ROWS {
            0
        } else {
            rows - PRODUCTION_ROWS
        }),
        r <= rows,
        tag@ == "testing"@ ==> r == 0,
        tag@ != "testing"@ && rows > 120 ==> rows - r == 120,
        rows <= 120 ==> r == 0,
{
    if same_text(tag, "testing") || rows <= PRODUCTION_ROWS {
        0
    } else {
        rows - PRODUCTION_ROWS
    }
}

/// The windows that a fit run uses.
pub fn run_fits_nesting() -> (r: Nesting)
    ensures
        r == (Nesting { size: 120, smallest: 30, outer: 1, inner: 5 }),
{
    Nesting { size: 120, smallest: 30, outer: 1, inner: 5 }
}

/// A production run has one place for its outer window: it fits the windows
/// that end at the last row, and no others.
pub proof fn law_production_fits_end_today(k: int)
    requires
        0 <= k < (Nesting { size: 120, smallest: 30, outer: 1, inner: 5 }).windows(
            PRODUCTION_ROWS as int,
        ).len(),
    ensures
        (Nesting { size: 120, smallest: 30, outer: 1, inner: 5 }).windows(
            PRODUCTION_ROWS as int,
        ).len() == 18,
        (Nesting { size: 120, smallest: 30, outer: 1, inner: 5 }).windows(
            PRODUCTION_ROWS as int,
        )[k] == (crate::nested_fits::Window { start: (5 * k) as usize, end: 120 }),
{
    assert(k / 18 == 0 && k % 18 == k);
}

/// A price that a logarithm can be taken of.
pub open spec fn usable_price(price: Option<Double>) -> bool {
    price matches Some(p) && p.rank() > 0
}

/// The rows with a usable closing price.
pub open spec fn usable_rows(close: Seq<Option<Double>>) -> Seq<usize>
    decreases close.len(),
{
    if close.len() == 0 {
        Seq::empty()
    } else {
        let before = usable_rows(close.drop_last());
        if usable_price(close.last()) {
            before.push((close.len() - 1) as usize)
        } else {
            before
        }
    }
}

/// The rows of a price file that are kept: those whose closing price is there
/// and above zero. A price that is not a number counts as above zero.
pub fn read_price_file(close: &Vec<Option<Double>>) -> (rows: Vec<usize>)
    ensures
        rows@ == usable_rows(close@),
        forall|i: int|
            0 <= i < close@.len() && ((#[trigger] close@[i]) matches Some(p) && (Double {
                bits: 0,
            }).below(p)) ==> rows@.contains(i as usize),
        forall|k: int|
            0 <= k < rows@.len() ==> (#[trigger] rows@[k]) < close@.len() && close@[rows@[k] as int]
                is Some,
{
    let mut rows: Vec<usize> = Vec::new();
    let mut i: usize = 0;
    while i < close.len()
        invariant
            i <= close@.len(),
            rows@ == usable_rows(close@.take(i as int)),
        decreases close@.len() - i,
    {
        proof {
            assert(close@.take(i + 1).drop_last() =~= close@.take(i as int));
        }
        if let Some(p) = close[i] {
            if p.rank_value() > 0 {
                rows.push(i);
            }
        }
        i += 1;
    }
    let n: usize = close.len();
    proof {
        assert(n == close@.len());
        assert(close@.take(close@.len() as int) =~= close@);
        law_usable_rows(close@);
        assert forall|i: int|
            0 <= i < close@.len() && ((#[trigger] close@[i]) matches Some(p) && (Double {
                bits: 0,
            }).below(p)) implies rows@.contains(i as usize) by {
            law_positive_prices_are_kept(close@, i);
        }
    }
    rows
}

/// The kept rows are those with a usable price, all of them, in their order; a
/// price that is kept and is a number is above zero.
pub proof fn law_usable_rows(close: Seq<Option<Double>>)
    requires
        close.len() <= usize::MAX,
    ensures
        forall|k: int|
            0 <= k < usable_rows(close).len() ==> (#[trigger] usable_rows(close)[k]) < close.len()
                && (close[usable_rows(close)[k] as int] matches Some(p) && (!p.nan() ==> (Double {
                bits: 0,
            }).below(p))),
        forall|k: int, l: int|
            0 <= k < l < usable_rows(close).len() ==> (#[trigger] usable_rows(close)[k]) < (
            #[trigger] usable_rows(close)[l]),
        forall|i: int|
            0 <= i < close.len() && usable_price(#[trigger] close[i]) ==> usable_rows(
                close,
            ).contains(i as usize),
    decreases close.len(),
{
    if close.len() > 0 {
        let rest = close.drop_last();
        law_usable_rows(rest);
        let before = usable_rows(rest);
        let after = usable_rows(close);
        assert forall|k: int| 0 <= k < after.len() implies (#[trigger] after[k]) < close.len() && (
        close[after[k] as int] matches Some(p) && (!p.nan() ==> (Double { bits: 0 }).below(p))) by {
            if k < before.len() {
                assert(after[k] == before[k]);
                assert(rest[before[k] as int] == close[after[k] as int]);
            }
        }
        assert forall|k: int, l: int| 0 <= k < l < after.len() implies (#[trigger] after[k]) < (
        #[trigger] after[l]) by {
            assert(after[k] == before[k]);
            if l < before.len() {
                assert(before[k] < before[l]);
            }
        }
        assert forall|i: int|
            0 <= i < close.len() && usable_price(#[trigger] close[i]) implies after.contains(
            i as usize,
        ) by {
            if i < rest.len() {
                assert(rest[i] == close[i]);
                let k = choose|k: int| 0 <= k < before.len() && before[k] == i as usize;
                assert(after[k] == i as usize);
            } else {
                assert(after.last() == i as usize);
            }
        }
    }
}

/// The range of a list of prices.
#[derive(Clone, Copy, PartialEq, Eq, Structural, Debug)]
pub struct Bounds {
    pub low: Double,
    pub high: Double,
}

/// The range of the numbers in a list, as a fold from an empty range: from
/// plus infinity below to minus infinity above.
pub open spec fn bounds_of(values: Seq<Double>) -> Bounds
    decreases values.len(),
{
    if values.len() == 0 {
        Bounds { low: Double { bits: INFINITY }, high: Double { bits: NEG_INFINITY } }
    } else {
        let before = bounds_of(values.drop_last());
        Bounds {
            low: before.low.smaller_of(values.last()),
            high: before.high.larger_of(values.last()),
        }
    }
}

/// The range over which a list of prices is scaled.
pub fn min_max_bounds(observations: &Vec<Double>) -> (r: Bounds)
    ensures
        r == bounds_of(observations@),
{
    let mut low = Double { bits: INFINITY };
    let mut high = Double { bits: NEG_INFINITY };
    let mut i: usize = 0;
    while i < observations.len()
        invariant
            i <= observations@.len(),
            (Bounds { low, high }) == bounds_of(observations@.take(i as int)),
        decreases observations@.len() - i,
    {
        proof {
            assert(observations@.take(i + 1).drop_last() =~= observations@.take(i as int));
        }
        low = low.smaller(&observations[i]);
        high = high.larger(&observations[i]);
        i += 1;
    }
    proof {
        assert(observations@.take(observations@.len() as int) =~= observations@);
    }
    Bounds { low, high }
}

/// Every number of a list lies within its bounds.
pub proof fn law_values_lie_within_bounds(values: Seq<Double>, i: int)
    requires
        0 <= i < values.len(),
        !values[i].nan(),
    ensures
        bounds_of(values).low.at_most(values[i]),
        values[i].at_most(bounds_of(values).high),
    decreases values.len(),
{
    lemma_bounds_are_numbers(values.drop_last());
    if i < values.len() - 1 {
        law_values_lie_within_bounds(values.drop_last(), i);
    }
}

proof fn lemma_bounds_are_numbers(values: Seq<Double>)
    ensures
        !bounds_of(values).low.nan(),
        !bounds_of(values).high.nan(),
    decreases values.len(),
{
    if values.len() > 0 {
        lemma_bounds_are_numbers(values.drop_last());
    }
}

/// The bounds of a list that holds a finite number are values of the list, or
/// equal to one.
pub proof fn law_bounds_are_reached(values: Seq<Double>, i: int)
    requires
        0 <= i < values.len(),
        values[i].finite(),
    ensures
        exists|j: int| 0 <= j < values.len() && #[trigger] values[j] == bounds_of(values).low,
        exists|j: int| 0 <= j < values.len() && #[trigger] values[j] == bounds_of(values).high,
{
    law_values_lie_within_bounds(values, i);
    lemma_bounds_reached_or_empty(values);
}

proof fn lemma_bounds_reached_or_empty(values: Seq<Double>)
    ensures
        bounds_of(values).low.bits == INFINITY || exists|j: int|
            0 <= j < values.len() && #[trigger] values[j] == bounds_of(values).low,
        bounds_of(values).high.bits == NEG_INFINITY || exists|j: int|
            0 <= j < values.len() && #[trigger] values[j] == bounds_of(values).high,
    decreases values.len(),
{
    if values.len() > 0 {
        let rest = values.drop_last();
        lemma_bounds_reached_or_empty(rest);
        lemma_bounds_are_numbers(rest);
        let before = bounds_of(rest);
        let after = bounds_of(values);
        if after.low == before.low {
            if before.low.bits != INFINITY {
                let j = choose|j: int| 0 <= j < rest.len() && #[trigger] rest[j] == before.low;
                assert(values[j] == after.low);
            }
        } else {
            assert(values[values.len() - 1] == after.low);
        }
        if after.high == before.high {
            if before.high.bits != NEG_INFINITY {
                let j = choose|j: int| 0 <= j < rest.len() && #[trigger] rest[j] == before.high;
                assert(values[j] == after.high);
            }
        } else {
            assert(values[values.len() - 1] == after.high);
        }
    }
}

/// What lies at a path.
#[derive(Clone, Copy, PartialEq, Eq, Structural, Debug)]
pub enum PathKind {
    File,
    Folder,
    Other,
}

/// What is done with a path.
#[derive(Clone, Copy, PartialEq, Eq, Structural, Debug)]
pub enum Removal {
    /// Remove the file.
    File,
    /// Remove each entry of the folder.
    Entries,
    /// Remove the folder with all that it holds.
    Tree,
    /// Leave it.
    Nothing,
}

/// How a folder is emptied: a file at the path itself goes, a folder there
/// stays and loses its entries, each a file or a whole folder; what is neither
/// stays.
pub fn delete_all_files_in_folder(kind: PathKind, is_entry: bool) -> (r: Removal)
    ensures
        r == (match kind {
            PathKind::File => Removal::File,
            PathKind::Folder => if is_entry {
                Removal::Tree
            } else {
                Removal::Entries
            },
            PathKind::Other => Removal::Nothing,
        }),
{
    match kind {
        PathKind::File => Removal::File,
        PathKind::Folder => if is_entry {
            Removal::Tree
        } else {
            Removal::Entries
        },
        PathKind::Other => Removal::Nothing,
    }
}

/// Whether the price file of a universe is written: always in production, and
/// in a test where there is none yet.
pub fn writes_price_file(production: bool, exists_already: bool) -> (r: bool)
    ensures
        r == (production || !exists_already),
{
    production || !exists_already
}

/// Every closing price that is there and above zero is kept, and no missing one
/// and none at or below zero.
pub proof fn law_positive_prices_are_kept(close: Seq<Option<Double>>, i: int)
    requires
        0 <= i < close.len() <= usize::MAX,
    ensures
        (close[i] matches Some(p) && (Double { bits: 0 }).below(p)) ==> usable_rows(close).contains(
            i as usize,
        ),
        close[i] is None ==> !usable_rows(close).contains(i as usize),
        (close[i] matches Some(p) && p.at_most(Double { bits: 0 })) ==> !usable_rows(
            close,
        ).contains(i as usize),
        (close[i] matches Some(p) && p.nan()) ==> usable_rows(close).contains(i as usize),
{
    law_usable_rows(close);
}

/// The universes of stocks are those of the small, middle, large and smallest
/// companies together, and hold no crypto currency.
pub proof fn law_stocks_are_all_companies()
    ensures
        universes_of("Stocks"@) == universes_of("SC"@) + universes_of("MC"@) + universes_of("LC"@)
            + universes_of("Micro"@),
        !universes_of("Stocks"@).contains("Crypto"@),
        universes_of("Crypto"@) == seq!["Crypto"@],
        universes_of("MC1"@) == seq![universes_of("MC"@)[0]],
{
    reveal_strlit("SC");
    reveal_strlit("MC");
    reveal_strlit("MC1");
    reveal_strlit("LC");
    reveal_strlit("Micro");
    reveal_strlit("Stocks");
    reveal_strlit("Crypto");
    assert("SC"@.len() == 2 && "MC"@.len() == 2 && "LC"@.len() == 2 && "MC1"@.len() == 3
        && "Micro"@.len() == 5 && "Stocks"@.len() == 6 && "Crypto"@.len() == 6);
    assert("SC"@[0] == 'S' && "MC"@[0] == 'M' && "LC"@[0] == 'L');
    assert("Stocks"@[0] == 'S' && "Crypto"@[0] == 'C');
    assert(universes_of("Stocks"@) =~= universes_of("SC"@) + universes_of("MC"@) + universes_of(
        "LC"@,
    ) + universes_of("Micro"@));
    reveal_strlit("SC1");
    reveal_strlit("SC2");
    reveal_strlit("SC3");
    reveal_strlit("SC4");
    reveal_strlit("MC2");
    reveal_strlit("LC1");
    reveal_strlit("LC2");
    reveal_strlit("Micro1");
    reveal_strlit("Micro2");
    reveal_strlit("Micro3");
    reveal_strlit("Micro4");
    let all = universes_of("Stocks"@);
    assert forall|k: int| 0 <= k < all.len() implies all[k] != "Crypto"@ by {
        assert(all[k][0] != 'C');
    }
    assert(universes_of("MC1"@) =~= seq![universes_of("MC"@)[0]]);
}

/// In production a universe follows the levels that were calibrated for its
/// companies, by the beginning of its name: 0.70 and 0.20 for the large ones,
/// 0.75 and 0.15 for the middle ones, and the least active corner of the grid
/// for all others.
pub proof fn law_universes_are_calibrated(univ: Seq<char>)
    ensures
        ({
            let rules = crate::strategies::rules(backtest_tag_text(true, univ), true);
            &&& rules.len() == 2
            &&& rules[1] == (if "LC"@.is_prefix_of(univ) {
                crate::strategies::Rule::Confidence { pos_level: 70, neg_level: 20 }
            } else if "MC"@.is_prefix_of(univ) {
                crate::strategies::Rule::Confidence { pos_level: 75, neg_level: 15 }
            } else {
                crate::strategies::Rule::Confidence { pos_level: 80, neg_level: 80 }
            })
        }),
{
    reveal_strlit("Crypto");
    reveal_strlit("Micro");
    reveal_strlit("SC");
    reveal_strlit("MC");
    reveal_strlit("LC");
    reveal_strlit("sc");
    reveal_strlit("mc");
    reveal_strlit("lc");
    reveal_strlit("micro");
    reveal_strlit("crypto");
    reveal_strlit("SC1");
    reveal_strlit("SC2");
    reveal_strlit("SC3");
    reveal_strlit("SC4");
    reveal_strlit("MC1");
    reveal_strlit("MC2");
    reveal_strlit("Micro1");
    reveal_strlit("Micro2");
    reveal_strlit("Micro3");
    reveal_strlit("Micro4");
    reveal_strlit("LC1");
    reveal_strlit("LC2");
    assert("LC1"@.len() == 3 && "LC2"@.len() == 3);
    assert("sc"@[0] == 's' && "mc"@[0] == 'm' && "lc"@[0] == 'l');
    assert("SC1"@.len() == 3 && "SC2"@.len() == 3 && "SC3"@.len() == 3 && "SC4"@.len() == 3);
    assert("MC1"@.len() == 3 && "MC2"@.len() == 3 && "micro"@.len() == 5 && "crypto"@.len() == 6);
    assert("Micro1"@.len() == 6 && "Micro2"@.len() == 6 && "Micro3"@.len() == 6
        && "Micro4"@.len() == 6);
    assert("crypto"@[0] == 'c' && "micro"@[0] == 'm' && "mc"@.len() == 2 && "lc"@.len() == 2);
    assert("Micro1"@[0] == 'M' && "Micro2"@[0] == 'M' && "Micro3"@[0] == 'M' && "Micro4"@[0]
        == 'M');
    assert("LC"@.is_prefix_of(univ) ==> univ[0] == 'L' && univ.len() >= 2) by {
        if "LC"@.is_prefix_of(univ) {
            assert(univ.subrange(0, 2)[0] == univ[0]);
            assert("LC"@[0] == 'L');
        }
    }
    assert("MC"@.is_prefix_of(univ) ==> univ[0] == 'M' && univ[1] == 'C') by {
        if "MC"@.is_prefix_of(univ) {
            assert(univ.subrange(0, 2)[0] == univ[0]);
            assert(univ.subrange(0, 2)[1] == univ[1]);
            assert("MC"@[0] == 'M' && "MC"@[1] == 'C');
        }
    }
    assert("SC"@.is_prefix_of(univ) ==> univ[0] == 'S') by {
        if "SC"@.is_prefix_of(univ) {
            assert(univ.subrange(0, 2)[0] == univ[0]);
            assert("SC"@[0] == 'S');
        }
    }
    assert("Micro"@.is_prefix_of(univ) ==> univ[0] == 'M' && univ[1] == 'i') by {
        if "Micro"@.is_prefix_of(univ) {
            assert(univ.subrange(0, 5)[0] == univ[0]);
            assert(univ.subrange(0, 5)[1] == univ[1]);
            assert("Micro"@[0] == 'M' && "Micro"@[1] == 'i');
        }
    }
    assert("Crypto"@[0] == 'C');
    assert("lc"@ != "sc"@ && "lc"@ != "mc"@ && "mc"@ != "sc"@);
    assert(crate::strategies::tagged_rule("lc"@) == Some(
        crate::strategies::Rule::Confidence { pos_level: 70, neg_level: 20 },
    ));
    assert(crate::strategies::tagged_rule("mc"@) == Some(
        crate::strategies::Rule::Confidence { pos_level: 75, neg_level: 15 },
    ));
    assert(crate::strategies::tagged_rule("crypto"@) == Some(
        crate::strategies::Rule::Confidence { pos_level: 80, neg_level: 80 },
    ));
    assert(crate::strategies::tagged_rule("micro"@) == Some(
        crate::strategies::Rule::Confidence { pos_level: 80, neg_level: 80 },
    ));
}

/// A plan needs exactly the tickers of its column that are not done, each once.
pub proof fn law_plan_needs_what_is_left(
    plan: Plan,
    column: Seq<Option<Seq<char>>>,
    done: Seq<Seq<char>>,
    size: int,
    ticker: Seq<char>,
)
    requires
        plan.covers(column, done, size),
    ensures
        (exists|k: int| 0 <= k < plan.needed@.len() && (#[trigger] plan.needed@[k])@ == ticker)
            <==> column.contains(Some(ticker)) && !done.contains(ticker),
        forall|k: int, l: int|
            0 <= k < l < plan.needed@.len() ==> (#[trigger] plan.needed@[k])@ != (
            #[trigger] plan.needed@[l])@,
{
    let left = crate::paths::tickers_left(column, done);
    crate::paths::law_tickers_left(column, done);
    assert(crate::text::texts(plan.needed@) == left);
    assert forall|k: int| 0 <= k < left.len() implies left[k] == (#[trigger] plan.needed@[k])@ by {
        assert(crate::text::texts(plan.needed@)[k] == plan.needed@[k]@);
    }
    if exists|k: int| 0 <= k < plan.needed@.len() && (#[trigger] plan.needed@[k])@ == ticker {
        let k = choose|k: int| 0 <= k < plan.needed@.len() && (#[trigger] plan.needed@[k])@ == ticker;
        assert(left[k] == ticker);
        assert(left.contains(ticker));
    }
    if column.contains(Some(ticker)) && !done.contains(ticker) {
        assert(left.contains(ticker));
        let k = choose|k: int| 0 <= k < left.len() && left[k] == ticker;
        assert(plan.needed@[k]@ == ticker);
    }
}

/// A run takes the words of its command line in their places, and a default for
/// each that is not given. The tag of a test is the same for every universe.
pub proof fn law_words_are_taken_in_their_places(
    args: Seq<String>,
    place: int,
    default: Seq<char>,
    univ: Seq<char>,
)
    requires
        0 <= place,
    ensures
        place < args.len() ==> argument(args, place, default) == args[place]@,
        args.len() <= place ==> argument(args, place, default) == default,
        backtest_tag_text(false, univ) == "testing"@,
{
}

} // verus!

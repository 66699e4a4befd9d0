//! Scoring the signals of a day: their groups, their order, and the strategies
//! that a test run shows.
use crate::double::Double;
use crate::groups::{group_rows, order_by_rank};
use crate::joins::Joined;
use crate::paths::{score_file, signal_list_file, tested_performance_file};
use crate::pipeline::SHOWN_STRATEGIES;
use crate::sorting::{sort_rows, ByRank};
use crate::text::same_text;
use vstd::prelude::*;

verus! {

/// The rank of a missing confidence: after every other.
pub const MISSING_LAST: i128 = 0x7FF0_0000_0000_0002;

/// The rank of a missing figure: before every other.
pub const MISSING_FIRST: i128 = -0x7FF0_0000_0000_0001;

/// Wider than the range of the ranks.
const RANK_WIDTH: i128 = 0xFFE0_0000_0000_0010;

/// The files that scoring reads, and the one that it writes.
pub struct ScoreFiles {
    pub tested: String,
    pub buys: String,
    pub sells: String,
    pub scores: String,
}

/// The files that the scores of a day are taken from and saved to.
pub fn score(path: &str, stocks: bool, datetag: &str) -> (r: ScoreFiles)
    ensures
        r.tested@ == crate::paths::performance_file_text(
            path@,
            crate::paths::assets_text(stocks) + "_testing"@,
        ),
        r.buys@ == crate::paths::performance_file_text(
            path@,
            crate::paths::signal_list_name(stocks, true, datetag@),
        ),
        r.sells@ == crate::paths::performance_file_text(
            path@,
            crate::paths::signal_list_name(stocks, false, datetag@),
        ),
        r.scores@ == crate::paths::score_file_text(path@, stocks, datetag@),
{
    ScoreFiles {
        tested: tested_performance_file(path, stocks),
        buys: signal_list_file(path, stocks, true, datetag),
        sells: signal_list_file(path, stocks, false, datetag),
        scores: score_file(path, stocks, datetag),
    }
}

/// Scoring reads the lists that a production run wrote, and the performance
/// that a test run wrote.
pub proof fn law_scores_read_what_runs_wrote(
    path: Seq<char>,
    stocks: bool,
    datetag: Seq<char>,
    files: ScoreFiles,
)
    requires
        files.tested@ == crate::paths::performance_file_text(
            path,
            crate::paths::assets_text(stocks) + "_testing"@,
        ),
        files.buys@ == crate::paths::performance_file_text(
            path,
            crate::paths::signal_list_name(stocks, true, datetag),
        ),
        files.sells@ == crate::paths::performance_file_text(
            path,
            crate::paths::signal_list_name(stocks, false, datetag),
        ),
    ensures
        crate::reports::planned(path, true, stocks, datetag).contains(
            (files.buys@, crate::reports::Selection::Buys),
        ),
        crate::reports::planned(path, true, stocks, datetag).contains(
            (files.sells@, crate::reports::Selection::Sells),
        ),
        crate::reports::planned(path, false, stocks, datetag).contains(
            (files.tested@, crate::reports::Selection::All),
        ),
{
    let lists = crate::reports::planned(path, true, stocks, datetag);
    let tables = crate::reports::planned(path, false, stocks, datetag);
    assert(lists[0] == (files.buys@, crate::reports::Selection::Buys));
    assert(lists[1] == (files.sells@, crate::reports::Selection::Sells));
    assert(tables[0] == (files.tested@, crate::reports::Selection::All));
}

/// The signals of one ticker on one date: their rows, and the sum of their
/// sides.
pub struct ScoreGroup {
    pub rows: Vec<usize>,
    pub side: i128,
}

/// The sum of the sides in the listed rows.
pub open spec fn sum_of(sides: Seq<i64>, rows: Seq<usize>) -> int
    decreases rows.len(),
{
    if rows.len() == 0 {
        0
    } else {
        sum_of(sides, rows.drop_last()) + sides[rows.last() as int]
    }
}

fn sum_sides(sides: &Vec<i64>, rows: &Vec<usize>) -> (r: i128)
    requires
        forall|k: int| 0 <= k < rows@.len() ==> #[trigger] rows@[k] < sides@.len(),
    ensures
        r == sum_of(sides@, rows@),
{
    let mut sum: i128 = 0;
    let mut i: usize = 0;
    while i < rows.len()
        invariant
            i <= rows@.len(),
            forall|k: int| 0 <= k < rows@.len() ==> #[trigger] rows@[k] < sides@.len(),
            sum == sum_of(sides@, rows@.take(i as int)),
            -0x8000_0000_0000_0000 * i <= sum <= 0x8000_0000_0000_0000 * i,
        decreases rows@.len() - i,
    {
        proof {
            assert(rows@.take(i + 1).drop_last() =~= rows@.take(i as int));
        }
        sum = sum + sides[rows[i]] as i128;
        i += 1;
    }
    proof {
        assert(rows@.take(rows@.len() as int) =~= rows@);
    }
    sum
}

/// The signals by date, universe and ticker, in the order of their first rows.
pub fn score_groups(keys: &Vec<(String, String, String)>, sides: &Vec<i64>) -> (out: Vec<
    ScoreGroup,
>)
    requires
        keys@.len() == sides@.len(),
    ensures
        out@.len() == crate::groups::distinct(crate::groups::values(keys@)).len(),
        forall|g: int|
            0 <= g < out@.len() ==> {
                let rows = crate::groups::rows_with(
                    crate::groups::values(keys@),
                    crate::groups::distinct(crate::groups::values(keys@))[g],
                );
                &&& (#[trigger] out@[g]).rows@ == rows
                &&& out@[g].side == sum_of(sides@, rows)
            },
{
    let ghost column = crate::groups::values(keys@);
    let n: usize = keys.len();
    let mut groups = group_rows(keys);
    let ghost all = groups@;
    let mut out: Vec<ScoreGroup> = Vec::new();
    let mut g: usize = 0;
    while g < groups.len()
        invariant
            g <= groups@.len(),
            n == keys@.len(),
            keys@.len() == sides@.len(),
            column == crate::groups::values(keys@),
            groups@.len() == all.len(),
            all.len() == crate::groups::distinct(column).len(),
            forall|h: int| g <= h < groups@.len() ==> #[trigger] groups@[h] == all[h],
            forall|h: int|
                0 <= h < all.len() ==> (#[trigger] all[h])@ == crate::groups::rows_with(
                    column,
                    crate::groups::distinct(column)[h],
                ),
            out@.len() == g,
            forall|h: int|
                0 <= h < g ==> (#[trigger] out@[h]).rows@ == all[h]@ && out@[h].side == sum_of(
                    sides@,
                    all[h]@,
                ),
        decreases groups@.len() - g,
    {
        proof {
            assert(groups@[g as int] == all[g as int]);
            crate::groups::law_rows_with(column, crate::groups::distinct(column)[g as int]);
        }
        let side: i128 = sum_sides(sides, &groups[g]);
        let mut rows: Vec<usize> = Vec::new();
        std::mem::swap(&mut rows, &mut groups[g]);
        out.push(ScoreGroup { rows, side });
        g += 1;
    }
    out
}

/// The place of a positive confidence: ascending, a missing one last.
pub open spec fn pos_rank(conf: Option<Double>) -> int {
    match conf {
        Some(x) => x.rank(),
        None => MISSING_LAST as int,
    }
}

/// The place of a negative confidence: descending, a missing one last.
pub open spec fn neg_rank(conf: Option<Double>) -> int {
    match conf {
        Some(x) => -x.rank(),
        None => MISSING_LAST as int,
    }
}

/// Score `a` comes before score `b`: by the positive confidence ascending, then
/// by the negative one descending, then by their places.
pub open spec fn scored_before(
    pos: Seq<Option<Double>>,
    neg: Seq<Option<Double>>,
    a: usize,
    b: usize,
) -> bool {
    let (p, q) = (pos_rank(pos[a as int]), pos_rank(pos[b as int]));
    let (m, n) = (neg_rank(neg[a as int]), neg_rank(neg[b as int]));
    p < q || (p == q && (m < n || (m == n && a < b)))
}

fn score_rank(pos: Option<Double>, neg: Option<Double>) -> (r: i128)
    ensures
        r == pos_rank(pos) * RANK_WIDTH + neg_rank(neg),
        -RANK_WIDTH < 2 * neg_rank(neg) < RANK_WIDTH,
{
    let p: i128 = match pos {
        Some(x) => x.rank_value(),
        None => MISSING_LAST,
    };
    let n: i128 = match neg {
        Some(x) => -x.rank_value(),
        None => MISSING_LAST,
    };
    p * RANK_WIDTH + n
}

/// The order in which the scores are saved.
pub fn score_order(pos: &Vec<Option<Double>>, neg: &Vec<Option<Double>>) -> (order: Vec<usize>)
    requires
        pos@.len() == neg@.len(),
    ensures
        crate::groups::is_arrangement(order@, pos@.len()),
        forall|k: int, l: int|
            0 <= k < l < order@.len() ==> scored_before(
                pos@,
                neg@,
                #[trigger] order@[k],
                #[trigger] order@[l],
            ),
{
    let mut ranks: Vec<i128> = Vec::new();
    let mut i: usize = 0;
    while i < pos.len()
        invariant
            i <= pos@.len(),
            pos@.len() == neg@.len(),
            ranks@.len() == i,
            forall|k: int|
                0 <= k < i ==> #[trigger] ranks@[k] == pos_rank(pos@[k]) * RANK_WIDTH + neg_rank(
                    neg@[k],
                ) && -RANK_WIDTH < 2 * neg_rank(neg@[k]) < RANK_WIDTH,
        decreases pos@.len() - i,
    {
        ranks.push(score_rank(pos[i], neg[i]));
        i += 1;
    }
    let order = order_by_rank(&ranks);
    proof {
        let all = crate::groups::as_ints(ranks@);
        assert forall|k: int, l: int| 0 <= k < l < order@.len() implies scored_before(
            pos@,
            neg@,
            #[trigger] order@[k],
            #[trigger] order@[l],
        ) by {
            let a = order@[k];
            let b = order@[l];
            assert(crate::groups::ranked_before(all, a, b));
            assert(all[a as int] == ranks@[a as int] && all[b as int] == ranks@[b as int]);
        }
    }
    order
}

/// The keys of the score table before it is put in order: one row for each
/// date, universe and ticker of the buys, then one for each of the sells.
pub open spec fn table_keys(
    buys: Seq<(String, String, String)>,
    sells: Seq<(String, String, String)>,
) -> Seq<(Seq<char>, Seq<char>, Seq<char>)> {
    crate::groups::distinct(crate::groups::values(buys)) + crate::groups::distinct(
        crate::groups::values(sells),
    )
}

/// The order of the score table, which has a row for each date, universe and
/// ticker of the buys and one for each of the sells: by the mean positive
/// confidence ascending, then by the mean negative one descending, missing
/// ones last. A place below the number of groups of the buys stands for that
/// group of the buys, a place from there on for a group of the sells.
pub fn score_table(
    buys: &Vec<(String, String, String)>,
    sells: &Vec<(String, String, String)>,
    pos: &Vec<Option<Double>>,
    neg: &Vec<Option<Double>>,
) -> (order: Vec<usize>)
    requires
        pos@.len() == table_keys(buys@, sells@).len(),
        neg@.len() == table_keys(buys@, sells@).len(),
    ensures
        crate::groups::is_arrangement(
            order@,
            crate::groups::distinct(crate::groups::values(buys@)).len() + crate::groups::distinct(
                crate::groups::values(sells@),
            ).len(),
        ),
        forall|k: int, l: int|
            0 <= k < l < order@.len() ==> scored_before(
                pos@,
                neg@,
                #[trigger] order@[k],
                #[trigger] order@[l],
            ),
{
    score_order(pos, neg)
}

/// Whether a score table is inserted into the database: exactly where it has
/// rows.
pub fn inserts_scores(rows: usize) -> (r: bool)
    ensures
        r == (rows > 0),
{
    rows > 0
}

/// The score table is inserted exactly where there is a buy or a sell.
pub proof fn law_scores_are_inserted_where_there_are_signals(
    buys: Seq<(String, String, String)>,
    sells: Seq<(String, String, String)>,
)
    ensures
        table_keys(buys, sells).len() > 0 <==> buys.len() + sells.len() > 0,
{
    lemma_some_key(crate::groups::values(buys));
    lemma_some_key(crate::groups::values(sells));
}

proof fn lemma_some_key<V>(column: Seq<V>)
    ensures
        crate::groups::distinct(column).len() > 0 <==> column.len() > 0,
{
    crate::groups::law_distinct(column);
    if column.len() > 0 {
        assert(column.contains(column[0]));
        assert(crate::groups::distinct(column).contains(column[0]));
    }
}

/// Joining the signals to the tested strategies, which may repeat a signal,
/// does not change what the score table has rows for, nor their order.
pub proof fn law_joined_signals_keep_their_groups<V, W>(
    column: Seq<V>,
    left: Seq<Option<W>>,
    right: Seq<Option<W>>,
)
    requires
        column.len() == left.len() <= usize::MAX,
    ensures
        crate::groups::distinct(
            crate::joins::left_joined(left, right).map_values(|p: Joined| column[p.0 as int]),
        ) == crate::groups::distinct(column),
    decreases left.len(),
{
    let all = crate::joins::left_joined(left, right);
    let repeated = all.map_values(|p: Joined| column[p.0 as int]);
    if left.len() == 0 {
        assert(repeated =~= column);
    } else {
        let rest = column.drop_last();
        let before = crate::joins::left_joined(left.drop_last(), right);
        let kept = before.map_values(|p: Joined| rest[p.0 as int]);
        law_joined_signals_keep_their_groups(rest, left.drop_last(), right);
        let x = column.last();
        let added = crate::joins::pairs(
            (left.len() - 1) as usize,
            crate::joins::hits(right, left.last()),
        );
        assert forall|k: int| 0 <= k < before.len() implies (#[trigger] before[k]).0
            < rest.len() by {
            lemma_left_rows(left.drop_last(), right, k);
        }
        assert(repeated =~= kept + Seq::new(added.len(), |k: int| x));
        lemma_repeated_last(kept, x, added.len());
        crate::groups::law_distinct(kept);
        crate::groups::law_distinct(rest);
        assert(kept.contains(x) == crate::groups::distinct(kept).contains(x));
        assert(rest.contains(x) == crate::groups::distinct(rest).contains(x));
        assert(kept.push(x).drop_last() =~= kept);
    }
}

proof fn lemma_left_rows<W>(left: Seq<Option<W>>, right: Seq<Option<W>>, k: int)
    requires
        left.len() <= usize::MAX,
        0 <= k < crate::joins::left_joined(left, right).len(),
    ensures
        crate::joins::left_joined(left, right)[k].0 < left.len(),
    decreases left.len(),
{
    if k < crate::joins::left_joined(left.drop_last(), right).len() {
        lemma_left_rows(left.drop_last(), right, k);
    }
}

proof fn lemma_repeated_last<V>(s: Seq<V>, x: V, n: nat)
    requires
        n > 0,
    ensures
        crate::groups::distinct(s + Seq::new(n, |k: int| x)) == crate::groups::distinct(s.push(x)),
    decreases n,
{
    let t = s + Seq::new(n, |k: int| x);
    if n == 1 {
        assert(t =~= s.push(x));
    } else {
        let u = s + Seq::new((n - 1) as nat, |k: int| x);
        assert(t.drop_last() =~= u);
        assert(u[u.len() - 1] == x);
        assert(u.contains(x));
        lemma_repeated_last(s, x, (n - 1) as nat);
    }
}

/// The rank of a figure: ascending, a missing one first.
pub open spec fn figure_rank(figure: Option<Double>) -> int {
    match figure {
        Some(x) => x.rank(),
        None => MISSING_FIRST as int,
    }
}

/// Row `a` does worse than row `b`: its figure is lower, or the same and it
/// comes earlier.
pub open spec fn worse(figures: Seq<Option<Double>>, a: usize, b: usize) -> bool {
    let (x, y) = (figure_rank(figures[a as int]), figure_rank(figures[b as int]));
    x < y || (x == y && a < b)
}

fn figure_ranks(figures: &Vec<Option<Double>>) -> (ranks: Vec<i128>)
    ensures
        ranks@.len() == figures@.len(),
        forall|k: int| 0 <= k < ranks@.len() ==> #[trigger] ranks@[k] == figure_rank(figures@[k]),
{
    let mut ranks: Vec<i128> = Vec::new();
    let mut i: usize = 0;
    while i < figures.len()
        invariant
            i <= figures@.len(),
            ranks@.len() == i,
            forall|k: int| 0 <= k < i ==> #[trigger] ranks@[k] == figure_rank(figures@[k]),
        decreases figures@.len() - i,
    {
        let rank: i128 = match figures[i] {
            Some(x) => x.rank_value(),
            None => MISSING_FIRST,
        };
        ranks.push(rank);
        i += 1;
    }
    ranks
}

/// The rows in the ascending order of a figure, a missing one first.
pub fn figure_order(figures: &Vec<Option<Double>>) -> (order: Vec<usize>)
    ensures
        crate::groups::is_arrangement(order@, figures@.len()),
        forall|k: int, l: int|
            0 <= k < l < order@.len() ==> worse(
                figures@,
                #[trigger] order@[k],
                #[trigger] order@[l],
            ),
{
    let ranks = figure_ranks(figures);
    let order = order_by_rank(&ranks);
    proof {
        let all = crate::groups::as_ints(ranks@);
        assert forall|k: int, l: int| 0 <= k < l < order@.len() implies worse(
            figures@,
            #[trigger] order@[k],
            #[trigger] order@[l],
        ) by {
            assert(crate::groups::ranked_before(all, order@[k], order@[l]));
        }
    }
    order
}

/// The rows of a universe, in their order.
fn rows_of(universe: &Vec<Option<String>>, wanted: &str) -> (rows: Vec<usize>)
    ensures
        rows@ == crate::groups::rows_with(
            crate::paths::column_texts(universe@),
            Some(wanted@),
        ),
{
    let ghost column = crate::paths::column_texts(universe@);
    let mut rows: Vec<usize> = Vec::new();
    let mut i: usize = 0;
    while i < universe.len()
        invariant
            i <= universe@.len(),
            column == crate::paths::column_texts(universe@),
            rows@ == crate::groups::rows_with(column.take(i as int), Some(wanted@)),
        decreases universe@.len() - i,
    {
        proof {
            assert(column.take(i + 1).drop_last() =~= column.take(i as int));
        }
        if let Some(name) = &universe[i] {
            if same_text(name.as_str(), wanted) {
                rows.push(i);
            }
        }
        i += 1;
    }
    proof {
        assert(column.take(universe@.len() as int) =~= column);
    }
    rows
}

/// The strategies of a universe that do best by a figure, the best one last.
pub fn best_strategies(
    universe: &Vec<Option<String>>,
    wanted: &str,
    figures: &Vec<Option<Double>>,
) -> (r: Vec<usize>)
    requires
        universe@.len() == figures@.len(),
    ensures
        ({
            let rows = crate::groups::rows_with(
                crate::paths::column_texts(universe@),
                Some(wanted@),
            );
            &&& r@.len() == (if rows.len() < SHOWN_STRATEGIES {
                rows.len()
            } else {
                SHOWN_STRATEGIES as nat
            })
            &&& forall|k: int| 0 <= k < r@.len() ==> rows.contains(#[trigger] r@[k])
            &&& forall|k: int, l: int|
                0 <= k < l < r@.len() ==> worse(figures@, #[trigger] r@[k], #[trigger] r@[l])
            &&& forall|x: usize, k: int|
                rows.contains(x) && !r@.contains(x) && 0 <= k < r@.len() ==> #[trigger] worse(
                    figures@,
                    x,
                    r@[k],
                )
        }),
        forall|k: int|
            0 <= k < r@.len() ==> (#[trigger] r@[k]) < universe@.len() && (universe@[r@[k] as int]
                matches Some(name) && name@ == wanted@),
        forall|i: int, k: int|
            0 <= i < universe@.len() && 0 <= k < r@.len() && !r@.contains(i as usize) && (
            (#[trigger] universe@[i]) matches Some(name) && name@ == wanted@) ==> !(figures@[i]
                matches Some(x) && figures@[(#[trigger] r@[k]) as int] matches Some(y) && y.below(
                x,
            )),
{
    let picked = rows_of(universe, wanted);
    let ranks = figure_ranks(figures);
    let n: usize = universe.len();
    let ghost column = crate::paths::column_texts(universe@);
    proof {
        assert(n == column.len());
        crate::groups::law_rows_with(column, Some(wanted@));
    }
    let by_rank = ByRank { column: &ranks };
    let sorted = sort_rows(&by_rank, &picked);
    let mut out: Vec<usize> = Vec::new();
    let first: usize = if sorted.len() < SHOWN_STRATEGIES {
        0
    } else {
        sorted.len() - SHOWN_STRATEGIES
    };
    let mut i: usize = first;
    while i < sorted.len()
        invariant
            first <= i <= sorted@.len(),
            out@ == sorted@.subrange(first as int, i as int),
        decreases sorted@.len() - i,
    {
        out.push(sorted[i]);
        i += 1;
    }
    proof {
        assert forall|k: int| 0 <= k < sorted@.len() implies picked@.contains(#[trigger] sorted@[k])
            && sorted@[k] < ranks@.len() by {
            assert(sorted@.contains(sorted@[k]));
            let y = choose|y: int| 0 <= y < picked@.len() && picked@[y] == sorted@[k];
            assert(picked@[y] < column.len());
        }
        assert forall|k: int, l: int| 0 <= k < l < sorted@.len() implies worse(
            figures@,
            #[trigger] sorted@[k],
            #[trigger] sorted@[l],
        ) by {
            assert(crate::sorting::listed_before(by_rank, sorted@[k], sorted@[l]));
        }
        assert forall|k: int| 0 <= k < out@.len() implies #[trigger] out@[k] == sorted@[first
            + k] by {}
        assert forall|x: usize, k: int|
            picked@.contains(x) && !out@.contains(x) && 0 <= k < out@.len() implies #[trigger] worse(
            figures@,
            x,
            out@[k],
        ) by {
            assert(sorted@.contains(x));
            let y = choose|y: int| 0 <= y < sorted@.len() && sorted@[y] == x;
            if y >= first {
                assert(out@[y - first] == x);
            }
            assert(worse(figures@, sorted@[y], sorted@[first + k]));
        }
        assert forall|k: int| 0 <= k < out@.len() implies (#[trigger] out@[k]) < universe@.len() && (
        universe@[out@[k] as int] matches Some(name) && name@ == wanted@) by {
            assert(picked@.contains(sorted@[first + k]));
            let y = choose|y: int| 0 <= y < picked@.len() && picked@[y] == out@[k];
            assert(column[picked@[y] as int] == Some(wanted@));
        }
        assert forall|i: int, k: int|
            0 <= i < universe@.len() && 0 <= k < out@.len() && !out@.contains(i as usize) && ((
            #[trigger] universe@[i]) matches Some(name) && name@ == wanted@) implies !(figures@[i]
            matches Some(x) && figures@[(#[trigger] out@[k]) as int] matches Some(y) && y.below(
            x,
        )) by {
            assert(column[i] == Some(wanted@));
            assert(picked@.contains(i as usize));
            assert(worse(figures@, i as usize, out@[k]));
            law_order_of_figures(figures@, out@[k], i as usize);
            law_order_of_figures(figures@, i as usize, out@[k]);
        }
    }
    out
}

/// The side of a group adds up: one more signal adds its side to its own group.
pub proof fn law_sides_add_up<V>(column: Seq<V>, sides: Seq<i64>, v: V, key: V, x: i64)
    requires
        column.len() == sides.len() < usize::MAX,
    ensures
        sum_of(Seq::empty(), crate::groups::rows_with(Seq::<V>::empty(), v)) == 0,
        sum_of(sides.push(x), crate::groups::rows_with(column.push(key), v)) == sum_of(
            sides,
            crate::groups::rows_with(column, v),
        ) + (if key == v {
            x as int
        } else {
            0
        }),
{
    crate::groups::law_rows_with(column, v);
    let rows = crate::groups::rows_with(column, v);
    assert(column.push(key).drop_last() =~= column);
    lemma_sum_of_longer(sides, x, rows);
    if key == v {
        assert(crate::groups::rows_with(column.push(key), v).drop_last() =~= rows);
    }
}

proof fn lemma_sum_of_longer(sides: Seq<i64>, x: i64, rows: Seq<usize>)
    requires
        forall|k: int| 0 <= k < rows.len() ==> #[trigger] rows[k] < sides.len(),
    ensures
        sum_of(sides.push(x), rows) == sum_of(sides, rows),
    decreases rows.len(),
{
    if rows.len() > 0 {
        lemma_sum_of_longer(sides, x, rows.drop_last());
        assert(rows[rows.len() - 1] < sides.len());
    }
}

/// The order of two scores: the lower positive confidence comes first; where
/// these are equal, the higher negative one; where those are equal too, the
/// earlier one. A missing confidence comes after every number.
pub proof fn law_order_of_scores(
    pos: Seq<Option<Double>>,
    neg: Seq<Option<Double>>,
    a: usize,
    b: usize,
)
    requires
        pos.len() == neg.len(),
        a < pos.len(),
        b < pos.len(),
    ensures
        a != b ==> (scored_before(pos, neg, a, b) <==> !scored_before(pos, neg, b, a)),
        !scored_before(pos, neg, a, a),
        pos[a as int] is Some && pos[b as int] is None ==> scored_before(pos, neg, a, b),
        pos[a as int] matches Some(x) && pos[b as int] matches Some(y) && x.below(y)
            ==> scored_before(pos, neg, a, b),
        pos[a as int] == pos[b as int] && neg[a as int] is Some && neg[b as int] is None
            ==> scored_before(pos, neg, a, b),
        pos[a as int] == pos[b as int] && (neg[a as int] matches Some(x) && neg[b as int] matches Some(
            y,
        ) && y.below(x)) ==> scored_before(pos, neg, a, b),
        pos[a as int] == pos[b as int] && neg[a as int] == neg[b as int] && a < b
            ==> scored_before(pos, neg, a, b),
{
}

/// The order of two figures: the lower one does worse, a missing one does worse
/// than every number, and of equal ones the earlier.
pub proof fn law_order_of_figures(figures: Seq<Option<Double>>, a: usize, b: usize)
    requires
        a < figures.len(),
        b < figures.len(),
    ensures
        a != b ==> (worse(figures, a, b) <==> !worse(figures, b, a)),
        !worse(figures, a, a),
        figures[a as int] is None && figures[b as int] is Some ==> worse(figures, a, b),
        figures[a as int] matches Some(x) && figures[b as int] matches Some(y) && x.below(y)
            ==> worse(figures, a, b),
        figures[a as int] == figures[b as int] && a < b ==> worse(figures, a, b),
{
}

/// The score table has a row for each date, universe and ticker of the buys,
/// then one for each of the sells, and no other.
pub proof fn law_table_has_a_row_for_each(
    buys: Seq<(String, String, String)>,
    sells: Seq<(String, String, String)>,
    i: int,
)
    ensures
        0 <= i < buys.len() ==> exists|k: int|
            0 <= k < crate::groups::distinct(crate::groups::values(buys)).len() && #[trigger]
                table_keys(buys, sells)[k] == (buys[i].0@, buys[i].1@, buys[i].2@),
        0 <= i < sells.len() ==> exists|k: int|
            crate::groups::distinct(crate::groups::values(buys)).len() <= k < table_keys(
                buys,
                sells,
            ).len() && #[trigger] table_keys(buys, sells)[k] == (
                sells[i].0@,
                sells[i].1@,
                sells[i].2@,
            ),
        0 <= i < table_keys(buys, sells).len() ==> crate::groups::values(buys).contains(
            table_keys(buys, sells)[i],
        ) || crate::groups::values(sells).contains(table_keys(buys, sells)[i]),
        table_keys(buys, sells).len() <= buys.len() + sells.len(),
{
    let b = crate::groups::values(buys);
    let s = crate::groups::values(sells);
    let first = crate::groups::distinct(b);
    let second = crate::groups::distinct(s);
    crate::groups::law_distinct(b);
    crate::groups::law_distinct(s);
    let all = table_keys(buys, sells);
    if 0 <= i < buys.len() {
        assert(b.contains(b[i]));
        assert(first.contains(b[i]));
        let k = choose|k: int| 0 <= k < first.len() && first[k] == b[i];
        assert(all[k] == b[i]);
    }
    if 0 <= i < sells.len() {
        assert(s.contains(s[i]));
        assert(second.contains(s[i]));
        let k = choose|k: int| 0 <= k < second.len() && second[k] == s[i];
        assert(all[first.len() + k] == s[i]);
    }
    if 0 <= i < all.len() {
        if i < first.len() {
            assert(first.contains(all[i]));
        } else {
            assert(second[i - first.len()] == all[i]);
            assert(second.contains(all[i]));
        }
    }
}

} // verus!

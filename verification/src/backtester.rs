//! Backtests: the performance of a strategy on one ticker, and its summary
//! over the tickers of a universe.
use crate::double::Double;
use crate::groups::{group_rows, known_rows};
use crate::indicators::Share;
use crate::scores::figure_order;
pub use crate::signals::BuySell;
use crate::text::{copy_text, unquote};
use crate::trades::{simulate_trades, Market, Trade};
use vstd::prelude::*;

pub use crate::paths::parquet_save_backtest;
pub use crate::reports::summary_performance_file;
pub use crate::signals::signal_fun;
pub use crate::strategies::{sig, Signal};
pub use crate::trades::MAX_HOLD_BARS;

verus! {

/// 999, the highest profit factor and expectancy that are reported.
pub const HIGHEST_FACTOR: u64 = 0x408F_3800_0000_0000;

/// 100, the highest ratio and average gain that are reported, in percent.
pub const HUNDRED: u64 = 0x4059_0000_0000_0000;

/// -100, the lowest average loss that is reported, in percent.
pub const MINUS_HUNDRED: u64 = 0xC059_0000_0000_0000;

/// Strategies with fewer trades than this over a whole universe are left out
/// of the summary.
pub const MIN_TOTAL_TRADES: i128 = 20;

/// What a backtest reports of one strategy on one ticker. The confidences are
/// rounded to single precision where the report is saved.
#[derive(Clone, Debug)]
pub struct Backtest {
    pub ticker: String,
    pub universe: String,
    pub strategy: String,
    pub expectancy: Double,
    pub profit_factor: Double,
    pub hit_ratio: Share,
    pub realized_risk_reward: Double,
    pub avg_gain: Double,
    pub avg_loss: Double,
    pub max_gain: Double,
    pub max_loss: Double,
    pub buys: i32,
    pub sells: i32,
    pub trades: i32,
    pub date: String,
    pub buy: i32,
    pub sell: i32,
    pub pos_conf: Double,
    pub neg_conf: Double,
}

/// The bars of one ticker. Texts are held as their column displays them, in
/// quotes or not.
pub struct PriceFrame {
    pub date: Vec<String>,
    pub ticker: Vec<String>,
    pub universe: Vec<String>,
    pub open: Vec<Option<Double>>,
    pub close: Vec<Option<Double>>,
}

impl PriceFrame {
    /// The columns are equally long.
    pub open spec fn valid(&self) -> bool {
        &&& self.date@.len() == self.open@.len()
        &&& self.ticker@.len() == self.open@.len()
        &&& self.universe@.len() == self.open@.len()
        &&& self.close@.len() == self.open@.len()
    }

    /// The bars with the signals `side` on them.
    pub open spec fn market(&self, side: &BuySell) -> Market {
        Market { open: self.open@, close: self.close@, buy: side.buy@, sell: side.sell@ }
    }
}

/// A trade by its prices; the prices are those that its return is taken from.
#[derive(Clone, Copy, PartialEq, Eq, Structural, Debug)]
pub struct PricedTrade {
    pub long: bool,
    pub entry: Double,
    pub exit: Double,
}

/// The prices of a trade.
pub open spec fn priced(m: Market, t: Trade) -> PricedTrade {
    PricedTrade {
        long: t.long,
        entry: m.open[t.entry_bar as int].unwrap(),
        exit: m.exit_price(t.exit_bar as int).unwrap(),
    }
}

/// The trades that the signals make over a frame, each by its prices.
pub open spec fn priced_trades(frame: PriceFrame, side: BuySell) -> Seq<PricedTrade> {
    let m = frame.market(&side);
    Seq::new(m.trades().len(), |k: int| priced(m, m.trades()[k]))
}

/// The trades that the signals make, each by its prices. Every entry is
/// positive and every exit is finite.
pub fn backtest_trades(frame: &PriceFrame, side: &BuySell) -> (trades: Vec<PricedTrade>)
    requires
        frame.valid(),
        frame.market(side).valid(),
    ensures
        trades@ == priced_trades(*frame, *side),
        forall|k: int|
            0 <= k < trades@.len() ==> (Double { bits: 0 }).below((#[trigger] trades@[k]).entry)
                && trades@[k].exit.finite(),
{
    let trades = simulate_trades(&frame.open, &frame.close, &side.buy, &side.sell);
    let ghost m = frame.market(side);
    let len: usize = frame.open.len();
    let mut out: Vec<PricedTrade> = Vec::new();
    let mut k: usize = 0;
    while k < trades.len()
        invariant
            frame.valid(),
            m == frame.market(side),
            m.valid(),
            m.open.len() <= usize::MAX,
            len == frame.open@.len(),
            trades@ == m.trades(),
            k <= trades@.len(),
            out@.len() == k,
            forall|j: int|
                0 <= j < k ==> #[trigger] out@[j] == priced(m, m.trades()[j]) && (Double {
                    bits: 0,
                }).below(out@[j].entry) && out@[j].exit.finite(),
        decreases trades@.len() - k,
    {
        proof {
            crate::trades::law_trades_are_sound(m, k as int);
        }
        let t = trades[k];
        let entry: Double = frame.open[t.entry_bar].unwrap();
        let exit: Double = if t.at_close {
            frame.close[t.exit_bar].unwrap()
        } else {
            frame.open[t.exit_bar].unwrap()
        };
        out.push(PricedTrade { long: t.long, entry, exit });
        k += 1;
    }
    proof {
        assert(out@ =~= priced_trades(*frame, *side));
    }
    out
}

/// The trade results above zero.
pub open spec fn gains(results: Seq<Double>) -> Seq<Double> {
    results.filter(|x: Double| (Double { bits: 0 }).below(x))
}

/// The trade results below zero.
pub open spec fn losses(results: Seq<Double>) -> Seq<Double> {
    results.filter(|x: Double| x.below(Double { bits: 0 }))
}

/// The greatest of zero and the given numbers.
pub open spec fn greatest(s: Seq<Double>) -> Double
    decreases s.len(),
{
    if s.len() == 0 {
        Double { bits: 0 }
    } else {
        greatest(s.drop_last()).larger_of(s.last())
    }
}

/// The least of zero and the given numbers.
pub open spec fn least(s: Seq<Double>) -> Double
    decreases s.len(),
{
    if s.len() == 0 {
        Double { bits: 0 }
    } else {
        least(s.drop_last()).smaller_of(s.last())
    }
}

/// The results of a backtest, parted into gains and losses.
pub struct Tally {
    pub gains: Vec<Double>,
    pub losses: Vec<Double>,
    pub max_gain: Double,
    pub max_loss: Double,
    /// The share of the gains.
    pub hit_ratio: Share,
}

/// The share of the gains among the gains and losses; zero where there are
/// neither.
pub open spec fn hit_share(results: Seq<Double>) -> Share {
    let won = gains(results).len();
    let lost = losses(results).len();
    if won + lost == 0 {
        Share { part: 0, whole: 1 }
    } else {
        Share { part: won as usize, whole: (won + lost) as usize }
    }
}

/// Parts the results into gains and losses, and finds the best and the worst.
pub fn tally_results(results: &Vec<Double>) -> (t: Tally)
    ensures
        t.gains@ == gains(results@),
        t.losses@ == losses(results@),
        t.max_gain == greatest(gains(results@)),
        t.max_loss == least(losses(results@)),
        t.hit_ratio == hit_share(results@),
        t.gains@.len() + t.losses@.len() > 0 ==> t.hit_ratio.part == t.gains@.len()
            && t.hit_ratio.whole == t.gains@.len() + t.losses@.len(),
        forall|i: int|
            0 <= i < results@.len() && !(#[trigger] results@[i]).nan() ==> results@[i].at_most(
                t.max_gain,
            ) && t.max_loss.at_most(results@[i]),
{
    let zero = Double { bits: 0 };
    let mut up: Vec<Double> = Vec::new();
    let mut down: Vec<Double> = Vec::new();
    let mut max_gain = zero;
    let mut max_loss = zero;
    let mut i: usize = 0;
    proof {
        assert(gains(results@.take(0)) =~= Seq::empty()) by {
            reveal(Seq::filter);
        }
        assert(losses(results@.take(0)) =~= Seq::empty()) by {
            reveal(Seq::filter);
        }
    }
    while i < results.len()
        invariant
            zero == (Double { bits: 0 }),
            i <= results@.len(),
            up@ == gains(results@.take(i as int)),
            down@ == losses(results@.take(i as int)),
            max_gain == greatest(up@),
            max_loss == least(down@),
        decreases results@.len() - i,
    {
        proof {
            assert(results@.take(i + 1).drop_last() =~= results@.take(i as int));
            reveal(Seq::filter);
        }
        let x: Double = results[i];
        if x.gt(&zero) {
            let ghost before = up@;
            up.push(x);
            proof {
                assert(up@.drop_last() =~= before);
            }
            max_gain = max_gain.larger(&x);
        }
        if x.lt(&zero) {
            let ghost before = down@;
            down.push(x);
            proof {
                assert(down@.drop_last() =~= before);
            }
            max_loss = max_loss.smaller(&x);
        }
        i += 1;
    }
    proof {
        assert(results@.take(results@.len() as int) =~= results@);
    }
    let n: usize = results.len();
    proof {
        assert(n == results@.len());
        lemma_parts_fit(results@);
    }
    let hit_ratio = if up.len() + down.len() == 0 {
        Share { part: 0, whole: 1 }
    } else {
        Share { part: up.len(), whole: up.len() + down.len() }
    };
    proof {
        assert forall|i: int|
            0 <= i < results@.len() && !(#[trigger] results@[i]).nan() implies results@[i].at_most(
            max_gain,
        ) && max_loss.at_most(results@[i]) by {
            law_extremes(results@, i);
        }
    }
    Tally { gains: up, losses: down, max_gain, max_loss, hit_ratio }
}

proof fn lemma_parts_fit(results: Seq<Double>)
    ensures
        gains(results).len() + losses(results).len() <= results.len(),
    decreases results.len(),
{
    reveal(Seq::filter);
    if results.len() > 0 {
        lemma_parts_fit(results.drop_last());
    }
}

/// The hit ratio lies between zero and one: it is a share of a count above zero,
/// and never has to be capped.
pub proof fn law_hit_ratio_is_a_share(results: Seq<Double>)
    requires
        results.len() <= usize::MAX,
    ensures
        hit_share(results).part <= hit_share(results).whole,
        hit_share(results).whole > 0,
        hit_share(results).part == gains(results).len(),
{
    lemma_parts_fit(results);
}

/// A figure as it is reported: zero where it is not a number, and no higher
/// than `cap`.
pub open spec fn capped_at(x: Double, cap: u64) -> Double {
    if x.nan() {
        Double { bits: 0 }
    } else {
        (Double { bits: cap }).smaller_of(x)
    }
}

/// A figure as it is reported: zero where it is not a number, and no lower than
/// `floor`.
pub open spec fn floored_at(x: Double, floor: u64) -> Double {
    if x.nan() {
        Double { bits: 0 }
    } else {
        (Double { bits: floor }).larger_of(x)
    }
}

/// The figure with zero in place of what is not a number, and at most `cap`.
pub fn cap_figure(x: Double, cap: u64) -> (r: Double)
    ensures
        r == capped_at(x, cap),
{
    if x.is_nan() {
        Double { bits: 0 }
    } else {
        (Double { bits: cap }).smaller(&x)
    }
}

/// The figure with zero in place of what is not a number, and at least `floor`.
pub fn floor_figure(x: Double, floor: u64) -> (r: Double)
    ensures
        r == floored_at(x, floor),
{
    if x.is_nan() {
        Double { bits: 0 }
    } else {
        (Double { bits: floor }).larger(&x)
    }
}

/// The quotients behind the reported figures, before their caps: what profits
/// and losses, their counts and their averages give.
pub struct Figures {
    pub profit_factor: Double,
    pub average_gain: Double,
    pub average_loss: Double,
    pub risk_reward: Double,
    pub expectancy: Double,
}

/// The sum of a column of signals.
pub open spec fn total(s: Seq<i32>) -> int
    decreases s.len(),
{
    if s.len() == 0 {
        0
    } else {
        total(s.drop_last()) + s.last()
    }
}

/// Whether adding up the column stays within the range of its type.
pub open spec fn sums_fit(s: Seq<i32>) -> bool {
    forall|k: int| 0 <= k <= s.len() ==> i32::MIN <= #[trigger] total(s.take(k)) <= i32::MAX
}

fn sum_signals(s: &Vec<i32>) -> (r: i32)
    requires
        sums_fit(s@),
    ensures
        r == total(s@),
{
    let mut sum: i32 = 0;
    let mut i: usize = 0;
    proof {
        assert(total(s@.take(0)) == 0);
    }
    while i < s.len()
        invariant
            sums_fit(s@),
            i <= s@.len(),
            sum == total(s@.take(i as int)),
        decreases s@.len() - i,
    {
        proof {
            assert(s@.take(i + 1).drop_last() =~= s@.take(i as int));
            assert(i32::MIN <= total(s@.take(i + 1)) <= i32::MAX);
        }
        sum = sum + s[i];
        i += 1;
    }
    proof {
        assert(s@.take(s@.len() as int) =~= s@);
    }
    sum
}

/// The confidence at a bar; zero where there is none or it is not a number.
pub open spec fn confidence_at(conf: Seq<Double>, bar: int) -> Double {
    if 0 <= bar < conf.len() && !conf[bar].nan() {
        conf[bar]
    } else {
        Double { bits: 0 }
    }
}

fn last_confidence(conf: &Vec<Double>, bar: usize) -> (r: Double)
    ensures
        r == confidence_at(conf@, bar as int),
{
    if bar < conf.len() && !conf[bar].is_nan() {
        conf[bar]
    } else {
        Double { bits: 0 }
    }
}

/// `bt` is the report on a strategy.
pub open spec fn is_report(
    bt: Backtest,
    frame: PriceFrame,
    side: BuySell,
    strategy: Seq<char>,
    results: Seq<Double>,
    figures: Figures,
) -> bool {
    let last = frame.open@.len() - 1;
    &&& bt.ticker@ == crate::text::trimmed(frame.ticker@[0]@, '"')
    &&& bt.universe@ == crate::text::trimmed(frame.universe@[0]@, '"')
    &&& bt.date@ == crate::text::trimmed(frame.date@.last()@, '"')
    &&& bt.strategy@ == strategy
    &&& bt.profit_factor == capped_at(figures.profit_factor, HIGHEST_FACTOR)
    &&& bt.hit_ratio == hit_share(results)
    &&& bt.avg_gain == capped_at(figures.average_gain, HUNDRED)
    &&& bt.avg_loss == floored_at(figures.average_loss, MINUS_HUNDRED)
    &&& bt.realized_risk_reward == capped_at(figures.risk_reward, HUNDRED)
    &&& bt.expectancy == capped_at(figures.expectancy, HIGHEST_FACTOR)
    &&& bt.max_gain == greatest(gains(results))
    &&& bt.max_loss == least(losses(results))
    &&& bt.buys == total(side.buy@)
    &&& bt.sells == vstd::math::abs(total(side.sell@))
    &&& bt.trades == priced_trades(frame, side).len()
    &&& bt.buy == side.buy@[last]
    &&& bt.sell == side.sell@[last]
    &&& bt.pos_conf == confidence_at(side.pos_conf@, last)
    &&& bt.neg_conf == confidence_at(side.neg_conf@, last)
}

/// The report on a strategy, from the bars, its signals, the result of each of
/// its trades in percent and the quotients taken of those results.
pub fn backtest_performance(
    frame: &PriceFrame,
    side: &BuySell,
    strategy: &str,
    results: &Vec<Double>,
    figures: &Figures,
) -> (bt: Backtest)
    requires
        frame.valid(),
        frame.open@.len() >= 1,
        frame.market(side).valid(),
        results@.len() == priced_trades(*frame, *side).len(),
        results@.len() <= i32::MAX,
        sums_fit(side.buy@),
        sums_fit(side.sell@),
        total(side.sell@) > i32::MIN,
    ensures
        is_report(bt, *frame, *side, strategy@, results@, *figures),
{
    let last: usize = frame.open.len() - 1;
    let tally = tally_results(results);
    let sold: i32 = sum_signals(&side.sell);
    Backtest {
        ticker: unquote(frame.ticker[0].as_str()),
        universe: unquote(frame.universe[0].as_str()),
        strategy: strategy.to_owned(),
        expectancy: cap_figure(figures.expectancy, HIGHEST_FACTOR),
        profit_factor: cap_figure(figures.profit_factor, HIGHEST_FACTOR),
        hit_ratio: tally.hit_ratio,
        realized_risk_reward: cap_figure(figures.risk_reward, HUNDRED),
        avg_gain: cap_figure(figures.average_gain, HUNDRED),
        avg_loss: floor_figure(figures.average_loss, MINUS_HUNDRED),
        max_gain: tally.max_gain,
        max_loss: tally.max_loss,
        buys: sum_signals(&side.buy),
        sells: if sold < 0 {
            0 - sold
        } else {
            sold
        },
        trades: results.len() as i32,
        date: unquote(frame.date[last].as_str()),
        buy: side.buy[last],
        sell: side.sell[last],
        pos_conf: last_confidence(&side.pos_conf, last),
        neg_conf: last_confidence(&side.neg_conf, last),
    }
}

/// The signals of every strategy can be summed up for its report, whatever
/// they are, over as many bars as the sums can count.
pub proof fn law_signals_can_be_reported(side: BuySell)
    requires
        side.buy@.len() <= i32::MAX,
        side.sell@.len() <= i32::MAX,
        forall|k: int| 0 <= k < side.buy@.len() ==> 0 <= #[trigger] side.buy@[k] <= 1,
        forall|k: int| 0 <= k < side.sell@.len() ==> -1 <= #[trigger] side.sell@[k] <= 0,
    ensures
        sums_fit(side.buy@),
        sums_fit(side.sell@),
        total(side.sell@) > i32::MIN,
{
    assert forall|k: int| 0 <= k <= side.buy@.len() implies i32::MIN <= #[trigger] total(
        side.buy@.take(k),
    ) <= i32::MAX by {
        lemma_total_bounds(side.buy@.take(k));
    }
    assert forall|k: int| 0 <= k <= side.sell@.len() implies i32::MIN <= #[trigger] total(
        side.sell@.take(k),
    ) <= i32::MAX by {
        lemma_total_bounds(side.sell@.take(k));
    }
    lemma_total_bounds(side.sell@);
}

proof fn lemma_total_bounds(s: Seq<i32>)
    requires
        forall|k: int| 0 <= k < s.len() ==> -1 <= #[trigger] s[k] <= 1,
    ensures
        -s.len() <= total(s) <= s.len(),
    decreases s.len(),
{
    if s.len() > 0 {
        lemma_total_bounds(s.drop_last());
    }
}

/// The best gain is at least every result, the worst loss at most every
/// result, and each is one of the results or zero.
pub proof fn law_extremes(results: Seq<Double>, i: int)
    requires
        0 <= i < results.len(),
        !results[i].nan(),
    ensures
        results[i].at_most(greatest(gains(results))),
        least(losses(results)).at_most(results[i]),
        greatest(gains(results)) == (Double { bits: 0 }) || results.contains(
            greatest(gains(results)),
        ),
        least(losses(results)) == (Double { bits: 0 }) || results.contains(
            least(losses(results)),
        ),
{
    broadcast use vstd::seq_lib::group_filter_ensures;

    let up = gains(results);
    let down = losses(results);
    lemma_greatest(up);
    lemma_least(down);
    let x = results[i];
    let above = |x: Double| (Double { bits: 0 }).below(x);
    let under = |x: Double| x.below(Double { bits: 0 });
    if above(x) {
        assert(up.contains(x));
    }
    if under(x) {
        assert(down.contains(x));
    }
    if up.contains(greatest(up)) {
        let k = choose|k: int| 0 <= k < up.len() && up[k] == greatest(up);
        lemma_kept_from(results, above, k);
    }
    if down.contains(least(down)) {
        let k = choose|k: int| 0 <= k < down.len() && down[k] == least(down);
        lemma_kept_from(results, under, k);
    }
}

proof fn lemma_kept_from(s: Seq<Double>, keep: spec_fn(Double) -> bool, k: int)
    requires
        0 <= k < s.filter(keep).len(),
    ensures
        s.contains(s.filter(keep)[k]),
    decreases s.len(),
{
    reveal(Seq::filter);
    let rest = s.drop_last();
    if k < rest.filter(keep).len() {
        lemma_kept_from(rest, keep, k);
        let j = choose|j: int| 0 <= j < rest.len() && rest[j] == rest.filter(keep)[k];
        assert(s[j] == s.filter(keep)[k]);
    } else {
        assert(s[s.len() - 1] == s.filter(keep)[k]);
    }
}

proof fn lemma_greatest(s: Seq<Double>)
    ensures
        !greatest(s).nan(),
        greatest(s).key() >= 0,
        forall|k: int| 0 <= k < s.len() && !(#[trigger] s[k]).nan() ==> s[k].key() <= greatest(s).key(),
        greatest(s) == (Double { bits: 0 }) || s.contains(greatest(s)),
    decreases s.len(),
{
    if s.len() > 0 {
        let rest = s.drop_last();
        lemma_greatest(rest);
        assert forall|k: int| 0 <= k < s.len() && !(#[trigger] s[k]).nan() implies s[k].key()
            <= greatest(s).key() by {
            if k < rest.len() {
                assert(rest[k] == s[k]);
            }
        }
        if greatest(s) == s.last() {
            assert(s[s.len() - 1] == greatest(s));
        } else if rest.contains(greatest(rest)) {
            let k = choose|k: int| 0 <= k < rest.len() && rest[k] == greatest(rest);
            assert(s[k] == greatest(s));
        }
    }
}

proof fn lemma_least(s: Seq<Double>)
    ensures
        !least(s).nan(),
        least(s).key() <= 0,
        forall|k: int| 0 <= k < s.len() && !(#[trigger] s[k]).nan() ==> least(s).key() <= s[k].key(),
        least(s) == (Double { bits: 0 }) || s.contains(least(s)),
    decreases s.len(),
{
    if s.len() > 0 {
        let rest = s.drop_last();
        lemma_least(rest);
        assert forall|k: int| 0 <= k < s.len() && !(#[trigger] s[k]).nan() implies least(s).key()
            <= s[k].key() by {
            if k < rest.len() {
                assert(rest[k] == s[k]);
            }
        }
        if least(s) == s.last() {
            assert(s[s.len() - 1] == least(s));
        } else if rest.contains(least(rest)) {
            let k = choose|k: int| 0 <= k < rest.len() && rest[k] == least(rest);
            assert(s[k] == least(s));
        }
    }
}

/// The signals of the final bar have no part in the trades, nor in any figure
/// of the report but the counts of signals and the last signal itself.
pub proof fn law_final_signal_leaves_the_figures(
    frame: PriceFrame,
    side: BuySell,
    other: BuySell,
    strategy: Seq<char>,
    results: Seq<Double>,
    figures: Figures,
    bt: Backtest,
    bt2: Backtest,
)
    requires
        frame.market(&side).valid(),
        frame.market(&other).valid(),
        forall|j: int|
            0 <= j < frame.open@.len() - 1 ==> other.buy@[j] == side.buy@[j] && other.sell@[j]
                == side.sell@[j],
        is_report(bt, frame, side, strategy, results, figures),
        is_report(bt2, frame, other, strategy, results, figures),
    ensures
        priced_trades(frame, other) == priced_trades(frame, side),
        bt2.trades == bt.trades,
        bt2.expectancy == bt.expectancy,
        bt2.profit_factor == bt.profit_factor,
        bt2.hit_ratio == bt.hit_ratio,
        bt2.realized_risk_reward == bt.realized_risk_reward,
        bt2.avg_gain == bt.avg_gain,
        bt2.avg_loss == bt.avg_loss,
        bt2.max_gain == bt.max_gain,
        bt2.max_loss == bt.max_loss,
{
    crate::trades::law_final_signal_is_ignored(frame.market(&side), frame.market(&other));
    assert(priced_trades(frame, other) =~= priced_trades(frame, side));
}

/// Scaling every price alike keeps every trade and scales its prices; where the
/// results in percent are the same, so is every field of the report.
pub proof fn law_price_level_leaves_the_report(
    frame: PriceFrame,
    other: PriceFrame,
    e: int,
    side: BuySell,
    strategy: Seq<char>,
    results: Seq<Double>,
    figures: Figures,
    bt: Backtest,
    bt2: Backtest,
)
    requires
        frame.market(&side).valid(),
        frame.open@.len() <= usize::MAX,
        frame.market(&side).scales_to(other.market(&side), e),
        other.date == frame.date,
        other.ticker == frame.ticker,
        other.universe == frame.universe,
        is_report(bt, frame, side, strategy, results, figures),
        is_report(bt2, other, side, strategy, results, figures),
    ensures
        priced_trades(other, side).len() == priced_trades(frame, side).len(),
        forall|k: int|
            0 <= k < priced_trades(frame, side).len() ==> {
                let t = #[trigger] priced_trades(frame, side)[k];
                let u = priced_trades(other, side)[k];
                &&& u.long == t.long
                &&& t.entry.scales_to(u.entry, e)
                &&& t.exit.scales_to(u.exit, e)
            },
        bt2.ticker@ == bt.ticker@,
        bt2.universe@ == bt.universe@,
        bt2.strategy@ == bt.strategy@,
        bt2.date@ == bt.date@,
        bt2 == (Backtest {
            ticker: bt2.ticker,
            universe: bt2.universe,
            strategy: bt2.strategy,
            date: bt2.date,
            ..bt
        }),
{
    let m = frame.market(&side);
    let n = other.market(&side);
    crate::trades::law_scaled_prices_keep_trades(m, n, e);
    assert forall|k: int| 0 <= k < priced_trades(frame, side).len() implies {
        let t = #[trigger] priced_trades(frame, side)[k];
        let u = priced_trades(other, side)[k];
        &&& u.long == t.long
        &&& t.entry.scales_to(u.entry, e)
        &&& t.exit.scales_to(u.exit, e)
    } by {
        crate::trades::law_trades_are_sound(m, k);
        let t = m.trades()[k];
        assert(m.open[t.entry_bar as int] is Some);
        assert(m.open[t.exit_bar as int] is Some || m.is_last(t.exit_bar as int));
        assert(m.close[t.exit_bar as int] is Some || !m.is_last(t.exit_bar as int));
    }
}

/// The same bars with buys and sells exchanged have the same trades, each in
/// the other direction and at the same prices; the reports exchange their buys
/// and sells, and where every result turns its sign they exchange their best
/// gain and worst loss with the sign turned. No bar may have both a buy and a
/// sell.
pub proof fn law_exchanged_signals_mirror_report(
    frame: PriceFrame,
    side: BuySell,
    mirror: BuySell,
    strategy: Seq<char>,
    results: Seq<Double>,
    turned: Seq<Double>,
    figures: Figures,
    mirror_figures: Figures,
    bt: Backtest,
    bt2: Backtest,
)
    requires
        frame.market(&side).valid(),
        frame.market(&mirror).mirrors(frame.market(&side)),
        forall|i: int| 0 <= i < side.buy@.len() ==> 0 <= #[trigger] side.buy@[i] <= 1,
        forall|i: int| 0 <= i < side.sell@.len() ==> -1 <= #[trigger] side.sell@[i] <= 0,
        forall|i: int|
            0 <= i < frame.open@.len() ==> !(#[trigger] side.buy@[i] == 1 && side.sell@[i] == -1),
        turned == results.map_values(|x: Double| x.negated()),
        is_report(bt, frame, side, strategy, results, figures),
        is_report(bt2, frame, mirror, strategy, turned, mirror_figures),
    ensures
        priced_trades(frame, mirror) == priced_trades(frame, side).map_values(
            |t: PricedTrade| PricedTrade { long: !t.long, ..t },
        ),
        bt2.trades == bt.trades,
        bt2.buys == bt.sells,
        bt2.sells == bt.buys,
        bt2.max_gain.key() == -bt.max_loss.key(),
        bt2.max_loss.key() == -bt.max_gain.key(),
{
    let m = frame.market(&side);
    let n = frame.market(&mirror);
    crate::trades::law_exchanged_signals_mirror_trades(m, n);
    assert(priced_trades(frame, mirror) =~= priced_trades(frame, side).map_values(
        |t: PricedTrade| PricedTrade { long: !t.long, ..t },
    ));
    lemma_total_negated(side.sell@, mirror.buy@);
    lemma_total_negated(side.buy@, mirror.sell@);
    lemma_total_sign(side.buy@, mirror.sell@);
    lemma_total_sign(mirror.buy@, side.sell@);
    law_turned_results_exchange_extremes(results, turned);
}

proof fn lemma_total_negated(s: Seq<i32>, t: Seq<i32>)
    requires
        s.len() == t.len(),
        forall|i: int| 0 <= i < s.len() ==> #[trigger] t[i] == -s[i],
    ensures
        total(t) == -total(s),
    decreases s.len(),
{
    if s.len() > 0 {
        lemma_total_negated(s.drop_last(), t.drop_last());
        assert(t[t.len() - 1] == -s[s.len() - 1]);
    }
}

proof fn lemma_total_sign(up: Seq<i32>, down: Seq<i32>)
    requires
        forall|i: int| 0 <= i < up.len() ==> #[trigger] up[i] >= 0,
        forall|i: int| 0 <= i < down.len() ==> #[trigger] down[i] <= 0,
    ensures
        total(up) >= 0,
        total(down) <= 0,
    decreases up.len() + down.len(),
{
    if up.len() > 0 {
        lemma_total_sign(up.drop_last(), down);
        assert(up[up.len() - 1] >= 0);
    } else if down.len() > 0 {
        lemma_total_sign(up, down.drop_last());
        assert(down[down.len() - 1] <= 0);
    }
}

/// Where every result turns its sign, the best gain and the worst loss change
/// places: each is the other with its sign turned.
pub proof fn law_turned_results_exchange_extremes(results: Seq<Double>, turned: Seq<Double>)
    requires
        turned == results.map_values(|x: Double| x.negated()),
    ensures
        greatest(gains(turned)).key() == -least(losses(results)).key(),
        least(losses(turned)).key() == -greatest(gains(results)).key(),
    decreases results.len(),
{
    reveal(Seq::filter);
    if results.len() > 0 {
        let rest = results.drop_last();
        assert(turned.drop_last() =~= rest.map_values(|x: Double| x.negated()));
        law_turned_results_exchange_extremes(rest, turned.drop_last());
        lemma_greatest(gains(rest));
        lemma_least(losses(rest));
        lemma_greatest(gains(turned.drop_last()));
        lemma_least(losses(turned.drop_last()));
        let x = results.last();
        assert(turned.last() == x.negated());
        assert(x.negated().nan() == x.nan() && x.negated().key() == -x.key());
        let up = gains(rest);
        let down = losses(rest);
        assert(up.push(x).drop_last() =~= up);
        assert(down.push(x).drop_last() =~= down);
        let other_up = gains(turned.drop_last());
        let other_down = losses(turned.drop_last());
        assert(other_up.push(x.negated()).drop_last() =~= other_up);
        assert(other_down.push(x.negated()).drop_last() =~= other_down);
    }
}

/// The backtests of one strategy in one universe.
pub struct SummaryGroup {
    pub strategy: Option<String>,
    pub universe: Option<String>,
    /// The rows that the averages are taken over.
    pub rows: Vec<usize>,
    pub total_trades: i128,
    /// How many of the rows have a profit factor.
    pub count: usize,
}

/// The strategies and universes of the rows.
pub open spec fn summary_keys(keys: Seq<(Option<String>, Option<String>)>) -> Seq<
    (Option<Seq<char>>, Option<Seq<char>>),
> {
    crate::groups::values(keys)
}

/// The trades of the given rows together, gaps left out.
pub open spec fn trades_in(trades: Seq<Option<i64>>, rows: Seq<usize>) -> int
    decreases rows.len(),
{
    if rows.len() == 0 {
        0
    } else {
        trades_in(trades, rows.drop_last()) + (match trades[rows.last() as int] {
            Some(n) => n as int,
            None => 0,
        })
    }
}

/// The trades of one strategy in one universe.
pub open spec fn trades_of<V>(column: Seq<V>, trades: Seq<Option<i64>>, v: V) -> int {
    trades_in(trades, crate::groups::rows_with(column, v))
}

/// Those of the given keys that have enough trades.
pub open spec fn traded_enough<V>(keys: Seq<V>, column: Seq<V>, trades: Seq<Option<i64>>) -> Seq<V>
    decreases keys.len(),
{
    if keys.len() == 0 {
        Seq::empty()
    } else {
        let before = traded_enough(keys.drop_last(), column, trades);
        if trades_of(column, trades, keys.last()) >= MIN_TOTAL_TRADES {
            before.push(keys.last())
        } else {
            before
        }
    }
}

/// The strategies and universes that a summary lists, in the order in which
/// they first occur.
pub open spec fn summarized(
    keys: Seq<(Option<String>, Option<String>)>,
    trades: Seq<Option<i64>>,
) -> Seq<(Option<Seq<char>>, Option<Seq<char>>)> {
    traded_enough(
        crate::groups::distinct(summary_keys(keys)),
        summary_keys(keys),
        trades,
    )
}

/// `g` is the group of rows that share the key `v`.
pub open spec fn is_group(
    g: SummaryGroup,
    column: Seq<(Option<Seq<char>>, Option<Seq<char>>)>,
    trades: Seq<Option<i64>>,
    factors: Seq<Option<Double>>,
    v: (Option<Seq<char>>, Option<Seq<char>>),
) -> bool {
    &&& crate::text::known_text(g.strategy) == v.0
    &&& crate::text::known_text(g.universe) == v.1
    &&& g.rows@ == crate::groups::rows_with(column, v)
    &&& g.total_trades == trades_of(column, trades, v)
    &&& g.count == crate::groups::count_known(factors, crate::groups::rows_with(column, v))
}

fn count_trades(trades: &Vec<Option<i64>>, rows: &Vec<usize>) -> (r: i128)
    requires
        forall|k: int| 0 <= k < rows@.len() ==> #[trigger] rows@[k] < trades@.len(),
    ensures
        r == trades_in(trades@, rows@),
{
    let mut sum: i128 = 0;
    let mut i: usize = 0;
    while i < rows.len()
        invariant
            i <= rows@.len(),
            forall|k: int| 0 <= k < rows@.len() ==> #[trigger] rows@[k] < trades@.len(),
            sum == trades_in(trades@, rows@.take(i as int)),
            -0x8000_0000_0000_0000 * i <= sum <= 0x8000_0000_0000_0000 * i,
        decreases rows@.len() - i,
    {
        proof {
            assert(rows@.take(i + 1).drop_last() =~= rows@.take(i as int));
        }
        if let Some(n) = trades[rows[i]] {
            sum = sum + n as i128;
        }
        i += 1;
    }
    proof {
        assert(rows@.take(rows@.len() as int) =~= rows@);
    }
    sum
}

/// Groups the backtests by strategy and universe, in the order in which the
/// pairs first occur, and keeps the groups with at least `MIN_TOTAL_TRADES`
/// trades in all: signals are rare by design, so a group is judged by its
/// total and not by its mean per ticker.
pub fn summary_performance(
    keys: &Vec<(Option<String>, Option<String>)>,
    trades: &Vec<Option<i64>>,
    factors: &Vec<Option<Double>>,
) -> (out: Vec<SummaryGroup>)
    requires
        keys@.len() == trades@.len(),
        keys@.len() == factors@.len(),
    ensures
        out@.len() == summarized(keys@, trades@).len(),
        forall|g: int|
            0 <= g < out@.len() ==> is_group(
                #[trigger] out@[g],
                summary_keys(keys@),
                trades@,
                factors@,
                summarized(keys@, trades@)[g],
            ),
        forall|g: int| 0 <= g < out@.len() ==> (#[trigger] out@[g]).total_trades >= 20,
        forall|i: int|
            0 <= i < keys@.len() && trades_of(
                summary_keys(keys@),
                trades@,
                #[trigger] summary_keys(keys@)[i],
            ) >= 20 ==> exists|g: int|
                0 <= g < out@.len() && crate::text::known_text((#[trigger] out@[g]).strategy)
                    == crate::text::known_text(keys@[i].0) && crate::text::known_text(
                    out@[g].universe,
                ) == crate::text::known_text(keys@[i].1),
{
    let groups = group_rows(keys);
    let ghost column = summary_keys(keys@);
    let ghost all = crate::groups::distinct(column);
    let n: usize = keys.len();
    let mut out: Vec<SummaryGroup> = Vec::new();
    let mut g: usize = 0;
    while g < groups.len()
        invariant
            n == keys@.len(),
            keys@.len() == trades@.len(),
            keys@.len() == factors@.len(),
            column == summary_keys(keys@),
            all == crate::groups::distinct(column),
            groups@.len() == all.len(),
            forall|h: int|
                0 <= h < groups@.len() ==> (#[trigger] groups@[h])@ == crate::groups::rows_with(
                    column,
                    all[h],
                ),
            g <= groups@.len(),
            ({
                let kept = traded_enough(all.take(g as int), column, trades@);
                &&& out@.len() == kept.len()
                &&& forall|h: int|
                    0 <= h < out@.len() ==> is_group(
                        #[trigger] out@[h],
                        column,
                        trades@,
                        factors@,
                        kept[h],
                    )
            }),
        decreases groups@.len() - g,
    {
        proof {
            assert(all.take(g + 1).drop_last() =~= all.take(g as int));
            assert(all.take(g + 1).last() == all[g as int]);
            crate::groups::law_rows_with(column, all[g as int]);
            crate::groups::law_distinct(column);
            assert(crate::groups::distinct(column).contains(all[g as int]));
            let i = choose|i: int| 0 <= i < column.len() && column[i] == all[g as int];
            assert(crate::groups::rows_with(column, all[g as int]).contains(i as usize));
        }
        let rows: &Vec<usize> = &groups[g];
        let total_trades: i128 = count_trades(trades, rows);
        let leader: usize = rows[0];
        if total_trades >= MIN_TOTAL_TRADES {
            let count: usize = known_rows(factors, rows);
            let group = SummaryGroup {
                strategy: copy_text(&keys[leader].0),
                universe: copy_text(&keys[leader].1),
                rows: rows.clone(),
                total_trades,
                count,
            };
            proof {
                assert(column[leader as int] == all[g as int]);
                assert(group.rows@ =~= rows@);
            }
            out.push(group);
        }
        g += 1;
    }
    proof {
        assert(all.take(groups@.len() as int) =~= all);
        let kept = summarized(keys@, trades@);
        assert forall|g: int| 0 <= g < out@.len() implies (#[trigger] out@[g]).total_trades
            >= 20 by {
            assert(is_group(out@[g], column, trades@, factors@, kept[g]));
            assert(kept.contains(kept[g]));
            law_summary_lists_what_was_traded(keys@, trades@, kept[g]);
        }
        assert forall|i: int|
            0 <= i < keys@.len() && trades_of(column, trades@, #[trigger] column[i])
                >= 20 implies exists|g: int|
            0 <= g < out@.len() && crate::text::known_text((#[trigger] out@[g]).strategy)
                == crate::text::known_text(keys@[i].0) && crate::text::known_text(out@[g].universe)
                == crate::text::known_text(keys@[i].1) by {
            law_summary_lists_what_was_traded(keys@, trades@, column[i]);
            assert(crate::text::known_text(keys@[i].0) == column[i].0);
            assert(kept.contains(column[i]));
            let g = choose|g: int| 0 <= g < kept.len() && kept[g] == column[i];
            assert(is_group(out@[g], column, trades@, factors@, kept[g]));
        }
    }
    out
}

/// The order in which a summary lists its groups, from their mean hit ratios:
/// ascending, a missing one first.
pub fn summary_order(
    keys: &Vec<(Option<String>, Option<String>)>,
    trades: &Vec<Option<i64>>,
    hit_ratios: &Vec<Option<Double>>,
) -> (order: Vec<usize>)
    requires
        keys@.len() == trades@.len(),
        hit_ratios@.len() == summarized(keys@, trades@).len(),
    ensures
        crate::groups::is_arrangement(order@, summarized(keys@, trades@).len()),
        forall|k: int, l: int|
            0 <= k < l < order@.len() ==> crate::scores::worse(
                hit_ratios@,
                #[trigger] order@[k],
                #[trigger] order@[l],
            ),
{
    figure_order(hit_ratios)
}

/// A trade is priced at the open of its entry bar and at the open of its exit
/// bar, or at the final close where it ends with the data; it keeps its
/// direction.
pub proof fn law_trades_are_priced(frame: PriceFrame, side: BuySell, k: int)
    requires
        frame.market(&side).valid(),
        frame.open@.len() <= usize::MAX,
        0 <= k < frame.market(&side).trades().len(),
    ensures
        priced_trades(frame, side).len() == frame.market(&side).trades().len(),
        ({
            let t = frame.market(&side).trades()[k];
            let u = priced_trades(frame, side)[k];
            &&& u.long == t.long
            &&& frame.open@[t.entry_bar as int] == Some(u.entry)
            &&& t.exit_bar < frame.open@.len() - 1 ==> frame.open@[t.exit_bar as int] == Some(u.exit)
            &&& t.exit_bar == frame.open@.len() - 1 ==> frame.close@.last() == Some(u.exit)
        }),
{
    crate::trades::law_trades_follow_the_signals(frame.market(&side), k);
}

/// A result above zero is one more gain, a result below zero one more loss, and
/// any other is neither; the hit ratio counts the gains among both.
pub proof fn law_one_more_result(results: Seq<Double>, x: Double)
    requires
        results.len() < usize::MAX,
    ensures
        gains(results.push(x)) == (if (Double { bits: 0 }).below(x) {
            gains(results).push(x)
        } else {
            gains(results)
        }),
        losses(results.push(x)) == (if x.below(Double { bits: 0 }) {
            losses(results).push(x)
        } else {
            losses(results)
        }),
        gains(Seq::empty()).len() == 0,
        losses(Seq::empty()).len() == 0,
        gains(results).len() + losses(results).len() > 0 ==> {
            &&& hit_share(results).part == gains(results).len()
            &&& hit_share(results).whole == gains(results).len() + losses(results).len()
        },
        gains(results).len() + losses(results).len() == 0 ==> hit_share(results).part == 0,
{
    reveal(Seq::filter);
    assert(results.push(x).drop_last() =~= results);
    lemma_parts_fit(results);
}

/// A figure that is a number no higher than its cap, and one no lower than its
/// floor, is reported as it is; one beyond is reported as the cap or the floor,
/// and what is not a number as zero.
pub proof fn law_figures_are_capped(x: Double, cap: u64)
    requires
        !(Double { bits: cap }).nan(),
    ensures
        x.nan() ==> capped_at(x, cap).bits == 0 && floored_at(x, cap).bits == 0,
        x.below(Double { bits: cap }) ==> capped_at(x, cap) == x && floored_at(x, cap).bits == cap,
        (Double { bits: cap }).below(x) ==> capped_at(x, cap).bits == cap && floored_at(x, cap)
            == x,
        !x.nan() ==> capped_at(x, cap).at_most(x) && capped_at(x, cap).at_most(
            Double { bits: cap },
        ),
        !x.nan() ==> x.at_most(floored_at(x, cap)) && (Double { bits: cap }).at_most(
            floored_at(x, cap),
        ),
{
}

proof fn lemma_counted(s: Seq<i32>, sign: i32)
    requires
        sign == 1 || sign == -1,
        forall|k: int| 0 <= k < s.len() ==> #[trigger] s[k] == 0 || s[k] == sign,
    ensures
        total(s) == sign * s.filter(|x: i32| x == sign).len(),
    decreases s.len(),
{
    reveal(Seq::filter);
    if s.len() > 0 {
        lemma_counted(s.drop_last(), sign);
        assert(s[s.len() - 1] == 0 || s[s.len() - 1] == sign);
    }
}

/// A report counts the bars that buy and the bars that sell, the final one
/// included.
pub proof fn law_report_counts_the_signals(
    bt: Backtest,
    frame: PriceFrame,
    side: BuySell,
    strategy: Seq<char>,
    results: Seq<Double>,
    figures: Figures,
)
    requires
        is_report(bt, frame, side, strategy, results, figures),
        forall|k: int|
            0 <= k < side.buy@.len() ==> #[trigger] side.buy@[k] == 0 || side.buy@[k] == 1,
        forall|k: int|
            0 <= k < side.sell@.len() ==> #[trigger] side.sell@[k] == 0 || side.sell@[k] == -1,
    ensures
        bt.buys == side.buy@.filter(|x: i32| x == 1).len(),
        bt.sells == side.sell@.filter(|x: i32| x == -1).len(),
{
    lemma_counted(side.buy@, 1);
    lemma_counted(side.sell@, -1i32);
}

/// What a report says: whose it is by the first row, its day, its last signal
/// and the confidence behind it by the last one, its trades by their number,
/// and of the results the best and the worst. A text that neither begins nor
/// ends with a quote is reported as it is.
pub proof fn law_report_reads_its_inputs(
    bt: Backtest,
    frame: PriceFrame,
    side: BuySell,
    strategy: Seq<char>,
    results: Seq<Double>,
    figures: Figures,
)
    requires
        is_report(bt, frame, side, strategy, results, figures),
        frame.open@.len() >= 1,
        frame.date@.len() == frame.open@.len(),
    ensures
        ({
            let last = frame.open@.len() - 1;
            let plain = |s: Seq<char>| s.len() > 0 && s[0] != '"' && s.last() != '"';
            &&& bt.strategy@ == strategy
            &&& plain(frame.ticker@[0]@) ==> bt.ticker@ == frame.ticker@[0]@
            &&& plain(frame.universe@[0]@) ==> bt.universe@ == frame.universe@[0]@
            &&& plain(frame.date@[last]@) ==> bt.date@ == frame.date@[last]@
            &&& bt.trades == frame.market(&side).trades().len()
            &&& bt.buy == side.buy@[last]
            &&& bt.sell == side.sell@[last]
            &&& side.pos_conf@.len() == frame.open@.len() && !side.pos_conf@[last].nan()
                ==> bt.pos_conf == side.pos_conf@[last]
            &&& side.neg_conf@.len() == frame.open@.len() && !side.neg_conf@[last].nan()
                ==> bt.neg_conf == side.neg_conf@[last]
        }),
        forall|i: int|
            0 <= i < results.len() && !(#[trigger] results[i]).nan() ==> results[i].at_most(
                bt.max_gain,
            ) && bt.max_loss.at_most(results[i]),
        bt.max_gain.bits == 0 || results.contains(bt.max_gain),
        bt.max_loss.bits == 0 || results.contains(bt.max_loss),
        figures.profit_factor.below(Double { bits: HIGHEST_FACTOR }) ==> bt.profit_factor
            == figures.profit_factor,
        figures.expectancy.below(Double { bits: HIGHEST_FACTOR }) ==> bt.expectancy
            == figures.expectancy,
        figures.risk_reward.below(Double { bits: HUNDRED }) ==> bt.realized_risk_reward
            == figures.risk_reward,
        figures.average_gain.below(Double { bits: HUNDRED }) ==> bt.avg_gain
            == figures.average_gain,
        (Double { bits: MINUS_HUNDRED }).below(figures.average_loss) ==> bt.avg_loss
            == figures.average_loss,
{
    crate::text::law_trimmed_at_both_ends(frame.ticker@[0]@, '"');
    crate::text::law_trimmed_at_both_ends(frame.universe@[0]@, '"');
    crate::text::law_trimmed_at_both_ends(frame.date@.last()@, '"');
    assert forall|i: int| 0 <= i < results.len() && !(#[trigger] results[i]).nan() implies results[i].at_most(
        bt.max_gain,
    ) && bt.max_loss.at_most(results[i]) by {
        law_extremes(results, i);
    }
    let up = gains(results);
    let down = losses(results);
    lemma_greatest(up);
    lemma_least(down);
    if up.contains(greatest(up)) {
        let k = choose|k: int| 0 <= k < up.len() && up[k] == greatest(up);
        lemma_kept_from(results, |x: Double| (Double { bits: 0 }).below(x), k);
    }
    if down.contains(least(down)) {
        let k = choose|k: int| 0 <= k < down.len() && down[k] == least(down);
        lemma_kept_from(results, |x: Double| x.below(Double { bits: 0 }), k);
    }
}

/// The trades of a group add up: one more backtest adds its trades to its own
/// group, and nothing where their number is missing.
pub proof fn law_trades_add_up<V>(
    column: Seq<V>,
    trades: Seq<Option<i64>>,
    v: V,
    key: V,
    n: Option<i64>,
)
    requires
        column.len() == trades.len() < usize::MAX,
    ensures
        trades_of(Seq::<V>::empty(), Seq::empty(), v) == 0,
        trades_of(column.push(key), trades.push(n), v) == trades_of(column, trades, v) + (if key
            == v && n is Some {
            n.unwrap() as int
        } else {
            0
        }),
{
    crate::groups::law_rows_with(column, v);
    let rows = crate::groups::rows_with(column, v);
    assert(column.push(key).drop_last() =~= column);
    lemma_trades_of_longer(trades, n, rows);
    if key == v {
        assert(crate::groups::rows_with(column.push(key), v).drop_last() =~= rows);
    }
}

proof fn lemma_trades_of_longer(trades: Seq<Option<i64>>, n: Option<i64>, rows: Seq<usize>)
    requires
        forall|k: int| 0 <= k < rows.len() ==> #[trigger] rows[k] < trades.len(),
    ensures
        trades_in(trades.push(n), rows) == trades_in(trades, rows),
    decreases rows.len(),
{
    if rows.len() > 0 {
        lemma_trades_of_longer(trades, n, rows.drop_last());
        assert(rows[rows.len() - 1] < trades.len());
    }
}

proof fn lemma_traded_enough<V>(keys: Seq<V>, column: Seq<V>, trades: Seq<Option<i64>>)
    requires
        keys.no_duplicates(),
    ensures
        traded_enough(keys, column, trades).no_duplicates(),
        forall|v: V| #[trigger]
            traded_enough(keys, column, trades).contains(v) <==> keys.contains(v) && trades_of(
                column,
                trades,
                v,
            ) >= 20,
    decreases keys.len(),
{
    if keys.len() > 0 {
        let rest = keys.drop_last();
        let x = keys.last();
        lemma_traded_enough(rest, column, trades);
        let before = traded_enough(rest, column, trades);
        let after = traded_enough(keys, column, trades);
        assert(!rest.contains(x)) by {
            if rest.contains(x) {
                let i = choose|i: int| 0 <= i < rest.len() && rest[i] == x;
                assert(keys[i] == keys[keys.len() - 1]);
            }
        }
        assert(!before.contains(x));
        assert forall|v: V| #[trigger] after.contains(v) <==> keys.contains(v) && trades_of(
            column,
            trades,
            v,
        ) >= 20 by {
            if keys.contains(v) && trades_of(column, trades, v) >= 20 {
                let i = choose|i: int| 0 <= i < keys.len() && keys[i] == v;
                if i < rest.len() {
                    assert(rest[i] == v);
                    assert(rest.contains(v));
                    assert(before.contains(v));
                    let k = choose|k: int| 0 <= k < before.len() && before[k] == v;
                    assert(after[k] == v);
                } else {
                    assert(after.last() == v);
                }
            }
            if after.contains(v) {
                let k = choose|k: int| 0 <= k < after.len() && after[k] == v;
                if k < before.len() {
                    assert(before[k] == v);
                    assert(before.contains(v));
                    assert(rest.contains(v));
                    let i = choose|i: int| 0 <= i < rest.len() && rest[i] == v;
                    assert(keys[i] == v);
                } else {
                    assert(keys[keys.len() - 1] == v);
                }
            }
        }
        assert forall|k: int, l: int| 0 <= k < after.len() && 0 <= l < after.len() && k
            != l implies after[k] != after[l] by {
            if k == before.len() {
                assert(before.contains(before[l]));
            }
            if l == before.len() {
                assert(before.contains(before[k]));
            }
        }
    }
}

/// A summary lists every strategy and universe with at least twenty trades
/// together, and no other, once.
pub proof fn law_summary_lists_what_was_traded(
    keys: Seq<(Option<String>, Option<String>)>,
    trades: Seq<Option<i64>>,
    v: (Option<Seq<char>>, Option<Seq<char>>),
)
    ensures
        summarized(keys, trades).no_duplicates(),
        summarized(keys, trades).contains(v) <==> trades_of(summary_keys(keys), trades, v) >= 20
            && exists|i: int|
            0 <= i < keys.len() && crate::text::known_text((#[trigger] keys[i]).0) == v.0
                && crate::text::known_text(keys[i].1) == v.1,
{
    let column = summary_keys(keys);
    crate::groups::law_distinct(column);
    lemma_traded_enough(crate::groups::distinct(column), column, trades);
    if column.contains(v) {
        let i = choose|i: int| 0 <= i < column.len() && column[i] == v;
        assert(crate::text::known_text(keys[i].0) == v.0);
    }
    if exists|i: int|
        0 <= i < keys.len() && crate::text::known_text((#[trigger] keys[i]).0) == v.0
            && crate::text::known_text(keys[i].1) == v.1 {
        let i = choose|i: int|
            0 <= i < keys.len() && crate::text::known_text((#[trigger] keys[i]).0) == v.0
                && crate::text::known_text(keys[i].1) == v.1;
        assert(column[i] == v);
    }
}

/// A group of a summary holds exactly the rows of its strategy and universe, in
/// their order, and their trades together.
pub proof fn law_group_holds_its_rows(
    g: SummaryGroup,
    column: Seq<(Option<Seq<char>>, Option<Seq<char>>)>,
    trades: Seq<Option<i64>>,
    factors: Seq<Option<Double>>,
    v: (Option<Seq<char>>, Option<Seq<char>>),
    i: int,
)
    requires
        is_group(g, column, trades, factors, v),
        0 <= i < column.len() <= usize::MAX,
    ensures
        g.rows@.contains(i as usize) <==> column[i].0 == crate::text::known_text(g.strategy)
            && column[i].1 == crate::text::known_text(g.universe),
        crate::sorting::are_rows(g.rows@, column.len()),
        g.total_trades == trades_of(column, trades, v),
        g.count <= g.rows@.len(),
{
    crate::groups::law_rows_with(column, v);
    if g.rows@.contains(i as usize) {
        let k = choose|k: int| 0 <= k < g.rows@.len() && g.rows@[k] == i as usize;
        assert(column[g.rows@[k] as int] == v);
    }
    if column[i].0 == v.0 && column[i].1 == v.1 {
        assert(column[i] == v);
    }
    lemma_count_is_bounded(factors, g.rows@);
}

proof fn lemma_count_is_bounded(factors: Seq<Option<Double>>, rows: Seq<usize>)
    ensures
        crate::groups::count_known(factors, rows) <= rows.len(),
    decreases rows.len(),
{
    if rows.len() > 0 {
        lemma_count_is_bounded(factors, rows.drop_last());
    }
}

} // verus!

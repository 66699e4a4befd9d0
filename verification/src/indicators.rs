//! The confidence indicator: how much of a day's evidence of a bubble
//! qualifies.
//!
//! Columns may have gaps. A comparison with a gap holds of nothing, and a
//! pattern that is not a number compares as greater than every number.
use crate::double::Double;
use crate::groups::group_rows;
use vstd::prelude::*;

verus! {

/// 0.01 and 0.99: the exponent must lie between them. Fits pinned at the
/// theoretical boundaries do not qualify as bubble evidence.
pub const M_MIN: u64 = 0x3F84_7AE1_47AE_147B;

pub const M_MAX: u64 = 0x3FEF_AE14_7AE1_47AE;

/// 2 and 15: the angular frequency must lie between them.
pub const W_MIN: u64 = 0x4000_0000_0000_0000;

pub const W_MAX: u64 = 0x402E_0000_0000_0000;

/// 2.5: the fewest oscillations.
pub const O_MIN: u64 = 0x4004_0000_0000_0000;

/// 0.5: the least damping.
pub const D_MIN: u64 = 0x3FE0_0000_0000_0000;

/// 60: the days before the end of a window from which on its critical time may
/// lie.
pub const TC_DAYS_BEFORE: u64 = 0x404E_0000_0000_0000;

/// 252: the days after the end of a window up to which its critical time may
/// lie.
pub const TC_DAYS_AFTER: u64 = 0x406F_8000_0000_0000;

/// 0.5: the part of the span of a window by which its critical time may lie off
/// its end, on either side.
pub const TC_SPAN_PART: u64 = 0x3FE0_0000_0000_0000;

/// 0.9: the part of the fits of a ticker that is good enough. The limit is
/// within the ticker, since prices are scaled over their full history and
/// absolute errors do not compare between assets.
pub const FIT_QUANTILE: u64 = 0x3FEC_CCCC_CCCC_CCCD;

/// The fewest qualified windows of a date with a confidence above zero: one
/// lucky window out of two should not read as a half.
pub const MIN_QUALIFIED: usize = 2;

/// One nested fit, as its qualification reads it.
pub struct FitRow {
    /// The last day of the window.
    pub t2_d: Option<i32>,
    /// The critical time.
    pub tc: Option<Double>,
    pub m: Option<Double>,
    pub w: Option<Double>,
    pub b: Option<Double>,
    pub oscillations: Option<Double>,
    pub damping: Option<Double>,
    /// The price at the end of the window.
    pub p2: Option<Double>,
    /// 60 days before the end of the window.
    pub fixed_lower: Option<Double>,
    /// Half the window before its end.
    pub half_lower: Option<Double>,
    /// 252 days after the end of the window.
    pub fixed_upper: Option<Double>,
    /// Half the window after its end.
    pub half_upper: Option<Double>,
    /// The squared error of the fit per day of the window.
    pub daily_error: Option<Double>,
}

/// Whether both are there and `a` is at most `b`.
pub open spec fn known_at_most(a: Option<Double>, b: Option<Double>) -> bool {
    a matches Some(x) && b matches Some(y) && x.rank() <= y.rank()
}

/// Whether `a` is there and below zero.
pub open spec fn known_negative(a: Option<Double>) -> bool {
    a matches Some(x) && x.rank() < 0
}

/// Whether `a` is there and above zero.
pub open spec fn known_positive(a: Option<Double>) -> bool {
    a matches Some(x) && x.rank() > 0
}

impl FitRow {
    /// The earliest critical time that qualifies: the later of the two lower
    /// limits.
    pub open spec fn tc_from(self) -> Option<Double> {
        if known_at_most(self.half_lower, self.fixed_lower) {
            self.fixed_lower
        } else {
            self.half_lower
        }
    }

    /// The latest critical time that qualifies: the earlier of the two upper
    /// limits.
    pub open spec fn tc_until(self) -> Option<Double> {
        if known_at_most(self.fixed_upper, self.half_upper) {
            self.fixed_upper
        } else {
            self.half_upper
        }
    }

    /// Whether the fit is evidence of a bubble: its parameters are in range,
    /// and its error is within the limit.
    pub open spec fn qualifies(self, error_limit: Option<Double>) -> bool {
        &&& known_at_most(self.tc_from(), self.tc)
        &&& known_at_most(self.tc, self.tc_until())
        &&& known_at_most(Some(Double { bits: M_MIN }), self.m)
        &&& known_at_most(self.m, Some(Double { bits: M_MAX }))
        &&& known_at_most(Some(Double { bits: W_MIN }), self.w)
        &&& known_at_most(self.w, Some(Double { bits: W_MAX }))
        &&& known_at_most(Some(Double { bits: O_MIN }), self.oscillations)
        &&& known_at_most(Some(Double { bits: D_MIN }), self.damping)
        &&& known_at_most(self.daily_error, error_limit)
    }

    fn is_qualified(&self, error_limit: Option<Double>) -> (r: bool)
        ensures
            r == self.qualifies(error_limit),
    {
        let from: Option<Double> = if at_most(self.half_lower, self.fixed_lower) {
            self.fixed_lower
        } else {
            self.half_lower
        };
        let until: Option<Double> = if at_most(self.fixed_upper, self.half_upper) {
            self.fixed_upper
        } else {
            self.half_upper
        };
        at_most(from, self.tc) && at_most(self.tc, until) && at_most(
            Some(Double { bits: M_MIN }),
            self.m,
        ) && at_most(self.m, Some(Double { bits: M_MAX })) && at_most(
            Some(Double { bits: W_MIN }),
            self.w,
        ) && at_most(self.w, Some(Double { bits: W_MAX })) && at_most(
            Some(Double { bits: O_MIN }),
            self.oscillations,
        ) && at_most(Some(Double { bits: D_MIN }), self.damping) && at_most(
            self.daily_error,
            error_limit,
        )
    }
}

fn at_most(a: Option<Double>, b: Option<Double>) -> (r: bool)
    ensures
        r == known_at_most(a, b),
{
    match (a, b) {
        (Some(x), Some(y)) => !y.ranks_below(&x),
        _ => false,
    }
}

fn negative(a: Option<Double>) -> (r: bool)
    ensures
        r == known_negative(a),
{
    match a {
        Some(x) => x.ranks_below(&Double { bits: 0 }),
        None => false,
    }
}

fn positive(a: Option<Double>) -> (r: bool)
    ensures
        r == known_positive(a),
{
    match a {
        Some(x) => (Double { bits: 0 }).ranks_below(&x),
        None => false,
    }
}

/// A confidence, as the quotient of two counts.
#[derive(Clone, Copy, PartialEq, Eq, Structural, Debug)]
pub struct Share {
    pub part: usize,
    pub whole: usize,
}

/// The share of the windows of one sign that qualify; zero where too few do.
pub open spec fn confidence(qualified: nat, count: nat) -> Share {
    if count > 0 && qualified >= MIN_QUALIFIED {
        Share { part: qualified as usize, whole: count as usize }
    } else {
        Share { part: 0, whole: 1 }
    }
}

/// The indicator of one date.
pub struct DateIndicator {
    pub date: Option<i32>,
    pub pos_count: usize,
    pub pos_qualified: usize,
    pub neg_count: usize,
    pub neg_qualified: usize,
    pub price: Option<Double>,
    pub pos_conf: Share,
    pub neg_conf: Share,
}

/// The dates of the rows.
pub open spec fn dates_of(rows: Seq<FitRow>) -> Seq<Option<i32>> {
    Seq::new(rows.len(), |i: int| rows[i].t2_d)
}

/// How many of the listed rows have a falling coefficient (a positive bubble),
/// or a rising one, and of those how many qualify.
pub open spec fn tally(
    rows: Seq<FitRow>,
    listed: Seq<usize>,
    limit: Option<Double>,
    falling: bool,
    qualified: bool,
) -> nat
    decreases listed.len(),
{
    if listed.len() == 0 {
        0
    } else {
        let row = rows[listed.last() as int];
        let counted = (if falling {
            known_negative(row.b)
        } else {
            known_positive(row.b)
        }) && (qualified ==> row.qualifies(limit));
        tally(rows, listed.drop_last(), limit, falling, qualified) + (if counted {
            1nat
        } else {
            0nat
        })
    }
}

/// The highest price of the listed rows, gaps left out.
pub open spec fn highest_price(rows: Seq<FitRow>, listed: Seq<usize>) -> Option<Double>
    decreases listed.len(),
{
    if listed.len() == 0 {
        None
    } else {
        let before = highest_price(rows, listed.drop_last());
        match (before, rows[listed.last() as int].p2) {
            (Some(x), Some(y)) => Some(x.larger_of(y)),
            (None, y) => y,
            (x, None) => x,
        }
    }
}

/// `d` is the indicator of the rows of the date `date`.
pub open spec fn is_indicator(
    d: DateIndicator,
    rows: Seq<FitRow>,
    limit: Option<Double>,
    date: Option<i32>,
) -> bool {
    let listed = crate::groups::rows_with(dates_of(rows), date);
    &&& d.date == date
    &&& d.pos_count == tally(rows, listed, limit, true, false)
    &&& d.pos_qualified == tally(rows, listed, limit, true, true)
    &&& d.neg_count == tally(rows, listed, limit, false, false)
    &&& d.neg_qualified == tally(rows, listed, limit, false, true)
    &&& d.price == highest_price(rows, listed)
    &&& d.pos_conf == confidence(d.pos_qualified as nat, d.pos_count as nat)
    &&& d.neg_conf == confidence(d.neg_qualified as nat, d.neg_count as nat)
}

fn share(qualified: usize, count: usize) -> (r: Share)
    ensures
        r == confidence(qualified as nat, count as nat),
{
    if count > 0 && qualified >= MIN_QUALIFIED {
        Share { part: qualified, whole: count }
    } else {
        Share { part: 0, whole: 1 }
    }
}

fn indicator_of(
    rows: &Vec<FitRow>,
    listed: &Vec<usize>,
    limit: Option<Double>,
    date: Option<i32>,
) -> (d: DateIndicator)
    requires
        listed@ == crate::groups::rows_with(dates_of(rows@), date),
        forall|k: int| 0 <= k < listed@.len() ==> #[trigger] listed@[k] < rows@.len(),
    ensures
        is_indicator(d, rows@, limit, date),
{
    let mut pos_count: usize = 0;
    let mut pos_qualified: usize = 0;
    let mut neg_count: usize = 0;
    let mut neg_qualified: usize = 0;
    let mut price: Option<Double> = None;
    let mut i: usize = 0;
    while i < listed.len()
        invariant
            forall|k: int| 0 <= k < listed@.len() ==> #[trigger] listed@[k] < rows@.len(),
            i <= listed@.len(),
            pos_count == tally(rows@, listed@.take(i as int), limit, true, false),
            pos_qualified == tally(rows@, listed@.take(i as int), limit, true, true),
            neg_count == tally(rows@, listed@.take(i as int), limit, false, false),
            neg_qualified == tally(rows@, listed@.take(i as int), limit, false, true),
            price == highest_price(rows@, listed@.take(i as int)),
            pos_count <= i,
            pos_qualified <= i,
            neg_count <= i,
            neg_qualified <= i,
        decreases listed@.len() - i,
    {
        proof {
            assert(listed@.take(i + 1).drop_last() =~= listed@.take(i as int));
        }
        let row: &FitRow = &rows[listed[i]];
        let good = row.is_qualified(limit);
        if negative(row.b) {
            pos_count += 1;
            if good {
                pos_qualified += 1;
            }
        }
        if positive(row.b) {
            neg_count += 1;
            if good {
                neg_qualified += 1;
            }
        }
        price = match (price, row.p2) {
            (Some(x), Some(y)) => Some(x.larger(&y)),
            (None, y) => y,
            (x, None) => x,
        };
        i += 1;
    }
    proof {
        assert(listed@.take(listed@.len() as int) =~= listed@);
    }
    DateIndicator {
        date,
        pos_count,
        pos_qualified,
        neg_count,
        neg_qualified,
        price,
        pos_conf: share(pos_qualified, pos_count),
        neg_conf: share(neg_qualified, neg_count),
    }
}

/// The confidence indicator of each date of the fits, in the order in which
/// the dates first occur. `error_limit` is the error up to which a fit of this
/// ticker is good enough: a quantile of the errors of all its fits, since
/// absolute errors do not compare between assets.
pub fn compute_indicators(rows: &Vec<FitRow>, error_limit: Option<Double>) -> (out: Vec<
    DateIndicator,
>)
    ensures
        out@.len() == crate::groups::distinct(dates_of(rows@)).len(),
        forall|g: int|
            0 <= g < out@.len() ==> is_indicator(
                #[trigger] out@[g],
                rows@,
                error_limit,
                crate::groups::distinct(dates_of(rows@))[g],
            ),
        forall|i: int|
            0 <= i < rows@.len() ==> exists|g: int|
                0 <= g < out@.len() && (#[trigger] out@[g]).date == (#[trigger] rows@[i]).t2_d,
        forall|g: int, h: int|
            0 <= g < h < out@.len() ==> (#[trigger] out@[g]).date != (#[trigger] out@[h]).date,
        forall|g: int|
            0 <= g < out@.len() && (#[trigger] out@[g]).pos_qualified >= 2 ==> out@[g].pos_conf.part
                == out@[g].pos_qualified && out@[g].pos_conf.whole == out@[g].pos_count,
        forall|g: int|
            0 <= g < out@.len() && (#[trigger] out@[g]).neg_qualified >= 2 ==> out@[g].neg_conf.part
                == out@[g].neg_qualified && out@[g].neg_conf.whole == out@[g].neg_count,
{
    let mut dates: Vec<Option<i32>> = Vec::new();
    let mut i: usize = 0;
    while i < rows.len()
        invariant
            i <= rows@.len(),
            dates@.len() == i,
            forall|k: int| 0 <= k < i ==> #[trigger] dates@[k] == rows@[k].t2_d,
        decreases rows@.len() - i,
    {
        dates.push(rows[i].t2_d);
        i += 1;
    }
    let ghost column = dates_of(rows@);
    proof {
        assert(crate::groups::values(dates@) =~= column);
    }
    let groups = group_rows(&dates);
    let ghost all = crate::groups::distinct(column);
    let mut out: Vec<DateIndicator> = Vec::new();
    let mut g: usize = 0;
    while g < groups.len()
        invariant
            column == dates_of(rows@),
            rows@.len() <= usize::MAX,
            dates@ =~= column,
            all == crate::groups::distinct(column),
            groups@.len() == all.len(),
            forall|h: int|
                0 <= h < groups@.len() ==> (#[trigger] groups@[h])@ == crate::groups::rows_with(
                    column,
                    all[h],
                ),
            g <= groups@.len(),
            out@.len() == g,
            forall|h: int|
                0 <= h < g ==> is_indicator(#[trigger] out@[h], rows@, error_limit, all[h]),
        decreases groups@.len() - g,
    {
        proof {
            crate::groups::law_rows_with(column, all[g as int]);
            crate::groups::law_distinct(column);
            assert(all.contains(all[g as int]));
            let i = choose|i: int| 0 <= i < column.len() && column[i] == all[g as int];
            assert(crate::groups::rows_with(column, all[g as int]).contains(i as usize));
        }
        let listed: &Vec<usize> = &groups[g];
        let date: Option<i32> = dates[listed[0]];
        proof {
            assert(column[listed@[0] as int] == all[g as int]);
        }
        out.push(indicator_of(rows, listed, error_limit, date));
        g += 1;
    }
    proof {
        crate::groups::law_distinct(column);
        assert forall|i: int| 0 <= i < rows@.len() implies exists|g: int|
            0 <= g < out@.len() && (#[trigger] out@[g]).date == (#[trigger] rows@[i]).t2_d by {
            assert(column.contains(column[i]));
            assert(all.contains(column[i]));
            let g = choose|g: int| 0 <= g < all.len() && all[g] == column[i];
            assert(is_indicator(out@[g], rows@, error_limit, all[g]));
        }
        assert forall|g: int, h: int| 0 <= g < h < out@.len() implies (#[trigger] out@[g]).date != (
        #[trigger] out@[h]).date by {
            assert(is_indicator(out@[g], rows@, error_limit, all[g]));
            assert(is_indicator(out@[h], rows@, error_limit, all[h]));
        }
        assert forall|g: int| 0 <= g < out@.len() implies is_indicator(
            #[trigger] out@[g],
            rows@,
            error_limit,
            all[g],
        ) by {}
        assert forall|g: int|
            0 <= g < out@.len() && (#[trigger] out@[g]).pos_qualified >= 2 implies out@[g].pos_conf.part
            == out@[g].pos_qualified && out@[g].pos_conf.whole == out@[g].pos_count by {
            law_confidence_is_the_share(out@[g], rows@, error_limit, all[g]);
        }
        assert forall|g: int|
            0 <= g < out@.len() && (#[trigger] out@[g]).neg_qualified >= 2 implies out@[g].neg_conf.part
            == out@[g].neg_qualified && out@[g].neg_conf.whole == out@[g].neg_count by {
            law_confidence_is_the_share(out@[g], rows@, error_limit, all[g]);
        }
    }
    out
}

proof fn lemma_tally(
    rows: Seq<FitRow>,
    listed: Seq<usize>,
    limit: Option<Double>,
    falling: bool,
)
    ensures
        tally(rows, listed, limit, falling, true) <= tally(rows, listed, limit, falling, false)
            <= listed.len(),
    decreases listed.len(),
{
    if listed.len() > 0 {
        lemma_tally(rows, listed.drop_last(), limit, falling);
    }
}

/// A confidence lies between zero and one, and is above zero only where at
/// least `MIN_QUALIFIED` windows of its sign qualify.
pub proof fn law_confidence_is_a_share(
    d: DateIndicator,
    rows: Seq<FitRow>,
    limit: Option<Double>,
    date: Option<i32>,
)
    requires
        is_indicator(d, rows, limit, date),
    ensures
        d.pos_conf.part <= d.pos_conf.whole,
        d.pos_conf.whole > 0,
        d.pos_conf.part > 0 ==> d.pos_qualified >= MIN_QUALIFIED,
        d.pos_qualified <= d.pos_count,
        d.neg_conf.part <= d.neg_conf.whole,
        d.neg_conf.whole > 0,
        d.neg_conf.part > 0 ==> d.neg_qualified >= MIN_QUALIFIED,
        d.neg_qualified <= d.neg_count,
{
    let listed = crate::groups::rows_with(dates_of(rows), date);
    lemma_tally(rows, listed, limit, true);
    lemma_tally(rows, listed, limit, false);
}

/// A window counts for a positive bubble or for a negative one, never for both.
pub proof fn law_a_window_has_one_sign(row: FitRow)
    ensures
        !(known_negative(row.b) && known_positive(row.b)),
{
}

/// A fit that qualifies under a limit qualifies under every higher one.
pub proof fn law_higher_limit_keeps_fits(row: FitRow, low: Double, high: Double)
    requires
        low.rank() <= high.rank(),
        row.qualifies(Some(low)),
    ensures
        row.qualifies(Some(high)),
{
}

/// The fits of the two rows are the same but for their errors.
pub open spec fn same_but_error(a: FitRow, b: FitRow) -> bool {
    b == (FitRow { daily_error: b.daily_error, ..a })
}

/// The limit on the errors is relative: fits that differ only in their errors
/// have the same indicators where each error stands to its own limit as the
/// other does.
pub proof fn law_error_limit_is_relative(
    rows: Seq<FitRow>,
    other: Seq<FitRow>,
    limit: Option<Double>,
    other_limit: Option<Double>,
    date: Option<i32>,
    d: DateIndicator,
)
    requires
        rows.len() == other.len() <= usize::MAX,
        forall|i: int|
            0 <= i < rows.len() ==> same_but_error(#[trigger] rows[i], other[i]) && known_at_most(
                rows[i].daily_error,
                limit,
            ) == known_at_most(other[i].daily_error, other_limit),
    ensures
        dates_of(rows) == dates_of(other),
        is_indicator(d, rows, limit, date) <==> is_indicator(d, other, other_limit, date),
{
    assert forall|i: int| 0 <= i < rows.len() implies dates_of(rows)[i] == dates_of(other)[i] by {
        assert(same_but_error(rows[i], other[i]));
    }
    assert(dates_of(rows) =~= dates_of(other));
    let listed = crate::groups::rows_with(dates_of(rows), date);
    crate::groups::law_rows_with(dates_of(rows), date);
    lemma_alike(rows, other, listed, limit, other_limit);
}

proof fn lemma_alike(
    rows: Seq<FitRow>,
    other: Seq<FitRow>,
    listed: Seq<usize>,
    limit: Option<Double>,
    other_limit: Option<Double>,
)
    requires
        rows.len() == other.len(),
        forall|k: int| 0 <= k < listed.len() ==> #[trigger] listed[k] < rows.len(),
        forall|i: int|
            0 <= i < rows.len() ==> same_but_error(#[trigger] rows[i], other[i]) && known_at_most(
                rows[i].daily_error,
                limit,
            ) == known_at_most(other[i].daily_error, other_limit),
    ensures
        forall|falling: bool, qualified: bool|
            #[trigger] tally(rows, listed, limit, falling, qualified) == tally(
                other,
                listed,
                other_limit,
                falling,
                qualified,
            ),
        highest_price(rows, listed) == highest_price(other, listed),
    decreases listed.len(),
{
    if listed.len() > 0 {
        lemma_alike(rows, other, listed.drop_last(), limit, other_limit);
        let i = listed[listed.len() - 1] as int;
        assert(same_but_error(rows[i], other[i]));
        assert(rows[i].qualifies(limit) == other[i].qualifies(other_limit));
        assert forall|falling: bool, qualified: bool|
            #[trigger] tally(rows, listed, limit, falling, qualified) == tally(
                other,
                listed,
                other_limit,
                falling,
                qualified,
            ) by {
            assert(tally(rows, listed.drop_last(), limit, falling, qualified) == tally(
                other,
                listed.drop_last(),
                other_limit,
                falling,
                qualified,
            ));
        }
    }
}

/// Scaling every error and the limit alike changes no indicator.
pub proof fn law_scaled_errors_keep_indicators(
    rows: Seq<FitRow>,
    other: Seq<FitRow>,
    limit: Double,
    other_limit: Double,
    e: int,
    date: Option<i32>,
    d: DateIndicator,
)
    requires
        rows.len() == other.len() <= usize::MAX,
        limit.scales_to(other_limit, e),
        forall|i: int|
            0 <= i < rows.len() ==> same_but_error(#[trigger] rows[i], other[i]) && match (
                rows[i].daily_error,
                other[i].daily_error,
            ) {
                (Some(a), Some(b)) => a.scales_to(b, e),
                (None, None) => true,
                _ => false,
            },
    ensures
        dates_of(rows) == dates_of(other),
        is_indicator(d, rows, Some(limit), date) <==> is_indicator(
            d,
            other,
            Some(other_limit),
            date,
        ),
{
    assert forall|i: int| 0 <= i < rows.len() implies same_but_error(#[trigger] rows[i], other[i])
        && known_at_most(rows[i].daily_error, Some(limit)) == known_at_most(
        other[i].daily_error,
        Some(other_limit),
    ) by {
        if let (Some(a), Some(b)) = (rows[i].daily_error, other[i].daily_error) {
            crate::double::law_scaling_keeps_order(a, limit, b, other_limit, e);
        }
    }
    law_error_limit_is_relative(rows, other, Some(limit), Some(other_limit), date, d);
}

/// A confidence is the share of its windows that qualify wherever at least two
/// do, however few they are among the windows of their sign, and zero elsewhere.
pub proof fn law_confidence_is_the_share(
    d: DateIndicator,
    rows: Seq<FitRow>,
    limit: Option<Double>,
    date: Option<i32>,
)
    requires
        is_indicator(d, rows, limit, date),
    ensures
        d.date == date,
        d.pos_qualified >= 2 ==> d.pos_conf.part == d.pos_qualified && d.pos_conf.whole
            == d.pos_count,
        d.pos_qualified < 2 ==> d.pos_conf.part == 0 && d.pos_conf.whole > 0,
        d.neg_qualified >= 2 ==> d.neg_conf.part == d.neg_qualified && d.neg_conf.whole
            == d.neg_count,
        d.neg_qualified < 2 ==> d.neg_conf.part == 0 && d.neg_conf.whole > 0,
{
    law_confidence_is_a_share(d, rows, limit, date);
}

/// A fit whose columns are all there and numbers qualifies exactly where its
/// critical time is within both limits on either side, its exponent, its
/// angular frequency, its oscillations and its damping are in their ranges, and
/// its error is at most the limit.
pub proof fn law_qualification(row: FitRow, limit: Double)
    requires
        row.tc matches Some(x) && !x.nan(),
        row.m matches Some(x) && !x.nan(),
        row.w matches Some(x) && !x.nan(),
        row.oscillations matches Some(x) && !x.nan(),
        row.damping matches Some(x) && !x.nan(),
        row.fixed_lower matches Some(x) && !x.nan(),
        row.half_lower matches Some(x) && !x.nan(),
        row.fixed_upper matches Some(x) && !x.nan(),
        row.half_upper matches Some(x) && !x.nan(),
        row.daily_error matches Some(x) && !x.nan(),
        !limit.nan(),
    ensures
        row.qualifies(Some(limit)) <==> {
            &&& row.fixed_lower.unwrap().at_most(row.tc.unwrap())
            &&& row.half_lower.unwrap().at_most(row.tc.unwrap())
            &&& row.tc.unwrap().at_most(row.fixed_upper.unwrap())
            &&& row.tc.unwrap().at_most(row.half_upper.unwrap())
            &&& (Double { bits: M_MIN }).at_most(row.m.unwrap())
            &&& row.m.unwrap().at_most(Double { bits: M_MAX })
            &&& (Double { bits: W_MIN }).at_most(row.w.unwrap())
            &&& row.w.unwrap().at_most(Double { bits: W_MAX })
            &&& (Double { bits: O_MIN }).at_most(row.oscillations.unwrap())
            &&& (Double { bits: D_MIN }).at_most(row.damping.unwrap())
            &&& row.daily_error.unwrap().at_most(limit)
        },
{
}

/// A fit with a gap in a column that its qualification reads does not qualify,
/// nor does any fit where there is no limit. Of the limits on the critical time
/// only the fixed ones may be missing.
pub proof fn law_gaps_do_not_qualify(row: FitRow, limit: Option<Double>)
    requires
        row.tc is None || row.m is None || row.w is None || row.oscillations is None || row.damping
            is None || row.half_lower is None || row.half_upper is None || row.daily_error is None
            || limit is None,
    ensures
        !row.qualifies(limit),
{
}

/// Of the rows of a list, those that are of a date, count for a sign and where
/// asked for qualify.
pub open spec fn evidence(
    rows: Seq<FitRow>,
    limit: Option<Double>,
    date: Option<i32>,
    falling: bool,
    qualified: bool,
) -> Seq<FitRow> {
    rows.filter(
        |r: FitRow|
            {
                &&& r.t2_d == date
                &&& r.b matches Some(b) && (if falling {
                    b.below(Double { bits: 0 })
                } else {
                    b.nan() || (Double { bits: 0 }).below(b)
                })
                &&& qualified ==> r.qualifies(limit)
            },
    )
}

proof fn lemma_evidence(
    rows: Seq<FitRow>,
    limit: Option<Double>,
    date: Option<i32>,
    falling: bool,
    qualified: bool,
)
    requires
        rows.len() <= usize::MAX,
    ensures
        tally(rows, crate::groups::rows_with(dates_of(rows), date), limit, falling, qualified)
            == evidence(rows, limit, date, falling, qualified).len(),
    decreases rows.len(),
{
    reveal(Seq::filter);
    if rows.len() > 0 {
        let rest = rows.drop_last();
        lemma_evidence(rest, limit, date, falling, qualified);
        assert(dates_of(rows).drop_last() =~= dates_of(rest));
        let before = crate::groups::rows_with(dates_of(rest), date);
        crate::groups::law_rows_with(dates_of(rest), date);
        lemma_tally_of_rest(rest, rows, before, limit, falling, qualified);
        let listed = crate::groups::rows_with(dates_of(rows), date);
        if rows.last().t2_d == date {
            assert(listed.drop_last() =~= before);
            assert(listed.last() == (rows.len() - 1) as usize);
        }
    }
}

proof fn lemma_tally_of_rest(
    rest: Seq<FitRow>,
    rows: Seq<FitRow>,
    listed: Seq<usize>,
    limit: Option<Double>,
    falling: bool,
    qualified: bool,
)
    requires
        rows.len() == rest.len() + 1,
        rest == rows.drop_last(),
        forall|k: int| 0 <= k < listed.len() ==> #[trigger] listed[k] < rest.len(),
    ensures
        tally(rest, listed, limit, falling, qualified) == tally(
            rows,
            listed,
            limit,
            falling,
            qualified,
        ),
        highest_price(rest, listed) == highest_price(rows, listed),
    decreases listed.len(),
{
    if listed.len() > 0 {
        lemma_tally_of_rest(rest, rows, listed.drop_last(), limit, falling, qualified);
        assert(listed[listed.len() - 1] < rest.len());
    }
}

/// The counts of a date are those of its rows: the windows whose coefficient is
/// below zero are evidence of a positive bubble, those with one above zero of a
/// negative one, and what is not a number counts as above zero.
pub proof fn law_counts_are_of_the_rows(
    d: DateIndicator,
    rows: Seq<FitRow>,
    limit: Option<Double>,
    date: Option<i32>,
)
    requires
        rows.len() <= usize::MAX,
        is_indicator(d, rows, limit, date),
    ensures
        d.pos_count == evidence(rows, limit, date, true, false).len(),
        d.pos_qualified == evidence(rows, limit, date, true, true).len(),
        d.neg_count == evidence(rows, limit, date, false, false).len(),
        d.neg_qualified == evidence(rows, limit, date, false, true).len(),
{
    lemma_evidence(rows, limit, date, true, false);
    lemma_evidence(rows, limit, date, true, true);
    lemma_evidence(rows, limit, date, false, false);
    lemma_evidence(rows, limit, date, false, true);
}

proof fn lemma_highest(rows: Seq<FitRow>, listed: Seq<usize>)
    requires
        forall|k: int| 0 <= k < listed.len() ==> #[trigger] listed[k] < rows.len(),
    ensures
        highest_price(rows, listed) is None ==> forall|k: int|
            0 <= k < listed.len() ==> rows[(#[trigger] listed[k]) as int].p2 is None,
        highest_price(rows, listed) matches Some(h) ==> {
            &&& exists|k: int|
                0 <= k < listed.len() && rows[(#[trigger] listed[k]) as int].p2 == Some(h)
            &&& forall|k: int|
                0 <= k < listed.len() ==> (rows[(#[trigger] listed[k]) as int].p2 matches Some(p)
                    ==> p.nan() || p.at_most(h))
        },
    decreases listed.len(),
{
    if listed.len() > 0 {
        let rest = listed.drop_last();
        lemma_highest(rows, rest);
        let last = rows[listed[listed.len() - 1] as int].p2;
        let h = highest_price(rows, listed);
        assert forall|k: int| 0 <= k < rest.len() implies rest[k] == #[trigger] listed[k] by {}
        if h is Some {
            if highest_price(rows, rest) == h && h != last {
                let k = choose|k: int|
                    0 <= k < rest.len() && rows[(#[trigger] rest[k]) as int].p2 == h;
                assert(rows[listed[k] as int].p2 == h);
            } else {
                assert(rows[listed[listed.len() - 1] as int].p2 == h);
            }
        }
    }
}

/// The price of a date is the highest of its rows: one of them has it, and none
/// of those that are numbers is higher. It is missing where no row has a price.
pub proof fn law_price_is_the_highest(
    d: DateIndicator,
    rows: Seq<FitRow>,
    limit: Option<Double>,
    date: Option<i32>,
)
    requires
        rows.len() <= usize::MAX,
        is_indicator(d, rows, limit, date),
    ensures
        d.price matches Some(h) ==> exists|i: int|
            0 <= i < rows.len() && (#[trigger] rows[i]).t2_d == date && rows[i].p2 == Some(h),
        forall|i: int|
            0 <= i < rows.len() && (#[trigger] rows[i]).t2_d == date ==> (rows[i].p2 matches Some(
                p,
            ) ==> d.price matches Some(h) && (p.nan() || p.at_most(h))),
{
    let listed = crate::groups::rows_with(dates_of(rows), date);
    crate::groups::law_rows_with(dates_of(rows), date);
    lemma_highest(rows, listed);
    if let Some(h) = d.price {
        let k = choose|k: int|
            0 <= k < listed.len() && rows[(#[trigger] listed[k]) as int].p2 == Some(h);
        assert(dates_of(rows)[listed[k] as int] == date);
        assert(rows[listed[k] as int].t2_d == date);
    }
    assert forall|i: int|
        0 <= i < rows.len() && (#[trigger] rows[i]).t2_d == date implies (rows[i].p2 matches Some(p)
        ==> d.price matches Some(h) && (p.nan() || p.at_most(h))) by {
        assert(dates_of(rows)[i] == date);
        assert(listed.contains(i as usize));
        let k = choose|k: int| 0 <= k < listed.len() && listed[k] == i as usize;
        assert(rows[listed[k] as int] == rows[i]);
    }
}

} // verus!

//! Signals: where a strategy buys and sells.
use crate::double::Double;
use vstd::prelude::*;

verus! {

/// The signals of a strategy, one entry for each bar: `buy` is 1 at a buy,
/// `sell` is -1 at a sell, both are 0 elsewhere. The confidences are those that
/// the bar's signal was taken from, in double precision; they are rounded to
/// single precision where a report is saved.
#[derive(Debug)]
pub struct BuySell {
    pub buy: Vec<i32>,
    pub sell: Vec<i32>,
    pub pos_conf: Vec<Double>,
    pub neg_conf: Vec<Double>,
}

/// The bar whose confidences decide the signal of bar `k`: the bar before it,
/// or for the final bar that bar itself.
pub open spec fn deciding_bar(k: int, len: int) -> int {
    if k == len - 1 {
        k
    } else {
        k - 1
    }
}

/// Whether bar `k` sells: a positive bubble has more confidence than the level.
pub open spec fn sells_at(pos: Seq<Double>, pos_level: Double, k: int) -> bool {
    k >= 2 && pos_level.below(pos[deciding_bar(k, pos.len() as int)])
}

/// Whether bar `k` buys: it does not sell, and a negative bubble has more
/// confidence than the level.
pub open spec fn buys_at(
    pos: Seq<Double>,
    neg: Seq<Double>,
    pos_level: Double,
    neg_level: Double,
    k: int,
) -> bool {
    &&& k >= 2
    &&& !sells_at(pos, pos_level, k)
    &&& neg_level.below(neg[deciding_bar(k, neg.len() as int)])
}

/// The confidence that bar `k` carries; the first two bars carry zero.
pub open spec fn carried(conf: Seq<Double>, k: int) -> Double {
    if k >= 2 {
        conf[deciding_bar(k, conf.len() as int)]
    } else {
        Double { bits: 0 }
    }
}

/// The signals of the confidence strategy.
pub open spec fn follows_confidence(
    side: BuySell,
    pos: Seq<Double>,
    neg: Seq<Double>,
    pos_level: Double,
    neg_level: Double,
) -> bool {
    &&& side.buy@ =~= Seq::new(
        pos.len(),
        |k: int|
            if buys_at(pos, neg, pos_level, neg_level, k) {
                1i32
            } else {
                0i32
            },
    )
    &&& side.sell@ =~= Seq::new(
        pos.len(),
        |k: int|
            if sells_at(pos, pos_level, k) {
                -1i32
            } else {
                0i32
            },
    )
    &&& side.pos_conf@ =~= Seq::new(pos.len(), |k: int| carried(pos, k))
    &&& side.neg_conf@ =~= Seq::new(pos.len(), |k: int| carried(neg, k))
}

/// The signals of the confidence strategy over the columns `pos` and `neg`:
/// sell where a positive bubble is more certain than `pos_level`, else buy
/// where a negative one is more certain than `neg_level`.
pub fn signal_fun(
    pos: &Vec<Double>,
    neg: &Vec<Double>,
    pos_level: Double,
    neg_level: Double,
) -> (side: BuySell)
    requires
        pos@.len() >= 1,
        neg@.len() == pos@.len(),
    ensures
        follows_confidence(side, pos@, neg@, pos_level, neg_level),
{
    let len: usize = pos.len();
    let mut buy: Vec<i32> = Vec::new();
    let mut sell: Vec<i32> = Vec::new();
    let mut pos_conf: Vec<Double> = Vec::new();
    let mut neg_conf: Vec<Double> = Vec::new();
    let mut k: usize = 0;
    while k < len
        invariant
            len == pos@.len() == neg@.len(),
            k <= len,
            buy@.len() == k,
            sell@.len() == k,
            pos_conf@.len() == k,
            neg_conf@.len() == k,
            forall|j: int|
                0 <= j < k ==> #[trigger] buy@[j] == (if buys_at(
                    pos@,
                    neg@,
                    pos_level,
                    neg_level,
                    j,
                ) {
                    1i32
                } else {
                    0i32
                }),
            forall|j: int|
                0 <= j < k ==> #[trigger] sell@[j] == (if sells_at(pos@, pos_level, j) {
                    -1i32
                } else {
                    0i32
                }),
            forall|j: int| 0 <= j < k ==> #[trigger] pos_conf@[j] == carried(pos@, j),
            forall|j: int| 0 <= j < k ==> #[trigger] neg_conf@[j] == carried(neg@, j),
        decreases len - k,
    {
        if k < 2 {
            buy.push(0);
            sell.push(0);
            pos_conf.push(Double { bits: 0 });
            neg_conf.push(Double { bits: 0 });
        } else {
            let bar: usize = if k == len - 1 {
                k
            } else {
                k - 1
            };
            let sells = pos[bar].gt(&pos_level);
            let buys = !sells && neg[bar].gt(&neg_level);
            buy.push(
                if buys {
                    1
                } else {
                    0
                },
            );
            sell.push(
                if sells {
                    -1
                } else {
                    0
                },
            );
            pos_conf.push(pos[bar]);
            neg_conf.push(neg[bar]);
        }
        k += 1;
    }
    BuySell { buy, sell, pos_conf, neg_conf }
}

/// Whether the residual has been at or below `-tau` on the `days` bars that end
/// with `bar`.
pub open spec fn low_for(eps: Seq<Double>, tau: Double, days: int, bar: int) -> bool {
    bar - days >= -1 && forall|j: int|
        bar - days < j <= bar ==> (#[trigger] eps[j]).at_most(tau.negated())
}

/// Whether the residual has been at or above `tau` on the `days` bars that end
/// with `bar`.
pub open spec fn high_for(eps: Seq<Double>, tau: Double, days: int, bar: int) -> bool {
    bar - days >= -1 && forall|j: int|
        bar - days < j <= bar ==> tau.at_most(#[trigger] eps[j])
}

/// Whether bar `k` of the residual strategy sells.
pub open spec fn residual_sells_at(eps: Seq<Double>, tau: Double, days: int, k: int) -> bool {
    k >= 2 && high_for(eps, tau, days, deciding_bar(k, eps.len() as int))
}

/// Whether bar `k` of the residual strategy buys.
pub open spec fn residual_buys_at(eps: Seq<Double>, tau: Double, days: int, k: int) -> bool {
    k >= 2 && !residual_sells_at(eps, tau, days, k) && low_for(
        eps,
        tau,
        days,
        deciding_bar(k, eps.len() as int),
    )
}

/// The signals of the residual strategy; its bars carry no confidence.
pub open spec fn follows_residual(side: BuySell, eps: Seq<Double>, tau: Double, days: int) -> bool {
    &&& side.buy@ =~= Seq::new(
        eps.len(),
        |k: int|
            if residual_buys_at(eps, tau, days, k) {
                1i32
            } else {
                0i32
            },
    )
    &&& side.sell@ =~= Seq::new(
        eps.len(),
        |k: int|
            if residual_sells_at(eps, tau, days, k) {
                -1i32
            } else {
                0i32
            },
    )
    &&& side.pos_conf@ =~= Seq::new(eps.len(), |k: int| (Double { bits: 0 }))
    &&& side.neg_conf@ =~= Seq::new(eps.len(), |k: int| (Double { bits: 0 }))
}

fn sustained(eps: &Vec<Double>, tau: Double, days: usize, bar: usize, high: bool) -> (r: bool)
    requires
        bar < eps@.len(),
    ensures
        r == (if high {
            high_for(eps@, tau, days as int, bar as int)
        } else {
            low_for(eps@, tau, days as int, bar as int)
        }),
{
    if days > 0 && days - 1 > bar {
        return false;
    }
    let low_level = tau.neg();
    let mut seen: usize = 0;
    while seen < days
        invariant
            bar < eps@.len(),
            seen <= days <= bar + 1,
            low_level == tau.negated(),
            forall|j: int|
                bar - seen < j <= bar ==> if high {
                    tau.at_most(#[trigger] eps@[j])
                } else {
                    eps@[j].at_most(tau.negated())
                },
        decreases days - seen,
    {
        let at: usize = bar - seen;
        let met = if high {
            eps[at].ge(&tau)
        } else {
            eps[at].le(&low_level)
        };
        if !met {
            return false;
        }
        seen += 1;
    }
    true
}

/// The signals of the residual strategy over the column `eps` of normalized
/// residuals: buy where it has been at or below `-tau` for `days` bars, sell
/// where it has been at or above `tau` for as long. Signals stand at the bar
/// after the one that decides them, as those of the confidence strategy do.
pub fn res_signal_fun(eps: &Vec<Double>, tau: Double, days: usize) -> (side: BuySell)
    requires
        eps@.len() >= 1,
    ensures
        follows_residual(side, eps@, tau, days as int),
{
    let len: usize = eps.len();
    let mut buy: Vec<i32> = Vec::new();
    let mut sell: Vec<i32> = Vec::new();
    let mut pos_conf: Vec<Double> = Vec::new();
    let mut neg_conf: Vec<Double> = Vec::new();
    let mut k: usize = 0;
    while k < len
        invariant
            len == eps@.len(),
            k <= len,
            buy@.len() == k,
            sell@.len() == k,
            pos_conf@.len() == k,
            neg_conf@.len() == k,
            forall|j: int|
                0 <= j < k ==> #[trigger] buy@[j] == (if residual_buys_at(
                    eps@,
                    tau,
                    days as int,
                    j,
                ) {
                    1i32
                } else {
                    0i32
                }),
            forall|j: int|
                0 <= j < k ==> #[trigger] sell@[j] == (if residual_sells_at(
                    eps@,
                    tau,
                    days as int,
                    j,
                ) {
                    -1i32
                } else {
                    0i32
                }),
            forall|j: int| 0 <= j < k ==> #[trigger] pos_conf@[j] == (Double { bits: 0 }),
            forall|j: int| 0 <= j < k ==> #[trigger] neg_conf@[j] == (Double { bits: 0 }),
        decreases len - k,
    {
        let mut buys = false;
        let mut sells = false;
        if k >= 2 {
            let bar: usize = if k == len - 1 {
                k
            } else {
                k - 1
            };
            sells = sustained(eps, tau, days, bar, true);
            if !sells {
                buys = sustained(eps, tau, days, bar, false);
            }
        }
        buy.push(
            if buys {
                1
            } else {
                0
            },
        );
        sell.push(
            if sells {
                -1
            } else {
                0
            },
        );
        pos_conf.push(Double { bits: 0 });
        neg_conf.push(Double { bits: 0 });
        k += 1;
    }
    BuySell { buy, sell, pos_conf, neg_conf }
}

/// No bar both buys and sells.
pub proof fn law_one_signal_at_a_bar(
    pos: Seq<Double>,
    neg: Seq<Double>,
    pos_level: Double,
    neg_level: Double,
    k: int,
)
    ensures
        !(buys_at(pos, neg, pos_level, neg_level, k) && sells_at(pos, pos_level, k)),
{
}

/// A signal before the final bar is known before that bar begins: neither it
/// nor the confidences it carries change with what the confidences are from
/// that bar on.
pub proof fn law_signals_do_not_look_ahead(
    pos: Seq<Double>,
    neg: Seq<Double>,
    other_pos: Seq<Double>,
    other_neg: Seq<Double>,
    pos_level: Double,
    neg_level: Double,
    k: int,
)
    requires
        neg.len() == pos.len(),
        other_pos.len() == pos.len(),
        other_neg.len() == pos.len(),
        0 <= k < pos.len() - 1,
        forall|j: int| 0 <= j < k ==> pos[j] == other_pos[j] && neg[j] == other_neg[j],
    ensures
        buys_at(pos, neg, pos_level, neg_level, k) == buys_at(
            other_pos,
            other_neg,
            pos_level,
            neg_level,
            k,
        ),
        sells_at(pos, pos_level, k) == sells_at(other_pos, pos_level, k),
        carried(pos, k) == carried(other_pos, k),
        carried(neg, k) == carried(other_neg, k),
{
}

/// Raising the level of the positive confidence never adds a sell.
pub proof fn law_higher_levels_sell_less(pos: Seq<Double>, low: Double, high: Double, k: int)
    requires
        low.at_most(high),
    ensures
        sells_at(pos, high, k) ==> sells_at(pos, low, k),
{
}

/// Raising both levels never adds a signal: a bar without one keeps none.
pub proof fn law_higher_levels_signal_less(
    pos: Seq<Double>,
    neg: Seq<Double>,
    pos_low: Double,
    pos_high: Double,
    neg_low: Double,
    neg_high: Double,
    k: int,
)
    requires
        pos_low.at_most(pos_high),
        neg_low.at_most(neg_high),
    ensures
        buys_at(pos, neg, pos_high, neg_high, k) || sells_at(pos, pos_high, k) ==> buys_at(
            pos,
            neg,
            pos_low,
            neg_low,
            k,
        ) || sells_at(pos, pos_low, k),
{
}

/// No bar of the residual strategy both buys and sells.
pub proof fn law_one_residual_signal_at_a_bar(eps: Seq<Double>, tau: Double, days: int, k: int)
    ensures
        !(residual_buys_at(eps, tau, days, k) && residual_sells_at(eps, tau, days, k)),
{
}

/// A signal of the residual strategy before the final bar is known before that
/// bar begins.
pub proof fn law_residual_signals_do_not_look_ahead(
    eps: Seq<Double>,
    other: Seq<Double>,
    tau: Double,
    days: int,
    k: int,
)
    requires
        other.len() == eps.len(),
        0 <= k < eps.len() - 1,
        forall|j: int| 0 <= j < k ==> eps[j] == other[j],
    ensures
        residual_buys_at(eps, tau, days, k) == residual_buys_at(other, tau, days, k),
        residual_sells_at(eps, tau, days, k) == residual_sells_at(other, tau, days, k),
{
    if k >= 2 {
        lemma_sustained_alike(eps, other, tau, days, k - 1);
        lemma_sustained_alike(other, eps, tau, days, k - 1);
    }
}

proof fn lemma_sustained_alike(
    eps: Seq<Double>,
    other: Seq<Double>,
    tau: Double,
    days: int,
    bar: int,
)
    requires
        forall|j: int| 0 <= j <= bar ==> eps[j] == other[j],
    ensures
        high_for(eps, tau, days, bar) ==> high_for(other, tau, days, bar),
        low_for(eps, tau, days, bar) ==> low_for(other, tau, days, bar),
{
    if high_for(eps, tau, days, bar) {
        assert forall|j: int| bar - days < j <= bar implies tau.at_most(#[trigger] other[j]) by {
            assert(eps[j] == other[j]);
        }
    }
    if low_for(eps, tau, days, bar) {
        assert forall|j: int| bar - days < j <= bar implies (#[trigger] other[j]).at_most(
            tau.negated(),
        ) by {
            assert(eps[j] == other[j]);
        }
    }
}

/// A longer minimum duration never adds a signal.
pub proof fn law_longer_durations_signal_less(
    eps: Seq<Double>,
    tau: Double,
    short: int,
    long: int,
    k: int,
)
    requires
        0 <= short <= long,
    ensures
        residual_sells_at(eps, tau, long, k) ==> residual_sells_at(eps, tau, short, k),
        residual_buys_at(eps, tau, long, k) ==> residual_buys_at(eps, tau, short, k)
            || residual_sells_at(eps, tau, short, k),
{
}

/// What the signals of the confidence strategy are in terms of the columns. The
/// first two bars have none. A later bar is decided by the bar before it, the
/// final one by itself: it sells where the positive confidence is above its
/// level, and of the others those buy whose negative confidence is above its
/// level. Every bar carries the confidences that decided it.
pub proof fn law_signals_follow_their_levels(
    side: BuySell,
    pos: Seq<Double>,
    neg: Seq<Double>,
    pos_level: Double,
    neg_level: Double,
    k: int,
)
    requires
        neg.len() == pos.len(),
        follows_confidence(side, pos, neg, pos_level, neg_level),
        0 <= k < pos.len(),
    ensures
        side.buy@.len() == pos.len(),
        side.sell@.len() == pos.len(),
        side.pos_conf@.len() == pos.len(),
        side.neg_conf@.len() == pos.len(),
        k < 2 ==> side.buy@[k] == 0 && side.sell@[k] == 0 && side.pos_conf@[k].bits == 0
            && side.neg_conf@[k].bits == 0,
        2 <= k < pos.len() - 1 ==> {
            &&& side.sell@[k] == (if pos_level.below(pos[k - 1]) {
                -1i32
            } else {
                0
            })
            &&& side.buy@[k] == (if side.sell@[k] == 0 && neg_level.below(neg[k - 1]) {
                1i32
            } else {
                0
            })
            &&& side.pos_conf@[k] == pos[k - 1]
            &&& side.neg_conf@[k] == neg[k - 1]
        },
        2 <= k == pos.len() - 1 ==> {
            &&& side.sell@[k] == (if pos_level.below(pos[k]) {
                -1i32
            } else {
                0
            })
            &&& side.buy@[k] == (if side.sell@[k] == 0 && neg_level.below(neg[k]) {
                1i32
            } else {
                0
            })
            &&& side.pos_conf@[k] == pos[k]
            &&& side.neg_conf@[k] == neg[k]
        },
{
}

/// From the third bar on a signal stands exactly where one of the confidences
/// that the bar carries is above its level, and the positive one goes first.
pub proof fn law_carried_confidence_decides(
    side: BuySell,
    pos: Seq<Double>,
    neg: Seq<Double>,
    pos_level: Double,
    neg_level: Double,
    k: int,
)
    requires
        neg.len() == pos.len(),
        follows_confidence(side, pos, neg, pos_level, neg_level),
        2 <= k < pos.len(),
    ensures
        side.sell@[k] == -1 || side.buy@[k] == 1 <==> pos_level.below(side.pos_conf@[k])
            || neg_level.below(side.neg_conf@[k]),
        side.sell@[k] == -1 <==> pos_level.below(side.pos_conf@[k]),
{
}

/// Where two columns of positive confidences make a bar sell in neither, the
/// bar buys in both or in neither: a buy depends on the negative confidence and
/// its level alone.
pub proof fn law_buys_ignore_the_positive_confidence(
    side: BuySell,
    other: BuySell,
    pos: Seq<Double>,
    other_pos: Seq<Double>,
    neg: Seq<Double>,
    pos_level: Double,
    other_level: Double,
    neg_level: Double,
    k: int,
)
    requires
        neg.len() == pos.len() == other_pos.len(),
        follows_confidence(side, pos, neg, pos_level, neg_level),
        follows_confidence(other, other_pos, neg, other_level, neg_level),
        0 <= k < pos.len(),
        side.sell@[k] == 0,
        other.sell@[k] == 0,
    ensures
        side.buy@[k] == other.buy@[k],
{
}

/// What the signals of the residual strategy are in terms of the column. The
/// first two bars have none. A later bar looks at the last `days` bars before
/// it, the final one at the `days` bars that end with itself: it sells where
/// there are as many and all are at least `tau`, and of the others those buy
/// where there are as many and all are at most `-tau`.
pub proof fn law_residual_signals_last(
    side: BuySell,
    eps: Seq<Double>,
    tau: Double,
    days: int,
    k: int,
    end: int,
)
    requires
        follows_residual(side, eps, tau, days),
        0 <= k < eps.len(),
        0 <= days,
        end == (if k == eps.len() - 1 {
            k + 1
        } else {
            k
        }),
    ensures
        side.buy@.len() == eps.len(),
        side.sell@.len() == eps.len(),
        side.pos_conf@.len() == eps.len(),
        side.neg_conf@.len() == eps.len(),
        side.pos_conf@[k].bits == 0,
        side.neg_conf@[k].bits == 0,
        k < 2 ==> side.buy@[k] == 0 && side.sell@[k] == 0,
        k >= 2 ==> {
            &&& side.sell@[k] == -1 || side.sell@[k] == 0
            &&& side.buy@[k] == 1 || side.buy@[k] == 0
            &&& side.sell@[k] == -1 <==> days <= end && forall|j: int|
                end - days <= j < end ==> tau.at_most(#[trigger] eps[j])
            &&& side.buy@[k] == 1 <==> side.sell@[k] == 0 && days <= end && forall|j: int|
                end - days <= j < end ==> (#[trigger] eps[j]).at_most(tau.negated())
        },
{
    if k >= 2 {
        let bar = deciding_bar(k, eps.len() as int);
        assert(end == bar + 1);
        if days <= end && forall|j: int| end - days <= j < end ==> tau.at_most(#[trigger] eps[j]) {
            assert(high_for(eps, tau, days, bar));
        }
        if high_for(eps, tau, days, bar) {
            assert forall|j: int| end - days <= j < end implies tau.at_most(#[trigger] eps[j]) by {}
        }
        if days <= end && forall|j: int|
            end - days <= j < end ==> (#[trigger] eps[j]).at_most(tau.negated()) {
            assert(low_for(eps, tau, days, bar));
        }
        if low_for(eps, tau, days, bar) {
            assert forall|j: int| end - days <= j < end implies (#[trigger] eps[j]).at_most(
                tau.negated(),
            ) by {}
        }
    }
}

/// Turning the sign of every residual exchanges the buys and the sells, where
/// the level is above zero and a signal needs a day.
pub proof fn law_turned_residuals_exchange_signals(
    side: BuySell,
    turned: BuySell,
    eps: Seq<Double>,
    tau: Double,
    days: int,
    k: int,
)
    requires
        follows_residual(side, eps, tau, days),
        follows_residual(turned, eps.map_values(|x: Double| x.negated()), tau, days),
        (Double { bits: 0 }).below(tau),
        1 <= days,
        0 <= k < eps.len(),
    ensures
        turned.buy@[k] == -side.sell@[k],
        turned.sell@[k] == -side.buy@[k],
{
    let other = eps.map_values(|x: Double| x.negated());
    if k >= 2 {
        let bar = deciding_bar(k, eps.len() as int);
        if bar - days >= -1 {
            assert forall|j: int| 0 <= j < eps.len() implies tau.at_most(#[trigger] other[j])
                == eps[j].at_most(tau.negated()) && other[j].at_most(tau.negated())
                == tau.at_most(eps[j]) by {
                assert(other[j] == eps[j].negated());
            }
            if high_for(eps, tau, days, bar) {
                assert(low_for(other, tau, days, bar));
                assert(tau.at_most(eps[bar]));
                assert(!other[bar].at_most(tau.negated()) || !tau.at_most(other[bar]));
                assert(!high_for(other, tau, days, bar));
            }
            if low_for(eps, tau, days, bar) {
                assert(high_for(other, tau, days, bar));
                assert(eps[bar].at_most(tau.negated()));
                assert(!high_for(eps, tau, days, bar));
            }
            if high_for(other, tau, days, bar) {
                assert forall|j: int| bar - days < j <= bar implies (#[trigger] eps[j]).at_most(
                    tau.negated(),
                ) by {
                    assert(tau.at_most(other[j]));
                }
            }
            if low_for(other, tau, days, bar) {
                assert forall|j: int| bar - days < j <= bar implies tau.at_most(
                    #[trigger] eps[j],
                ) by {
                    assert(other[j].at_most(tau.negated()));
                }
            }
        }
    }
}

} // verus!

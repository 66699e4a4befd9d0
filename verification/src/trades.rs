//! The position-based trade simulation behind the backtests.
//!
//! - A buy signal opens a long, a sell signal opens a short.
//! - A repeated signal of the direction already held is ignored.
//! - An opposite signal closes the position at that bar's open and reverses
//!   into the new direction.
//! - A position is closed at the open once it has been held for
//!   `MAX_HOLD_BARS` bars, and one still open at the end of the data is marked
//!   to market at the final close.
//! - The signal of the final bar is ignored: it comes from same-day confidence.
use crate::double::Double;
use vstd::prelude::*;

verus! {

/// Maximum holding period of a position, in bars (about six trading months).
/// A position not closed by an opposite signal exits at the open this many
/// bars after entry.
pub const MAX_HOLD_BARS: usize = 126;

/// A position that is open.
#[derive(Clone, Copy, PartialEq, Eq, Structural, Debug)]
pub struct Position {
    pub long: bool,
    pub entry_bar: usize,
}

/// A position that was opened at the open of one bar and closed at a later one.
#[derive(Clone, Copy, PartialEq, Eq, Structural, Debug)]
pub struct Trade {
    pub long: bool,
    pub entry_bar: usize,
    pub exit_bar: usize,
    /// Closed at the close of its exit bar, not at the open.
    pub at_close: bool,
}

/// The bars and the signals that a simulation runs over.
pub struct Market {
    pub open: Seq<Option<Double>>,
    pub close: Seq<Option<Double>>,
    pub buy: Seq<i32>,
    pub sell: Seq<i32>,
}

/// What has been traded before some bar, and what is held.
pub struct Book {
    pub position: Option<Position>,
    pub trades: Seq<Trade>,
}

/// Whether a position can be entered at this price: it is there and positive.
pub open spec fn enterable(price: Option<Double>) -> bool {
    price matches Some(p) && (Double { bits: 0 }).below(p)
}

/// Whether a return can be taken at this price: it is there and finite.
pub open spec fn settles(price: Option<Double>) -> bool {
    price matches Some(p) && p.finite()
}

impl Market {
    pub open spec fn bars(self) -> int {
        self.open.len() as int
    }

    /// Every bar has its prices and its signals.
    pub open spec fn valid(self) -> bool {
        &&& self.close.len() == self.open.len()
        &&& self.buy.len() >= self.open.len()
        &&& self.sell.len() >= self.open.len()
    }

    pub open spec fn is_last(self, i: int) -> bool {
        i == self.bars() - 1
    }

    /// A buy signal that the simulation follows.
    pub open spec fn buys(self, i: int) -> bool {
        !self.is_last(i) && self.buy[i] == 1
    }

    /// A sell signal that the simulation follows.
    pub open spec fn sells(self, i: int) -> bool {
        !self.is_last(i) && self.sell[i] == -1
    }

    /// A signal against the position.
    pub open spec fn opposes(self, p: Position, i: int) -> bool {
        if p.long {
            self.sells(i)
        } else {
            self.buys(i)
        }
    }

    /// Whether the position leaves the book at bar `i`.
    pub open spec fn closes(self, p: Position, i: int) -> bool {
        self.opposes(p, i) || i - p.entry_bar >= MAX_HOLD_BARS || self.is_last(i)
    }

    /// The price at which positions are closed at bar `i`.
    pub open spec fn exit_price(self, i: int) -> Option<Double> {
        if self.is_last(i) {
            self.close[i]
        } else {
            self.open[i]
        }
    }

    pub open spec fn trade(self, p: Position, i: int) -> Trade {
        Trade {
            long: p.long,
            entry_bar: p.entry_bar,
            exit_bar: i as usize,
            at_close: self.is_last(i),
        }
    }

    /// The book once bar `i` has closed what it closes.
    pub open spec fn closed(self, b: Book, i: int) -> Book {
        match b.position {
            Some(p) => if self.closes(p, i) {
                Book {
                    position: None,
                    trades: if settles(self.exit_price(i)) {
                        b.trades.push(self.trade(p, i))
                    } else {
                        b.trades
                    },
                }
            } else {
                b
            },
            None => b,
        }
    }

    /// The book once bar `i` has opened what it opens.
    pub open spec fn opened(self, b: Book, i: int) -> Book {
        if b.position is None && (self.buys(i) || self.sells(i)) && enterable(self.open[i]) {
            Book {
                position: Some(Position { long: self.buys(i), entry_bar: i as usize }),
                trades: b.trades,
            }
        } else {
            b
        }
    }

    /// The book after the first `i` bars.
    pub open spec fn book(self, i: nat) -> Book
        decreases i,
    {
        if i == 0 {
            Book { position: None, trades: Seq::empty() }
        } else {
            let before = self.book((i - 1) as nat);
            self.opened(self.closed(before, i - 1), i - 1)
        }
    }

    /// The trades of the whole run.
    pub open spec fn trades(self) -> Seq<Trade> {
        self.book(self.open.len()).trades
    }

    /// A position held before bar `i`: entered on a signal of its direction at
    /// a positive open, not opposed since, and within the holding period.
    pub open spec fn held(self, p: Position, i: int) -> bool {
        &&& p.entry_bar < i
        &&& p.entry_bar < self.bars() - 1
        &&& i - 1 - p.entry_bar < MAX_HOLD_BARS
        &&& (p.long ==> self.buys(p.entry_bar as int))
        &&& (!p.long ==> self.sells(p.entry_bar as int) && !self.buys(p.entry_bar as int))
        &&& enterable(self.open[p.entry_bar as int])
        &&& forall|j: int| p.entry_bar < j < i ==> !#[trigger] self.opposes(p, j)
    }

    /// A trade that the rules allow.
    pub open spec fn sound(self, t: Trade) -> bool {
        let p = Position { long: t.long, entry_bar: t.entry_bar };
        &&& t.exit_bar < self.bars()
        &&& self.held(p, t.exit_bar as int)
        &&& self.closes(p, t.exit_bar as int)
        &&& settles(self.exit_price(t.exit_bar as int))
        &&& (t.at_close <==> self.is_last(t.exit_bar as int))
    }
}

/// The trades that following the signals makes.
pub fn simulate_trades(
    open: &Vec<Option<Double>>,
    close: &Vec<Option<Double>>,
    buy: &Vec<i32>,
    sell: &Vec<i32>,
) -> (trades: Vec<Trade>)
    requires
        (Market { open: open@, close: close@, buy: buy@, sell: sell@ }).valid(),
    ensures
        trades@ == (Market { open: open@, close: close@, buy: buy@, sell: sell@ }).trades(),
{
    let ghost m = Market { open: open@, close: close@, buy: buy@, sell: sell@ };
    let len: usize = open.len();
    let mut trades: Vec<Trade> = Vec::new();
    let mut position: Option<Position> = None;
    let mut i: usize = 0;
    proof {
        assert(m.book(0).trades =~= trades@);
    }
    while i < len
        invariant
            m == (Market { open: open@, close: close@, buy: buy@, sell: sell@ }),
            m.valid(),
            len == open@.len(),
            i <= len,
            m.book(i as nat) == (Book { position, trades: trades@ }),
            position matches Some(p) ==> p.entry_bar < i,
        decreases len - i,
    {
        let is_last = i == len - 1;
        let buy_signal = !is_last && buy[i] == 1;
        let sell_signal = !is_last && sell[i] == -1;
        if let Some(p) = position {
            let opposite = if p.long {
                sell_signal
            } else {
                buy_signal
            };
            if opposite || i - p.entry_bar >= MAX_HOLD_BARS || is_last {
                let exit_price: Option<Double> = if is_last {
                    close[i]
                } else {
                    open[i]
                };
                let settled = match exit_price {
                    Some(price) => price.is_finite(),
                    None => false,
                };
                if settled {
                    trades.push(
                        Trade {
                            long: p.long,
                            entry_bar: p.entry_bar,
                            exit_bar: i,
                            at_close: is_last,
                        },
                    );
                }
                position = None;
            }
        }
        if position.is_none() && (buy_signal || sell_signal) {
            let positive = match open[i] {
                Some(price) => price.gt(&Double { bits: 0 }),
                None => false,
            };
            if positive {
                position = Some(Position { long: buy_signal, entry_bar: i });
            }
        }
        i += 1;
    }
    trades
}

proof fn lemma_book(m: Market, i: nat)
    requires
        m.valid(),
        i <= m.open.len() <= usize::MAX,
    ensures
        m.book(i).position matches Some(p) ==> m.held(p, i as int),
        forall|k: int|
            0 <= k < m.book(i).trades.len() ==> m.sound(#[trigger] m.book(i).trades[k])
                && m.book(i).trades[k].exit_bar < i,
        forall|k: int, l: int|
            0 <= k < l < m.book(i).trades.len() ==> (#[trigger] m.book(i).trades[k]).exit_bar
                <= (#[trigger] m.book(i).trades[l]).entry_bar,
        m.book(i).position matches Some(p) ==> forall|k: int|
            0 <= k < m.book(i).trades.len() ==> (#[trigger] m.book(i).trades[k]).exit_bar
                <= p.entry_bar,
    decreases i,
{
    if i > 0 {
        lemma_book(m, (i - 1) as nat);
    }
}

/// Every trade was entered at a positive open on a signal of its direction,
/// was held for at most `MAX_HOLD_BARS` bars with no signal against it in
/// between, and was closed at a finite price by an opposite signal, by its age
/// or by the end of the data; it was closed at a close exactly where that
/// close is the final one.
pub proof fn law_trades_are_sound(m: Market, k: int)
    requires
        m.valid(),
        m.open.len() <= usize::MAX,
        0 <= k < m.trades().len(),
    ensures
        m.sound(m.trades()[k]),
        m.trades()[k].entry_bar < m.trades()[k].exit_bar,
        m.trades()[k].exit_bar - m.trades()[k].entry_bar <= MAX_HOLD_BARS,
{
    lemma_book(m, m.open.len());
}

/// At most one position is held at a time: a trade is entered no earlier than
/// the bar at which the one before it was closed.
pub proof fn law_trades_do_not_overlap(m: Market, k: int, l: int)
    requires
        m.valid(),
        m.open.len() <= usize::MAX,
        0 <= k < l < m.trades().len(),
    ensures
        m.trades()[k].exit_bar <= m.trades()[l].entry_bar,
{
    lemma_book(m, m.open.len());
}

/// Nothing is left open at the end of the data.
pub proof fn law_nothing_is_left_open(m: Market)
    requires
        m.valid(),
    ensures
        m.book(m.open.len()).position is None,
{
}

/// A signal of the direction already held changes nothing.
pub proof fn law_repeated_signals_are_ignored(m: Market, i: int, p: Position)
    requires
        m.valid(),
        0 <= i < m.bars() - 1,
        m.book(i as nat).position == Some(p),
        !m.opposes(p, i),
        i - p.entry_bar < MAX_HOLD_BARS,
    ensures
        m.book((i + 1) as nat) == m.book(i as nat),
{
}

/// An opposite signal at a positive, finite open closes the position there and
/// reverses it at the same bar.
pub proof fn law_opposite_signal_reverses(m: Market, i: int, p: Position)
    requires
        m.valid(),
        0 <= i < m.bars() <= usize::MAX,
        m.book(i as nat).position == Some(p),
        m.opposes(p, i),
        !(m.buys(i) && m.sells(i)),
        enterable(m.open[i]),
        settles(m.open[i]),
    ensures
        m.book((i + 1) as nat).position == Some(Position { long: !p.long, entry_bar: i as usize }),
        m.book((i + 1) as nat).trades == m.book(i as nat).trades.push(
            Trade { long: p.long, entry_bar: p.entry_bar, exit_bar: i as usize, at_close: false },
        ),
{
}

proof fn lemma_last_signal(m: Market, n: Market, i: nat)
    requires
        m.valid(),
        n.valid(),
        n.open == m.open,
        n.close == m.close,
        forall|j: int| 0 <= j < m.bars() - 1 ==> n.buy[j] == m.buy[j] && n.sell[j] == m.sell[j],
        i <= m.open.len(),
    ensures
        n.book(i) == m.book(i),
    decreases i,
{
    if i > 0 {
        lemma_last_signal(m, n, (i - 1) as nat);
    }
}

/// The signals of the final bar have no part in the trades.
pub proof fn law_final_signal_is_ignored(m: Market, n: Market)
    requires
        m.valid(),
        n.valid(),
        n.open == m.open,
        n.close == m.close,
        forall|j: int| 0 <= j < m.bars() - 1 ==> n.buy[j] == m.buy[j] && n.sell[j] == m.sell[j],
    ensures
        n.trades() == m.trades(),
{
    lemma_last_signal(m, n, m.open.len());
}

/// There are fewer trades than bars.
pub proof fn law_fewer_trades_than_bars(m: Market)
    requires
        m.valid(),
        m.bars() >= 1,
    ensures
        m.trades().len() < m.bars(),
{
    lemma_book_is_short(m, (m.open.len() - 1) as nat);
}

proof fn lemma_book_is_short(m: Market, i: nat)
    ensures
        m.book(i).trades.len() + (if m.book(i).position is Some {
            1nat
        } else {
            0nat
        }) <= i,
    decreases i,
{
    if i > 0 {
        lemma_book_is_short(m, (i - 1) as nat);
    }
}

impl Trade {
    /// The trade in the other direction.
    pub open spec fn mirrored(self) -> Trade {
        Trade { long: !self.long, ..self }
    }
}

impl Market {
    /// The same bars with buys and sells exchanged.
    pub open spec fn mirrors(self, other: Market) -> bool {
        &&& self.open == other.open
        &&& self.close == other.close
        &&& self.buy.len() == other.sell.len()
        &&& self.sell.len() == other.buy.len()
        &&& forall|i: int| 0 <= i < self.buy.len() ==> #[trigger] self.buy[i] == -other.sell[i]
        &&& forall|i: int| 0 <= i < self.sell.len() ==> #[trigger] self.sell[i] == -other.buy[i]
    }
}

/// Exchanging buys and sells, where no bar has both, keeps the bars and prices
/// of every trade and turns its direction.
pub proof fn law_exchanged_signals_mirror_trades(m: Market, n: Market)
    requires
        m.valid(),
        n.mirrors(m),
        forall|i: int| 0 <= i < m.bars() ==> !(#[trigger] m.buy[i] == 1 && m.sell[i] == -1),
    ensures
        n.trades() == m.trades().map_values(|t: Trade| t.mirrored()),
{
    lemma_mirrored_book(m, n, m.open.len());
}

proof fn lemma_mirrored_book(m: Market, n: Market, i: nat)
    requires
        m.valid(),
        n.mirrors(m),
        forall|i: int| 0 <= i < m.bars() ==> !(#[trigger] m.buy[i] == 1 && m.sell[i] == -1),
        i <= m.open.len(),
    ensures
        n.book(i).trades == m.book(i).trades.map_values(|t: Trade| t.mirrored()),
        match m.book(i).position {
            Some(p) => n.book(i).position == Some(
                Position { long: !p.long, entry_bar: p.entry_bar },
            ),
            None => n.book(i).position is None,
        },
    decreases i,
{
    let turn = |t: Trade| t.mirrored();
    if i == 0 {
        assert(n.book(0).trades =~= m.book(0).trades.map_values(turn));
    } else {
        let k = i - 1;
        lemma_mirrored_book(m, n, k as nat);
        assert(n.buy[k] == -m.sell[k] && n.sell[k] == -m.buy[k]);
        assert(!(m.buy[k] == 1 && m.sell[k] == -1));
        assert(n.buys(k) == m.sells(k) && n.sells(k) == m.buys(k));
        let b = m.book(k as nat);
        let c = n.book(k as nat);
        assert(n.closed(c, k).trades =~= m.closed(b, k).trades.map_values(turn));
    }
}

impl Market {
    /// The same signals over bars whose prices can be entered and settled at
    /// where those of the other can.
    pub open spec fn trades_like(self, other: Market) -> bool {
        &&& self.buy == other.buy
        &&& self.sell == other.sell
        &&& self.open.len() == other.open.len()
        &&& self.close.len() == other.close.len()
        &&& forall|i: int|
            0 <= i < self.open.len() ==> enterable(#[trigger] self.open[i]) == enterable(
                other.open[i],
            ) && settles(self.open[i]) == settles(other.open[i])
        &&& forall|i: int|
            0 <= i < self.close.len() ==> settles(#[trigger] self.close[i]) == settles(
                other.close[i],
            )
    }

    /// The same signals over the bars of the other with every price times two
    /// to the power of `e`.
    pub open spec fn scales_to(self, other: Market, e: int) -> bool {
        &&& self.buy == other.buy
        &&& self.sell == other.sell
        &&& prices_scale(self.open, other.open, e)
        &&& prices_scale(self.close, other.close, e)
    }
}

/// Every price of a column times two to the power of `e` is that of the other.
pub open spec fn prices_scale(
    column: Seq<Option<Double>>,
    other: Seq<Option<Double>>,
    e: int,
) -> bool {
    &&& column.len() == other.len()
    &&& forall|i: int|
        0 <= i < column.len() ==> match (#[trigger] column[i], other[i]) {
            (Some(a), Some(b)) => a.scales_to(b, e),
            (None, None) => true,
            _ => false,
        }
}

/// The trades depend on the prices only by where these can be entered and
/// settled at.
pub proof fn law_trades_ignore_the_price_level(m: Market, n: Market)
    requires
        m.valid(),
        n.trades_like(m),
    ensures
        n.trades() == m.trades(),
{
    lemma_like_book(m, n, m.open.len());
}

proof fn lemma_like_book(m: Market, n: Market, i: nat)
    requires
        m.valid(),
        n.trades_like(m),
        i <= m.open.len(),
    ensures
        n.book(i) == m.book(i),
    decreases i,
{
    if i > 0 {
        let k = i - 1;
        lemma_like_book(m, n, k as nat);
        assert(enterable(n.open[k]) == enterable(m.open[k]));
        assert(settles(n.close[k]) == settles(m.close[k]));
    }
}

/// Scaling every price alike keeps the trades.
pub proof fn law_scaled_prices_keep_trades(m: Market, n: Market, e: int)
    requires
        m.valid(),
        m.scales_to(n, e),
    ensures
        n.trades() == m.trades(),
{
    let zero = Double { bits: 0 };
    assert forall|i: int| 0 <= i < n.open.len() implies enterable(#[trigger] n.open[i])
        == enterable(m.open[i]) && settles(n.open[i]) == settles(m.open[i]) by {
        if let (Some(a), Some(b)) = (m.open[i], n.open[i]) {
            crate::double::law_scaling_keeps_order(zero, a, zero, b, e);
        }
    }
    assert forall|i: int| 0 <= i < n.close.len() implies settles(#[trigger] n.close[i]) == settles(
        m.close[i],
    ) by {
        if let (Some(a), Some(b)) = (m.close[i], n.close[i]) {
            crate::double::law_scaling_keeps_order(zero, a, zero, b, e);
        }
    }
    law_trades_ignore_the_price_level(m, n);
}

/// What a trade is in terms of the bars and signals: a long was entered on a
/// buy, a short on a sell without a buy, both at an open above zero; no bar in
/// between has a signal against it; it ends at the final close, or at a finite
/// open after 126 bars or on a signal against it.
pub proof fn law_trades_follow_the_signals(m: Market, k: int)
    requires
        m.valid(),
        m.open.len() <= usize::MAX,
        0 <= k < m.trades().len(),
    ensures
        ({
            let t = m.trades()[k];
            let last = m.open.len() - 1;
            &&& t.entry_bar < t.exit_bar <= last
            &&& t.exit_bar - t.entry_bar <= 126
            &&& t.long == (m.buy[t.entry_bar as int] == 1)
            &&& !t.long ==> m.sell[t.entry_bar as int] == -1
            &&& m.open[t.entry_bar as int] matches Some(price) && (Double { bits: 0 }).below(price)
            &&& t.at_close == (t.exit_bar == last)
            &&& t.at_close ==> (m.close[last] matches Some(price) && price.finite())
            &&& !t.at_close ==> (m.open[t.exit_bar as int] matches Some(price) && price.finite())
            &&& t.at_close || t.exit_bar - t.entry_bar == 126 || (if t.long {
                m.sell[t.exit_bar as int] == -1
            } else {
                m.buy[t.exit_bar as int] == 1
            })
        }),
        forall|j: int|
            m.trades()[k].entry_bar < j < m.trades()[k].exit_bar && m.trades()[k].long
                ==> #[trigger] m.sell[j] != -1,
        forall|j: int|
            m.trades()[k].entry_bar < j < m.trades()[k].exit_bar && !m.trades()[k].long
                ==> #[trigger] m.buy[j] != 1,
{
    lemma_book(m, m.open.len());
    let t = m.trades()[k];
    let p = Position { long: t.long, entry_bar: t.entry_bar };
    assert(m.sound(t));
    assert forall|j: int| t.entry_bar < j < t.exit_bar && t.long implies #[trigger] m.sell[j]
        != -1 by {
        assert(!m.opposes(p, j));
    }
    assert forall|j: int| t.entry_bar < j < t.exit_bar && !t.long implies #[trigger] m.buy[j]
        != 1 by {
        assert(!m.opposes(p, j));
    }
}

/// A bar before the final one whose position, if there is one, is reversed or
/// has been held for 126 bars enters a new position on its signal at an open
/// above zero, whatever was traded before: a long exactly where there is a buy.
pub proof fn law_free_bars_are_entered(m: Market, i: int)
    requires
        m.valid(),
        0 <= i < m.open.len() - 1,
        m.open.len() <= usize::MAX,
        m.buy[i] == 1 || m.sell[i] == -1,
        m.open[i] matches Some(price) && (Double { bits: 0 }).below(price),
        m.book(i as nat).position matches Some(p) ==> i - p.entry_bar >= 126 || (if p.long {
            m.sell[i] == -1
        } else {
            m.buy[i] == 1
        }),
    ensures
        m.book((i + 1) as nat).position == Some(
            Position { long: m.buy[i] == 1, entry_bar: i as usize },
        ),
{
}

/// Nothing is entered without a signal, nor at an open that is missing or not
/// above zero, nor at the final bar.
pub proof fn law_nothing_is_entered_without_cause(m: Market, i: int)
    requires
        m.valid(),
        0 <= i < m.open.len(),
        m.book(i as nat).position is None,
        (m.buy[i] != 1 && m.sell[i] != -1) || !(m.open[i] matches Some(price) && (Double {
            bits: 0,
        }).below(price)) || i == m.open.len() - 1,
    ensures
        m.book((i + 1) as nat) == m.book(i as nat),
{
}

/// A position ends on a signal against it, after 126 bars and at the final bar.
/// It is then a trade where the price there is finite, and is dropped where it
/// is not.
pub proof fn law_positions_end(m: Market, i: int, p: Position)
    requires
        m.valid(),
        0 <= i < m.open.len() <= usize::MAX,
        m.book(i as nat).position == Some(p),
        i == m.open.len() - 1 || i - p.entry_bar >= 126 || (if p.long {
            m.sell[i] == -1
        } else {
            m.buy[i] == 1
        }),
    ensures
        m.book((i + 1) as nat).position != Some(p),
        ({
            let price = if i == m.open.len() - 1 {
                m.close[i]
            } else {
                m.open[i]
            };
            let t = Trade {
                long: p.long,
                entry_bar: p.entry_bar,
                exit_bar: i as usize,
                at_close: i == m.open.len() - 1,
            };
            m.book((i + 1) as nat).trades == (if price matches Some(x) && x.finite() {
                m.book(i as nat).trades.push(t)
            } else {
                m.book(i as nat).trades
            })
        }),
{
    lemma_book(m, i as nat);
}

/// Bar `j` entered the trade `t`, or `t` was held over it.
pub open spec fn answers(m: Market, t: Trade, j: int) -> bool {
    ||| t.entry_bar == j && t.long == (m.buy[j] == 1)
    ||| t.entry_bar < j < t.exit_bar
}

proof fn lemma_answered(m: Market, i: nat, j: int)
    requires
        m.valid(),
        i <= m.open.len() <= usize::MAX,
        forall|b: int| 0 <= b < m.open.len() ==> settles(#[trigger] m.open[b]),
        settles(m.close[m.open.len() - 1]),
        0 <= j < i,
        j < m.open.len() - 1,
        m.buy[j] == 1 || m.sell[j] == -1,
        enterable(m.open[j]),
    ensures
        (m.book(i).position matches Some(p) && (p.entry_bar < j || (p.entry_bar == j && p.long == (
        m.buy[j] == 1)))) || exists|k: int|
            0 <= k < m.book(i).trades.len() && answers(m, #[trigger] m.book(i).trades[k], j),
    decreases i,
{
    let b = (i - 1) as nat;
    lemma_book(m, b);
    if j < b {
        lemma_answered(m, b, j);
        assert(settles(m.open[b as int]));
        assert(settles(m.exit_price(b as int)));
        let before = m.book(b);
        let after = m.book(i);
        if exists|k: int| 0 <= k < before.trades.len() && answers(m, #[trigger] before.trades[k], j) {
            let k = choose|k: int|
                0 <= k < before.trades.len() && answers(m, #[trigger] before.trades[k], j);
            assert(after.trades[k] == before.trades[k]);
        } else {
            let p = before.position.unwrap();
            if m.closes(p, b as int) {
                assert(answers(m, after.trades[after.trades.len() - 1], j));
            }
        }
    } else {
        assert(settles(m.open[j]));
    }
}

/// No signal is passed over: where every price is finite, each bar before the
/// final one with a signal and an open above zero is the entry of a trade in
/// the direction of the signal, or a trade is held over it.
pub proof fn law_every_signal_is_answered(m: Market, j: int)
    requires
        m.valid(),
        m.open.len() <= usize::MAX,
        forall|b: int|
            0 <= b < m.open.len() ==> ((#[trigger] m.open[b]) matches Some(price)
                && price.finite()),
        m.close[m.open.len() - 1] matches Some(price) && price.finite(),
        0 <= j < m.open.len() - 1,
        m.buy[j] == 1 || m.sell[j] == -1,
        m.open[j] matches Some(price) && (Double { bits: 0 }).below(price),
    ensures
        exists|k: int|
            0 <= k < m.trades().len() && {
                let t = #[trigger] m.trades()[k];
                (t.entry_bar == j && t.long == (m.buy[j] == 1)) || t.entry_bar < j < t.exit_bar
            },
{
    lemma_answered(m, m.open.len(), j);
    law_nothing_is_left_open(m);
    let k = choose|k: int|
        0 <= k < m.trades().len() && answers(m, #[trigger] m.trades()[k], j);
    let t = m.trades()[k];
    assert((t.entry_bar == j && t.long == (m.buy[j] == 1)) || t.entry_bar < j < t.exit_bar);
}

/// A trade is followed by the next signal: where every price is finite, no bar
/// from the exit of a trade up to the entry of the next one has a signal and an
/// open above zero.
pub proof fn law_no_signal_between_trades(m: Market, k: int, j: int)
    requires
        m.valid(),
        m.open.len() <= usize::MAX,
        forall|b: int|
            0 <= b < m.open.len() ==> ((#[trigger] m.open[b]) matches Some(price)
                && price.finite()),
        m.close[m.open.len() - 1] matches Some(price) && price.finite(),
        0 <= k < m.trades().len() - 1,
        m.trades()[k].exit_bar <= j < m.trades()[k + 1].entry_bar,
        m.open[j] matches Some(price) && (Double { bits: 0 }).below(price),
    ensures
        m.buy[j] != 1 && m.sell[j] != -1,
{
    law_trades_follow_the_signals(m, k);
    law_trades_follow_the_signals(m, k + 1);
    if m.buy[j] == 1 || m.sell[j] == -1 {
        law_every_signal_is_answered(m, j);
        let l = choose|l: int|
            0 <= l < m.trades().len() && {
                let t = #[trigger] m.trades()[l];
                (t.entry_bar == j && t.long == (m.buy[j] == 1)) || t.entry_bar < j < t.exit_bar
            };
        law_trades_follow_the_signals(m, l);
        if l < k {
            law_trades_do_not_overlap(m, l, k);
        }
        if l > k + 1 {
            law_trades_do_not_overlap(m, k + 1, l);
        }
    }
}

} // verus!

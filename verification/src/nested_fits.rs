//! Nested fits: the windows that a series is fitted over, and what is kept of
//! each fit.
use crate::dates::{ce_to_date, Date};
use crate::double::Double;
use vstd::prelude::*;

verus! {

/// The observations from `start` up to and without `end`.
#[derive(Clone, Copy, PartialEq, Eq, Structural, Debug)]
pub struct Window {
    pub start: usize,
    pub end: usize,
}

/// Why a series has no nested fits.
#[derive(Clone, Copy, PartialEq, Eq, Structural, Debug)]
pub enum NestedFitError {
    TooFewObservations,
    NestedFitsFailed,
}

impl NestedFitError {
    /// The message of the error.
    pub open spec fn message(self) -> Seq<char> {
        match self {
            NestedFitError::TooFewObservations => "Too few observations."@,
            NestedFitError::NestedFitsFailed => "Nested fits failed"@,
        }
    }

    pub fn text(&self) -> (r: String)
        ensures
            r@ == self.message(),
    {
        match self {
            NestedFitError::TooFewObservations => "Too few observations.".to_owned(),
            NestedFitError::NestedFitsFailed => "Nested fits failed".to_owned(),
        }
    }
}

/// How the windows are laid over a series: a window of `size` observations
/// moves on by `outer` at a time; at each place its front is cut back by
/// `inner` at a time, as long as more than `smallest` observations are left.
#[derive(Clone, Copy, PartialEq, Eq, Structural, Debug)]
pub struct Nesting {
    pub size: usize,
    pub smallest: usize,
    pub outer: usize,
    pub inner: usize,
}

impl Nesting {
    /// How many windows share an end.
    pub open spec fn cuts(self) -> int {
        if self.size <= self.smallest {
            0
        } else {
            (self.size - self.smallest - 1) / (self.inner as int) + 1
        }
    }

    /// How many places the window takes in a series of `n` observations.
    pub open spec fn places(self, n: int) -> int {
        (n - self.size) / (self.outer as int) + 1
    }

    /// The last place of the window in a series of `n` observations.
    pub open spec fn last_place(self, n: int) -> int {
        (n - self.size) / (self.outer as int) * self.outer
    }

    /// The window at the place `place`, cut back `cut` times.
    pub open spec fn window(self, place: int, cut: int) -> Window {
        Window {
            start: (place * self.outer + cut * self.inner) as usize,
            end: (place * self.outer + self.size) as usize,
        }
    }

    /// The windows over `n` observations, place by place.
    pub open spec fn windows(self, n: int) -> Seq<Window> {
        Seq::new(
            (self.places(n) * self.cuts()) as nat,
            |k: int| self.window(k / self.cuts(), k % self.cuts()),
        )
    }

    /// The steps and sizes that a series of `n` observations with `prices`
    /// prices can be fitted with.
    pub open spec fn fits(self, n: int, prices: int) -> bool {
        &&& self.smallest <= self.size
        &&& n >= self.size ==> {
            &&& self.size > 0
            &&& self.outer > 0
            &&& self.inner > 0
            &&& self.last_place(n) + self.size <= prices
        }
    }
}

/// Lays the windows over `observations` observations with `prices` prices. It
/// fails exactly where there are fewer observations than a window holds.
pub fn nested_windows(observations: usize, prices: usize, nesting: Nesting) -> (r: Result<
    Vec<Window>,
    NestedFitError,
>)
    requires
        nesting.fits(observations as int, prices as int),
    ensures
        observations < nesting.size ==> r == Err::<Vec<Window>, NestedFitError>(
            NestedFitError::TooFewObservations,
        ),
        observations >= nesting.size ==> r is Ok && r.unwrap()@ == nesting.windows(
            observations as int,
        ),
{
    if observations < nesting.size {
        return Err(NestedFitError::TooFewObservations);
    }
    let ghost n = observations as int;
    let places: usize = (observations - nesting.size) / nesting.outer + 1;
    let cuts: usize = if nesting.size == nesting.smallest {
        0
    } else {
        (nesting.size - nesting.smallest - 1) / nesting.inner + 1
    };
    let mut out: Vec<Window> = Vec::new();
    let mut place: usize = 0;
    while place < places
        invariant
            nesting.fits(n, prices as int),
            n == observations >= nesting.size,
            places == nesting.places(n),
            cuts == nesting.cuts(),
            place <= places,
            out@.len() == place * cuts,
            forall|k: int|
                0 <= k < out@.len() ==> #[trigger] out@[k] == nesting.window(k / (cuts as int), k % (
                cuts as int)),
        decreases places - place,
    {
        proof {
            lemma_steps(n - nesting.size, nesting.outer as int, place as int);
        }
        let first: usize = place * nesting.outer;
        let end: usize = first + nesting.size;
        let mut cut: usize = 0;
        proof {
            assert(place * cuts + 0 == place * cuts);
        }
        while cut < cuts
            invariant
                nesting.fits(n, prices as int),
                n == observations >= nesting.size,
                cuts == nesting.cuts(),
                place < places == nesting.places(n),
                first == place * nesting.outer,
                first + nesting.size <= n,
                end == first + nesting.size,
                cut <= cuts,
                out@.len() == place * cuts + cut,
                forall|k: int|
                    0 <= k < out@.len() ==> #[trigger] out@[k] == nesting.window(
                        k / (cuts as int),
                        k % (cuts as int),
                    ),
            decreases cuts - cut,
        {
            proof {
                lemma_steps(
                    nesting.size - nesting.smallest - 1,
                    nesting.inner as int,
                    cut as int,
                );
                vstd::arithmetic::div_mod::lemma_fundamental_div_mod_converse(
                    place * cuts + cut,
                    cuts as int,
                    place as int,
                    cut as int,
                );
            }
            let offset: usize = cut * nesting.inner;
            out.push(Window { start: first + offset, end });
            cut += 1;
        }
        proof {
            assert(place * cuts + cuts == (place + 1) * cuts) by (nonlinear_arith);
        }
        place += 1;
    }
    proof {
        assert(out@ =~= nesting.windows(n));
    }
    Ok(out)
}

proof fn lemma_steps(total: int, step: int, k: int)
    requires
        total >= 0,
        step > 0,
        0 <= k <= total / step,
    ensures
        0 <= k * step <= total / step * step <= total,
{
    vstd::arithmetic::div_mod::lemma_fundamental_div_mod(total, step);
    assert(0 <= k * step <= total / step * step && total / step * step == step * (total / step))
        by (nonlinear_arith)
        requires
            0 <= k <= total / step,
            step > 0,
    ;
}

/// Every window lies within the series, and holds more than the smallest and
/// at most the full number of observations.
pub proof fn law_windows_lie_in_series(nesting: Nesting, n: int, prices: int, k: int)
    requires
        nesting.fits(n, prices),
        nesting.size <= n <= usize::MAX,
        prices <= usize::MAX,
        0 <= k < nesting.windows(n).len(),
    ensures
        nesting.windows(n)[k].start < nesting.windows(n)[k].end,
        nesting.windows(n)[k].end <= n,
        nesting.windows(n)[k].end <= prices,
        nesting.smallest < nesting.windows(n)[k].end - nesting.windows(n)[k].start <= nesting.size,
{
    let cuts = nesting.cuts();
    let places = nesting.places(n);
    let place = k / cuts;
    let cut = k % cuts;
    vstd::arithmetic::div_mod::lemma_div_nonincreasing(n - nesting.size, nesting.outer as int);
    assert(cuts > 0) by {
        if cuts == 0 {
            assert(places * cuts == 0) by (nonlinear_arith)
                requires
                    cuts == 0,
            ;
        } else if nesting.size > nesting.smallest {
            vstd::arithmetic::div_mod::lemma_div_pos_is_pos(
                nesting.size - nesting.smallest - 1,
                nesting.inner as int,
            );
        }
    }
    vstd::arithmetic::div_mod::lemma_fundamental_div_mod(k, cuts);
    vstd::arithmetic::div_mod::lemma_mod_bound(k, cuts);
    assert(0 <= place < places) by (nonlinear_arith)
        requires
            0 <= k < places * cuts,
            k == cuts * place + cut,
            0 <= cut < cuts,
    ;
    lemma_steps(n - nesting.size, nesting.outer as int, place);
    lemma_steps(nesting.size - nesting.smallest - 1, nesting.inner as int, cut);
}

/// What the optimizer found over a window.
#[derive(Clone, Copy, PartialEq, Eq, Structural, Debug)]
pub struct Fit {
    pub tc: Double,
    pub m: Double,
    pub w: Double,
    pub a: Double,
    pub b: Double,
    pub c1: Double,
    pub c2: Double,
    pub best_cost: Double,
}

/// The figures that are derived from a fit: the amplitude of its oscillation,
/// their number and their damping.
#[derive(Clone, Copy, PartialEq, Eq, Structural, Debug)]
pub struct Shape {
    pub c: Double,
    pub oscillations: Double,
    pub damping: Double,
}

/// The whole days of the critical time and of the two ends of the window.
#[derive(Clone, Copy, PartialEq, Eq, Structural, Debug)]
pub struct WindowDays {
    pub tc: i64,
    pub t1: i64,
    pub t2: i64,
}

/// A fit as it is kept.
#[derive(Clone, Copy, PartialEq, Eq, Structural, Debug)]
pub struct FitResult {
    pub tc_d: Date,
    pub tc: Double,
    pub m: Double,
    pub w: Double,
    pub a: Double,
    pub b: Double,
    pub c: Double,
    pub c1: Double,
    pub c2: Double,
    pub t1_d: Date,
    pub t2_d: Date,
    pub t1: Double,
    pub t2: Double,
    pub oscillations: Double,
    pub damping: Double,
    pub p2: Double,
    pub best_cost: Double,
}

impl WindowDays {
    /// Each of the three days has a date.
    pub open spec fn dated(self) -> bool {
        &&& crate::dates::first_day() <= self.tc <= crate::dates::last_day()
        &&& crate::dates::first_day() <= self.t1 <= crate::dates::last_day()
        &&& crate::dates::first_day() <= self.t2 <= crate::dates::last_day()
    }
}

/// What is kept of a fit over a window of the series: the fit itself, the times
/// at the two ends of the window with their dates, and the price at its end.
pub open spec fn kept_fit(
    window: Window,
    time: Seq<Double>,
    price: Seq<Double>,
    fit: Fit,
    shape: Shape,
    days: WindowDays,
) -> FitResult {
    FitResult {
        tc_d: crate::dates::date_at(days.tc as int),
        tc: fit.tc,
        m: fit.m,
        w: fit.w,
        a: fit.a,
        b: fit.b,
        c: shape.c,
        c1: fit.c1,
        c2: fit.c2,
        t1_d: crate::dates::date_at(days.t1 as int),
        t2_d: crate::dates::date_at(days.t2 as int),
        t1: time[window.start as int],
        t2: time[window.end - 1],
        oscillations: shape.oscillations,
        damping: shape.damping,
        p2: price[window.end - 1],
        best_cost: fit.best_cost,
    }
}

/// The row carries the parameters of the fit and its figures unchanged, and the
/// dates of its days.
pub open spec fn keeps(r: FitResult, fit: Fit, shape: Shape, days: WindowDays) -> bool {
    &&& r.tc == fit.tc
    &&& r.m == fit.m
    &&& r.w == fit.w
    &&& r.a == fit.a
    &&& r.b == fit.b
    &&& r.c1 == fit.c1
    &&& r.c2 == fit.c2
    &&& r.best_cost == fit.best_cost
    &&& r.c == shape.c
    &&& r.oscillations == shape.oscillations
    &&& r.damping == shape.damping
    &&& r.tc_d.valid() && r.tc_d.day_number() == days.tc
    &&& r.t1_d.valid() && r.t1_d.day_number() == days.t1
    &&& r.t2_d.valid() && r.t2_d.day_number() == days.t2
}

/// The row carries the times of the first and the last observation of the
/// window, and the price of the last one.
pub open spec fn spans(r: FitResult, window: Window, time: Seq<Double>, price: Seq<Double>) -> bool {
    &&& r.t1 == time[window.start as int]
    &&& r.t2 == time[window.end - 1]
    &&& r.p2 == price[window.end - 1]
}

/// What is kept of a fit over a window of the series.
pub fn fit_result(
    window: Window,
    time: &Vec<Double>,
    price: &Vec<Double>,
    fit: Fit,
    shape: Shape,
    days: WindowDays,
) -> (r: FitResult)
    requires
        window.start < window.end <= time@.len(),
        window.end <= price@.len(),
        days.dated(),
    ensures
        r == kept_fit(window, time@, price@, fit, shape, days),
        keeps(r, fit, shape, days),
        spans(r, window, time@, price@),
{
    proof {
        crate::dates::law_every_day_has_a_date(days.tc as int);
        crate::dates::law_every_day_has_a_date(days.t1 as int);
        crate::dates::law_every_day_has_a_date(days.t2 as int);
    }
    FitResult {
        tc_d: ce_to_date(days.tc),
        tc: fit.tc,
        m: fit.m,
        w: fit.w,
        a: fit.a,
        b: fit.b,
        c: shape.c,
        c1: fit.c1,
        c2: fit.c2,
        t1_d: ce_to_date(days.t1),
        t2_d: ce_to_date(days.t2),
        t1: time[window.start],
        t2: time[window.end - 1],
        oscillations: shape.oscillations,
        damping: shape.damping,
        p2: price[window.end - 1],
        best_cost: fit.best_cost,
    }
}

/// How the fit over one window ended.
#[derive(Clone, Copy, PartialEq, Eq, Structural, Debug)]
pub enum FitOutcome {
    Fitted { fit: Fit, shape: Shape, days: WindowDays },
    Rejected,
    Panicked,
}

/// The fits of the windows that have one, in the order of the windows.
pub open spec fn fitted(
    windows: Seq<Window>,
    outcomes: Seq<FitOutcome>,
    time: Seq<Double>,
    price: Seq<Double>,
) -> Seq<FitResult>
    decreases outcomes.len(),
{
    if outcomes.len() == 0 {
        Seq::empty()
    } else {
        let before = fitted(windows, outcomes.drop_last(), time, price);
        match outcomes.last() {
            FitOutcome::Fitted { fit, shape, days } => before.push(
                kept_fit(windows[outcomes.len() - 1], time, price, fit, shape, days),
            ),
            _ => before,
        }
    }
}

/// How many of the outcomes are fits.
pub open spec fn fits_in(outcomes: Seq<FitOutcome>) -> nat {
    outcomes.filter(|o: FitOutcome| o is Fitted).len()
}

/// The rows are those of the fitted windows, all of them, in the order of the
/// windows, and each carries what was fitted over its window and where that
/// window lies.
pub open spec fn rows_carry_their_fits(
    rows: Seq<FitResult>,
    windows: Seq<Window>,
    outcomes: Seq<FitOutcome>,
    time: Seq<Double>,
    price: Seq<Double>,
) -> bool {
    &&& rows.len() == fits_in(outcomes)
    &&& forall|k: int|
        0 <= k < outcomes.len() ==> ((#[trigger] outcomes[k]) matches FitOutcome::Fitted {
            fit,
            shape,
            days,
        } ==> {
            let place = fits_in(outcomes.take(k));
            &&& place < rows.len()
            &&& keeps(rows[place as int], fit, shape, days)
            &&& spans(rows[place as int], windows[k], time, price)
        })
}

/// Each row of the nested fits carries the parameters of the fit of its window
/// unchanged: the row of a fitted window is found after those of the fitted
/// windows before it. In particular its coefficient has the sign of the fit's.
pub proof fn law_rows_carry_their_fits(
    windows: Seq<Window>,
    outcomes: Seq<FitOutcome>,
    time: Seq<Double>,
    price: Seq<Double>,
)
    requires
        forall|k: int|
            0 <= k < outcomes.len() ==> ((#[trigger] outcomes[k]) matches FitOutcome::Fitted {
                days,
                ..
            } ==> days.dated()),
    ensures
        rows_carry_their_fits(
            fitted(windows, outcomes, time, price),
            windows,
            outcomes,
            time,
            price,
        ),
    decreases outcomes.len(),
{
    reveal(Seq::filter);
    if outcomes.len() > 0 {
        let rest = outcomes.drop_last();
        assert forall|k: int| 0 <= k < rest.len() implies ((
        #[trigger] rest[k]) matches FitOutcome::Fitted { days, .. } ==> days.dated()) by {
            assert(rest[k] == outcomes[k]);
        }
        law_rows_carry_their_fits(windows, rest, time, price);
        let before = fitted(windows, rest, time, price);
        let rows = fitted(windows, outcomes, time, price);
        let last = outcomes.len() - 1;
        assert forall|k: int| 0 <= k < outcomes.len() implies ((
        #[trigger] outcomes[k]) matches FitOutcome::Fitted { fit, shape, days } ==> {
            let place = fits_in(outcomes.take(k));
            &&& place < rows.len()
            &&& keeps(rows[place as int], fit, shape, days)
            &&& spans(rows[place as int], windows[k], time, price)
        }) by {
            if k < last {
                assert(rest[k] == outcomes[k]);
                assert(rest.take(k) =~= outcomes.take(k));
            } else {
                assert(outcomes.take(k) =~= rest);
                if let FitOutcome::Fitted { fit, shape, days } = outcomes[k] {
                    crate::dates::law_every_day_has_a_date(days.tc as int);
                    crate::dates::law_every_day_has_a_date(days.t1 as int);
                    crate::dates::law_every_day_has_a_date(days.t2 as int);
                    assert(rows[before.len() as int] == kept_fit(
                        windows[k],
                        time,
                        price,
                        fit,
                        shape,
                        days,
                    ));
                }
            }
        }
    }
}

/// The fits over the nested windows of a series, one outcome for each window;
/// windows without a fit are skipped. It fails exactly where there are fewer
/// observations than a window holds, or where no window has a fit.
pub fn compute_nested_fits(
    time: &Vec<Double>,
    price: &Vec<Double>,
    nesting: Nesting,
    outcomes: &Vec<FitOutcome>,
) -> (r: Result<Vec<FitResult>, NestedFitError>)
    requires
        nesting.fits(time@.len() as int, price@.len() as int),
        time@.len() >= nesting.size ==> outcomes@.len() == nesting.windows(
            time@.len() as int,
        ).len(),
        forall|k: int|
            0 <= k < outcomes@.len() ==> ((#[trigger] outcomes@[k]) matches FitOutcome::Fitted {
                days,
                ..
            } ==> days.dated()),
    ensures
        ({
            let rows = fitted(nesting.windows(time@.len() as int), outcomes@, time@, price@);
            if time@.len() < nesting.size {
                r == Err::<Vec<FitResult>, NestedFitError>(NestedFitError::TooFewObservations)
            } else if rows.len() == 0 {
                r == Err::<Vec<FitResult>, NestedFitError>(NestedFitError::NestedFitsFailed)
            } else {
                r is Ok && r.unwrap()@ == rows
            }
        }),
        r matches Ok(rows) ==> rows_carry_their_fits(
            rows@,
            nesting.windows(time@.len() as int),
            outcomes@,
            time@,
            price@,
        ),
        r is Err && time@.len() >= nesting.size ==> fits_in(outcomes@) == 0,
{
    let windows = match nested_windows(time.len(), price.len(), nesting) {
        Ok(windows) => windows,
        Err(e) => {
            return Err(e);
        },
    };
    let n: usize = time.len();
    let p: usize = price.len();
    let mut out: Vec<FitResult> = Vec::new();
    let mut i: usize = 0;
    while i < outcomes.len()
        invariant
            i <= outcomes@.len(),
            n == time@.len(),
            p == price@.len(),
            n >= nesting.size,
            nesting.fits(n as int, p as int),
            windows@ == nesting.windows(n as int),
            outcomes@.len() == windows@.len(),
            forall|k: int|
                0 <= k < outcomes@.len() ==> ((
                #[trigger] outcomes@[k]) matches FitOutcome::Fitted { days, .. } ==> days.dated()),
            out@ == fitted(windows@, outcomes@.take(i as int), time@, price@),
        decreases outcomes@.len() - i,
    {
        proof {
            assert(outcomes@.take(i + 1).drop_last() =~= outcomes@.take(i as int));
            law_windows_lie_in_series(nesting, n as int, p as int, i as int);
        }
        if let FitOutcome::Fitted { fit, shape, days } = outcomes[i] {
            out.push(fit_result(windows[i], time, price, fit, shape, days));
        }
        i += 1;
    }
    proof {
        assert(outcomes@.take(outcomes@.len() as int) =~= outcomes@);
        law_rows_carry_their_fits(windows@, outcomes@, time@, price@);
    }
    if out.len() == 0 {
        Err(NestedFitError::NestedFitsFailed)
    } else {
        Ok(out)
    }
}

proof fn lemma_place_and_cut(nesting: Nesting, n: int, prices: int, k: int) -> (r: (int, int))
    requires
        nesting.fits(n, prices),
        nesting.size <= n <= usize::MAX,
        0 <= k < nesting.windows(n).len(),
    ensures
        r.0 == k / nesting.cuts(),
        r.1 == k % nesting.cuts(),
        nesting.cuts() > 0,
        k == nesting.cuts() * r.0 + r.1,
        0 <= r.1 < nesting.cuts(),
        nesting.smallest < nesting.size,
        0 <= r.0 * nesting.outer,
        r.0 * nesting.outer + nesting.size <= n,
        0 <= r.1 * nesting.inner < nesting.size - nesting.smallest,
        nesting.windows(n)[k].start == r.0 * nesting.outer + r.1 * nesting.inner,
        nesting.windows(n)[k].end == r.0 * nesting.outer + nesting.size,
{
    let cuts = nesting.cuts();
    let places = nesting.places(n);
    let place = k / cuts;
    let cut = k % cuts;
    vstd::arithmetic::div_mod::lemma_div_nonincreasing(n - nesting.size, nesting.outer as int);
    vstd::arithmetic::div_mod::lemma_div_pos_is_pos(n - nesting.size, nesting.outer as int);
    assert(cuts > 0) by {
        if nesting.size > nesting.smallest {
            vstd::arithmetic::div_mod::lemma_div_pos_is_pos(
                nesting.size - nesting.smallest - 1,
                nesting.inner as int,
            );
        } else {
            assert(places * cuts == 0) by (nonlinear_arith)
                requires
                    cuts == 0,
            ;
        }
    }
    vstd::arithmetic::div_mod::lemma_fundamental_div_mod(k, cuts);
    vstd::arithmetic::div_mod::lemma_mod_bound(k, cuts);
    assert(0 <= place < places) by (nonlinear_arith)
        requires
            0 <= k < places * cuts,
            k == cuts * place + cut,
            0 <= cut < cuts,
    ;
    lemma_steps(n - nesting.size, nesting.outer as int, place);
    lemma_steps(nesting.size - nesting.smallest - 1, nesting.inner as int, cut);
    (place, cut)
}

/// Every window is laid: wherever a whole window fits into the series at a
/// multiple of the outer step, it is there with each of its cuts by a multiple
/// of the inner step that leaves more than the smallest number of observations.
pub proof fn law_every_window_is_laid(nesting: Nesting, n: int, prices: int, place: int, cut: int)
    requires
        nesting.fits(n, prices),
        nesting.size <= n <= usize::MAX,
        0 <= place,
        0 <= cut,
        place * nesting.outer + nesting.size <= n,
        nesting.size - cut * nesting.inner > nesting.smallest,
    ensures
        nesting.windows(n).contains(
            Window {
                start: (place * nesting.outer + cut * nesting.inner) as usize,
                end: (place * nesting.outer + nesting.size) as usize,
            },
        ),
{
    let outer = nesting.outer as int;
    let inner = nesting.inner as int;
    let cuts = nesting.cuts();
    let places = nesting.places(n);
    assert(0 <= cut * inner) by (nonlinear_arith)
        requires
            0 <= cut,
            0 < inner,
    ;
    lemma_within(n - nesting.size, outer, place);
    lemma_within(nesting.size - nesting.smallest - 1, inner, cut);
    let k = place * cuts + cut;
    assert(0 <= k < places * cuts) by (nonlinear_arith)
        requires
            0 <= place <= places - 1,
            0 <= cut <= cuts - 1,
            k == place * cuts + cut,
    ;
    vstd::arithmetic::div_mod::lemma_fundamental_div_mod_converse(k, cuts, place, cut);
    assert(nesting.windows(n)[k] == nesting.window(place, cut));
}

proof fn lemma_within(total: int, step: int, k: int)
    requires
        0 <= k,
        0 < step,
        k * step <= total,
    ensures
        k <= total / step,
{
    vstd::arithmetic::div_mod::lemma_fundamental_div_mod(total, step);
    vstd::arithmetic::div_mod::lemma_mod_bound(total, step);
    assert(k <= total / step) by (nonlinear_arith)
        requires
            total == step * (total / step) + total % step,
            0 <= total % step < step,
            k * step <= total,
            0 < step,
    ;
}

/// The windows stand in the order of their ends, those that share an end in the
/// order of their beginnings, and none stands twice. Each ends a whole window
/// after a multiple of the outer step, and begins a multiple of the inner step
/// after that place.
pub proof fn law_windows_stand_in_order(nesting: Nesting, n: int, prices: int, j: int, k: int)
    requires
        nesting.fits(n, prices),
        nesting.size <= n <= usize::MAX,
        0 <= j < k < nesting.windows(n).len(),
    ensures
        ({
            let a = nesting.windows(n)[j];
            let b = nesting.windows(n)[k];
            &&& a.end < b.end || (a.end == b.end && a.start < b.start)
            &&& a.end >= nesting.size && (a.end - nesting.size) % (nesting.outer as int) == 0
            &&& a.start + nesting.size >= a.end && (a.start + nesting.size - a.end) % (
            nesting.inner as int) == 0
        }),
{
    let (p, c) = lemma_place_and_cut(nesting, n, prices, j);
    let (q, d) = lemma_place_and_cut(nesting, n, prices, k);
    let cuts = nesting.cuts();
    let outer = nesting.outer as int;
    let inner = nesting.inner as int;
    vstd::arithmetic::div_mod::lemma_div_is_ordered(j, k, cuts);
    vstd::arithmetic::div_mod::lemma_mod_multiples_basic(p, outer);
    vstd::arithmetic::div_mod::lemma_mod_multiples_basic(c, inner);
    if p < q {
        assert(p * outer < q * outer) by (nonlinear_arith)
            requires
                p < q,
                0 < outer,
        ;
    } else {
        assert(c < d);
        assert(c * inner < d * inner) by (nonlinear_arith)
            requires
                c < d,
                0 < inner,
        ;
    }
}

/// What is kept of a fit has every parameter of the fit under its own name, so
/// that a positive bubble stays one; two fits are kept alike only where they
/// are the same.
pub proof fn law_kept_fits_are_told_apart(
    window: Window,
    time: Seq<Double>,
    price: Seq<Double>,
    fit: Fit,
    other: Fit,
    shape: Shape,
    days: WindowDays,
)
    ensures
        ({
            let r = kept_fit(window, time, price, fit, shape, days);
            &&& (Fit {
                tc: r.tc,
                m: r.m,
                w: r.w,
                a: r.a,
                b: r.b,
                c1: r.c1,
                c2: r.c2,
                best_cost: r.best_cost,
            }) == fit
            &&& (Shape { c: r.c, oscillations: r.oscillations, damping: r.damping }) == shape
            &&& r.b.below(Double { bits: 0 }) <==> fit.b.below(Double { bits: 0 })
            &&& r == kept_fit(window, time, price, other, shape, days) ==> fit == other
        }),
{
}

} // verus!

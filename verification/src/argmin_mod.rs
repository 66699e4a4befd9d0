//! The fit of the LPPLS model: which observations can be fitted, where the
//! search may go, and which of its restarts is kept.
//!
//! The search runs over the three nonlinear parameters (critical time,
//! exponent, angular frequency); the linear ones are solved by least squares in
//! every evaluation (Filimonov and Sornette 2013).
use crate::double::Double;
use crate::indicators::FitRow;
use vstd::prelude::*;

verus! {

/// 1e10, a large finite cost in place of an infinite one, so that the search
/// can always rank its vertices and contract back into the feasible region.
pub const PENALTY: u64 = 0x4202_A05F_2000_0000;

/// Restarts of a fit; the one with the lowest cost is kept.
pub const NUM_RESTARTS: usize = 15;

/// Iterations of one restart.
pub const MAX_ITERS: u64 = 250;

/// The fewest observations that can be fitted.
pub const MIN_OBSERVATIONS: usize = 10;

/// 0.001 and 2: the search box of the exponent. The box is wider than the range
/// that qualifies, so that a fit whose best exponent lies outside that range is
/// found there and disqualified, instead of being pinned to its boundary.
pub const M_SEARCH_MIN: u64 = 0x3F50_624D_D2F1_A9FC;

pub const M_SEARCH_MAX: u64 = 0x4000_0000_0000_0000;

/// 1 and 50: the search box of the angular frequency.
pub const W_SEARCH_MIN: u64 = 0x3FF0_0000_0000_0000;

pub const W_SEARCH_MAX: u64 = 0x4049_0000_0000_0000;

/// 0.01 and 0.99: the exponents that a restart begins between.
pub const M_START_MIN: u64 = 0x3F84_7AE1_47AE_147B;

pub const M_START_MAX: u64 = 0x3FEF_AE14_7AE1_47AE;

/// 2 and 15: the angular frequencies that a restart begins between.
pub const W_START_MIN: u64 = 0x4000_0000_0000_0000;

pub const W_START_MAX: u64 = 0x402E_0000_0000_0000;

/// 0.1: the first step of the critical time, as a part of the span.
pub const TC_STEP: u64 = 0x3FB9_9999_9999_999A;

/// 0.15: the first step of the exponent.
pub const M_STEP: u64 = 0x3FC3_3333_3333_3333;

/// 2: the first step of the angular frequency.
pub const W_STEP: u64 = 0x4000_0000_0000_0000;

/// 1e-8: the spread of the costs at which a restart has converged.
pub const SD_TOLERANCE: u64 = 0x3E45_798E_E230_8C3A;

/// 1e-6: the squared error per observation at which a fit is good enough, about
/// a thousandth of the range of the scaled price.
pub const GOOD_ERROR: u64 = 0x3EB0_C6F7_A0B5_ED8D;

/// Why a series has no fit.
#[derive(Clone, Copy, PartialEq, Eq, Structural, Debug)]
pub enum FitError {
    BadObservations,
    NoValidFit,
    LinearSolveFailed,
}

impl FitError {
    /// The message of the error.
    pub open spec fn message(self) -> Seq<char> {
        match self {
            FitError::BadObservations => "fit_argmin: need at least 10 aligned observations"@,
            FitError::NoValidFit => "fit_argmin: no valid fit found"@,
            FitError::LinearSolveFailed => "fit_argmin: linear solve failed at optimum"@,
        }
    }

    pub fn text(&self) -> (r: String)
        ensures
            r@ == self.message(),
    {
        match self {
            FitError::BadObservations => {
                "fit_argmin: need at least 10 aligned observations".to_owned()
            },
            FitError::NoValidFit => "fit_argmin: no valid fit found".to_owned(),
            FitError::LinearSolveFailed => "fit_argmin: linear solve failed at optimum".to_owned(),
        }
    }
}

/// The box that the search stays in, in time shifted to start at zero.
#[derive(Clone, Copy, PartialEq, Eq, Structural, Debug)]
pub struct SearchBox {
    pub tc_lo: Double,
    pub tc_hi: Double,
}

/// The range of the critical time: the later of 60 days and half the span
/// before the end of the window, up to the earlier of 252 days and half the
/// span after it. The four limits are given.
pub fn search_box(
    fixed_lower: Double,
    half_lower: Double,
    fixed_upper: Double,
    half_upper: Double,
) -> (r: SearchBox)
    ensures
        r.tc_lo == fixed_lower.larger_of(half_lower),
        r.tc_hi == fixed_upper.smaller_of(half_upper),
        !fixed_lower.nan() && !half_lower.nan() ==> fixed_lower.at_most(r.tc_lo)
            && half_lower.at_most(r.tc_lo) && (r.tc_lo == fixed_lower || r.tc_lo == half_lower),
        !fixed_upper.nan() && !half_upper.nan() ==> r.tc_hi.at_most(fixed_upper)
            && r.tc_hi.at_most(half_upper) && (r.tc_hi == fixed_upper || r.tc_hi == half_upper),
{
    SearchBox { tc_lo: fixed_lower.larger(&half_lower), tc_hi: fixed_upper.smaller(&half_upper) }
}

/// By which bounds of the box a point is out. The cost of such a point grows
/// with the distances from those bounds.
#[derive(Clone, Copy, PartialEq, Eq, Structural, Debug)]
pub struct Violations {
    pub tc_low: bool,
    pub tc_high: bool,
    pub m_low: bool,
    pub m_high: bool,
    pub w_low: bool,
    pub w_high: bool,
}

impl SearchBox {
    /// The bounds that a point is out by.
    pub open spec fn violated_by(self, tc: Double, m: Double, w: Double) -> Violations {
        Violations {
            tc_low: tc.below(self.tc_lo),
            tc_high: self.tc_hi.below(tc),
            m_low: m.below(Double { bits: M_SEARCH_MIN }),
            m_high: (Double { bits: M_SEARCH_MAX }).below(m),
            w_low: w.below(Double { bits: W_SEARCH_MIN }),
            w_high: (Double { bits: W_SEARCH_MAX }).below(w),
        }
    }

    pub fn violations(&self, tc: Double, m: Double, w: Double) -> (r: Violations)
        ensures
            r == self.violated_by(tc, m, w),
    {
        Violations {
            tc_low: tc.lt(&self.tc_lo),
            tc_high: tc.gt(&self.tc_hi),
            m_low: m.lt(&Double { bits: M_SEARCH_MIN }),
            m_high: m.gt(&Double { bits: M_SEARCH_MAX }),
            w_low: w.lt(&Double { bits: W_SEARCH_MIN }),
            w_high: w.gt(&Double { bits: W_SEARCH_MAX }),
        }
    }

    /// A point of the box: none of its bounds is violated.
    pub open spec fn holds(self, tc: Double, m: Double, w: Double) -> bool {
        let v = self.violated_by(tc, m, w);
        !v.tc_low && !v.tc_high && !v.m_low && !v.m_high && !v.w_low && !v.w_high
    }
}

/// Whether a point with this sum of violations is given a penalty instead of
/// being evaluated.
pub fn is_penalized(violation: Double) -> (r: bool)
    ensures
        r == (Double { bits: 0 }).below(violation),
{
    violation.gt(&Double { bits: 0 })
}

/// The cost of an evaluated point: its squared error, or the penalty where that
/// is not finite.
pub fn evaluated_cost(sse: Double) -> (r: Double)
    ensures
        r == if sse.finite() {
            sse
        } else {
            Double { bits: PENALTY }
        },
        r.finite(),
        sse.finite() ==> r == sse,
{
    if sse.is_finite() {
        sse
    } else {
        Double { bits: PENALTY }
    }
}

/// Whether the first step of the critical time goes down: toward the interior
/// of its range, from the half that the starting point lies in.
pub fn steps_down(tc: Double, middle: Double) -> (r: bool)
    ensures
        r == middle.below(tc),
{
    tc.gt(&middle)
}

/// How one restart ended.
#[derive(Clone, Copy, PartialEq, Eq, Structural, Debug)]
pub enum Restart {
    /// The solver failed.
    Failed,
    /// The solver ended with this cost, and with parameters or without.
    Ended { cost: Double, has_params: bool },
}

/// The best restart so far.
#[derive(Clone, Copy, PartialEq, Eq, Structural, Debug)]
pub struct Best {
    pub cost: Double,
    /// Which restart it was.
    pub restart: usize,
}

/// Whether a restart can be the best one.
pub open spec fn is_candidate(r: Restart) -> bool {
    r matches Restart::Ended { cost, has_params } && cost.finite() && has_params
}

/// The cost that a restart ended with.
pub open spec fn cost_of(r: Restart) -> Double {
    match r {
        Restart::Ended { cost, .. } => cost,
        Restart::Failed => Double { bits: 0 },
    }
}

/// The first of the restarts with the lowest cost, where there is a candidate.
pub open spec fn best_of(restarts: Seq<Restart>) -> Option<Best>
    decreases restarts.len(),
{
    if restarts.len() == 0 {
        None
    } else {
        let before = best_of(restarts.drop_last());
        let last = restarts.last();
        if is_candidate(last) && (before matches Some(b) ==> cost_of(last).below(b.cost)) {
            Some(Best { cost: cost_of(last), restart: (restarts.len() - 1) as usize })
        } else {
            before
        }
    }
}

/// Whether the restarts made so far are enough: all of them are made, or the
/// best one is already good enough.
pub open spec fn is_over(restarts: Seq<Restart>, good_enough: Double) -> bool {
    restarts.len() >= NUM_RESTARTS || (best_of(restarts) matches Some(b) && b.cost.at_most(
        good_enough,
    ))
}

/// A search in progress. The restarts made so far are its view.
pub struct FitSearch {
    best: Option<Best>,
    made: usize,
    good_enough: Double,
    restarts: Ghost<Seq<Restart>>,
}

impl View for FitSearch {
    type V = Seq<Restart>;

    closed spec fn view(&self) -> Seq<Restart> {
        self.restarts@
    }
}

impl FitSearch {
    /// The cost at which the search ends early.
    pub closed spec fn threshold(&self) -> Double {
        self.good_enough
    }

    /// The search remembers the best of its restarts and their number.
    pub closed spec fn valid(&self) -> bool {
        &&& self.best == best_of(self.restarts@)
        &&& self.made == self.restarts@.len()
        &&& self.made <= NUM_RESTARTS
    }

    /// Whether another restart is to be made.
    pub fn goes_on(&self) -> (r: bool)
        requires
            self.valid(),
        ensures
            r == !is_over(self@, self.threshold()),
    {
        if self.made >= NUM_RESTARTS {
            return false;
        }
        match self.best {
            Some(b) => !b.cost.le(&self.good_enough),
            None => true,
        }
    }

    /// Takes note of how the next restart ended.
    pub fn record(&mut self, restart: Restart)
        requires
            old(self).valid(),
            !is_over(old(self)@, old(self).threshold()),
        ensures
            final(self).valid(),
            final(self)@ == old(self)@.push(restart),
            final(self).threshold() == old(self).threshold(),
    {
        proof {
            assert(self.restarts@.push(restart).drop_last() =~= self.restarts@);
        }
        if let Restart::Ended { cost, has_params } = restart {
            if cost.is_finite() && has_params {
                let better = match self.best {
                    Some(b) => cost.lt(&b.cost),
                    None => true,
                };
                if better {
                    self.best = Some(Best { cost, restart: self.made });
                }
            }
        }
        self.made = self.made + 1;
        self.restarts = Ghost(self.restarts@.push(restart));
    }

    /// The restart that the fit is taken from: the best one, unless even that
    /// has the cost of a penalty.
    pub fn finish(&self) -> (r: Result<Best, FitError>)
        requires
            self.valid(),
        ensures
            r == (match best_of(self@) {
                Some(b) => if b.cost.below(Double { bits: PENALTY }) {
                    Ok(b)
                } else {
                    Err(FitError::NoValidFit)
                },
                None => Err(FitError::NoValidFit),
            }),
            r is Ok <==> exists|k: int|
                0 <= k < self@.len() && ((#[trigger] self@[k]) matches Restart::Ended {
                    cost,
                    has_params,
                } && has_params && cost.finite() && cost.below(Double { bits: PENALTY })),
            r matches Ok(b) ==> b.restart < self@.len() && self@[b.restart as int] == (
            Restart::Ended { cost: b.cost, has_params: true }),
    {
        proof {
            law_best_is_the_first_of_the_lowest(self@);
            if exists|k: int|
                0 <= k < self@.len() && ((#[trigger] self@[k]) matches Restart::Ended {
                    cost,
                    has_params,
                } && has_params && cost.finite() && cost.below(Double { bits: PENALTY })) {
                let k = choose|k: int|
                    0 <= k < self@.len() && ((#[trigger] self@[k]) matches Restart::Ended {
                        cost,
                        has_params,
                    } && has_params && cost.finite() && cost.below(Double { bits: PENALTY }));
                let b = best_of(self@).unwrap();
                assert(b.cost.at_most(cost_of(self@[k])));
            }
            if let Some(b) = best_of(self@) {
                assert(self@[b.restart as int] == (Restart::Ended {
                    cost: b.cost,
                    has_params: true,
                }));
            }
        }
        match self.best {
            Some(b) => if b.cost.lt(&Double { bits: PENALTY }) {
                Ok(b)
            } else {
                Err(FitError::NoValidFit)
            },
            None => Err(FitError::NoValidFit),
        }
    }
}

/// Begins the search over a series, or refuses it: a fit needs at least ten
/// observations, as many times as prices. The search ends early once the
/// best cost is at most `good_enough`.
pub fn fit_argmin(times: usize, prices: usize, good_enough: Double) -> (r: Result<
    FitSearch,
    FitError,
>)
    ensures
        times < MIN_OBSERVATIONS || times != prices ==> r == Err::<FitSearch, FitError>(
            FitError::BadObservations,
        ),
        !(times < MIN_OBSERVATIONS || times != prices) ==> {
            &&& r is Ok
            &&& r.unwrap().valid()
            &&& r.unwrap()@ == Seq::<Restart>::empty()
            &&& r.unwrap().threshold() == good_enough
        },
{
    if times < MIN_OBSERVATIONS || times != prices {
        return Err(FitError::BadObservations);
    }
    Ok(FitSearch { best: None, made: 0, good_enough, restarts: Ghost(Seq::empty()) })
}

/// The linear parameters at the optimum, where all four are finite.
pub fn checked_linear(a: Double, b: Double, c1: Double, c2: Double) -> (r: Result<
    (Double, Double, Double, Double),
    FitError,
>)
    ensures
        r == (if a.finite() && b.finite() && c1.finite() && c2.finite() {
            Ok::<(Double, Double, Double, Double), FitError>((a, b, c1, c2))
        } else {
            Err(FitError::LinearSolveFailed)
        }),
        r is Ok <==> a.finite() && b.finite() && c1.finite() && c2.finite(),
        r matches Ok(t) ==> t.0 == a && t.1 == b && t.2 == c1 && t.3 == c2,
{
    if a.is_finite() && b.is_finite() && c1.is_finite() && c2.is_finite() {
        Ok((a, b, c1, c2))
    } else {
        Err(FitError::LinearSolveFailed)
    }
}

/// The best restart is one of the candidates, none of them has a lower cost,
/// and there is a best one as soon as there is a candidate.
pub proof fn law_best_has_lowest_cost(restarts: Seq<Restart>, k: int)
    requires
        0 <= k < restarts.len() <= usize::MAX,
        is_candidate(restarts[k]),
    ensures
        best_of(restarts) matches Some(b) && {
            &&& 0 <= b.restart < restarts.len()
            &&& is_candidate(restarts[b.restart as int])
            &&& b.cost == cost_of(restarts[b.restart as int])
            &&& b.cost.at_most(cost_of(restarts[k]))
        },
    decreases restarts.len(),
{
    let rest = restarts.drop_last();
    lemma_best(restarts);
    if k < rest.len() {
        assert(rest[k] == restarts[k]);
        law_best_has_lowest_cost(rest, k);
    }
}

proof fn lemma_best(restarts: Seq<Restart>)
    requires
        restarts.len() <= usize::MAX,
    ensures
        best_of(restarts) matches Some(b) ==> {
            &&& 0 <= b.restart < restarts.len()
            &&& is_candidate(restarts[b.restart as int])
            &&& b.cost == cost_of(restarts[b.restart as int])
        },
    decreases restarts.len(),
{
    if restarts.len() > 0 {
        lemma_best(restarts.drop_last());
    }
}

/// Another restart never makes the best cost worse.
pub proof fn law_restarts_never_worsen(restarts: Seq<Restart>, next: Restart)
    requires
        restarts.len() < usize::MAX,
        best_of(restarts) is Some,
    ensures
        best_of(restarts.push(next)) is Some,
        best_of(restarts.push(next)).unwrap().cost.at_most(best_of(restarts).unwrap().cost),
{
    lemma_best(restarts);
    assert(restarts.push(next).drop_last() =~= restarts);
}

/// The box of the search is wider than the ranges of the qualification: every
/// fit that qualifies lies in the box of the same limits, so that a fit at a
/// bound of the box is never taken for evidence because of that bound.
pub proof fn law_qualified_fits_lie_in_the_box(
    row: FitRow,
    error_limit: Option<Double>,
    bounds: SearchBox,
)
    requires
        row.qualifies(error_limit),
        row.fixed_lower matches Some(x) && row.half_lower matches Some(y) && !x.nan() && !y.nan()
            && bounds.tc_lo == x.larger_of(y),
        row.fixed_upper matches Some(x) && row.half_upper matches Some(y) && !x.nan() && !y.nan()
            && bounds.tc_hi == x.smaller_of(y),
    ensures
        row.tc matches Some(tc) && row.m matches Some(m) && row.w matches Some(w) && bounds.holds(
            tc,
            m,
            w,
        ),
        row.m matches Some(m) && (Double { bits: M_SEARCH_MIN }).below(m) && m.below(
            Double { bits: M_SEARCH_MAX },
        ),
        row.w matches Some(w) && (Double { bits: W_SEARCH_MIN }).below(w) && w.below(
            Double { bits: W_SEARCH_MAX },
        ),
{
}

/// The best restart is the first of those with the lowest cost among the
/// restarts that ended with parameters and a finite cost, and there is none
/// exactly where no restart did.
pub proof fn law_best_is_the_first_of_the_lowest(restarts: Seq<Restart>)
    requires
        restarts.len() <= usize::MAX,
    ensures
        best_of(restarts) matches Some(b) ==> {
            &&& b.restart < restarts.len()
            &&& restarts[b.restart as int] == (Restart::Ended { cost: b.cost, has_params: true })
            &&& b.cost.finite()
            &&& forall|k: int|
                0 <= k < restarts.len() ==> ((#[trigger] restarts[k]) matches Restart::Ended {
                    cost,
                    has_params,
                } ==> has_params && cost.finite() ==> b.cost.at_most(cost) && (k < b.restart
                    ==> b.cost.below(cost)))
        },
        best_of(restarts) is None ==> forall|k: int|
            0 <= k < restarts.len() ==> ((#[trigger] restarts[k]) matches Restart::Ended {
                cost,
                has_params,
            } ==> !has_params || !cost.finite()),
    decreases restarts.len(),
{
    if restarts.len() > 0 {
        let rest = restarts.drop_last();
        law_best_is_the_first_of_the_lowest(rest);
        assert forall|k: int| 0 <= k < rest.len() implies rest[k] == #[trigger] restarts[k] by {}
        if let Some(b) = best_of(rest) {
            assert(rest[b.restart as int] == restarts[b.restart as int]);
        }
    }
}

/// The search is over once fifteen restarts are made, or one of them ended with
/// parameters and a finite cost that is good enough; never before.
pub proof fn law_search_ends_with_a_good_restart(restarts: Seq<Restart>, good_enough: Double)
    requires
        restarts.len() <= usize::MAX,
    ensures
        is_over(restarts, good_enough) <==> restarts.len() >= 15 || exists|k: int|
            0 <= k < restarts.len() && ((#[trigger] restarts[k]) matches Restart::Ended {
                cost,
                has_params,
            } && has_params && cost.finite() && cost.at_most(good_enough)),
{
    law_best_is_the_first_of_the_lowest(restarts);
    if let Some(b) = best_of(restarts) {
        assert(restarts[b.restart as int] == (Restart::Ended { cost: b.cost, has_params: true }));
        if exists|k: int|
            0 <= k < restarts.len() && ((#[trigger] restarts[k]) matches Restart::Ended {
                cost,
                has_params,
            } && has_params && cost.finite() && cost.at_most(good_enough)) {
            let k = choose|k: int|
                0 <= k < restarts.len() && ((#[trigger] restarts[k]) matches Restart::Ended {
                    cost,
                    has_params,
                } && has_params && cost.finite() && cost.at_most(good_enough));
            assert(b.cost.at_most(cost_of(restarts[k])));
        }
    }
}

/// A point lies in the box exactly where none of its three coordinates is below
/// or above its range.
pub proof fn law_points_of_the_box(bounds: SearchBox, tc: Double, m: Double, w: Double)
    requires
        !tc.nan() && !m.nan() && !w.nan(),
        !bounds.tc_lo.nan() && !bounds.tc_hi.nan(),
    ensures
        bounds.holds(tc, m, w) <==> {
            &&& bounds.tc_lo.at_most(tc) && tc.at_most(bounds.tc_hi)
            &&& (Double { bits: M_SEARCH_MIN }).at_most(m) && m.at_most(
                Double { bits: M_SEARCH_MAX },
            )
            &&& (Double { bits: W_SEARCH_MIN }).at_most(w) && w.at_most(
                Double { bits: W_SEARCH_MAX },
            )
        },
        bounds.violated_by(tc, m, w).tc_low <==> !bounds.tc_lo.at_most(tc),
        bounds.violated_by(tc, m, w).tc_high <==> !tc.at_most(bounds.tc_hi),
        bounds.violated_by(tc, m, w).m_low <==> !(Double { bits: M_SEARCH_MIN }).at_most(m),
        bounds.violated_by(tc, m, w).m_high <==> !m.at_most(Double { bits: M_SEARCH_MAX }),
        bounds.violated_by(tc, m, w).w_low <==> !(Double { bits: W_SEARCH_MIN }).at_most(w),
        bounds.violated_by(tc, m, w).w_high <==> !w.at_most(Double { bits: W_SEARCH_MAX }),
{
}

} // verus!

//! The normalized residual indicator (arXiv:2510.10878).
//!
//! For each window end date the median residual of the observed price against
//! the fitted value is taken across the nested windows, and divided by the
//! running maximum of the absolute medians, so that it lies in [-1, 1]. A
//! positive value means a price above the fitted bubble trajectory.
use crate::double::Double;
use crate::groups::{group_rows, order_by_double, order_by_rank};
use vstd::prelude::*;

verus! {

/// Indicator days before the normalized residual is given: the running maximum
/// makes the first observation one by construction, so the early values mean
/// nothing until the maximum has settled.
pub const RESIDUAL_BURN_IN: usize = 20;

/// 1e-8, the least distance in time from the critical time.
pub const LEAST_DISTANCE: u64 = 0x3E45_798E_E230_8C3A;

/// The columns of a fit that its residual is taken from.
pub struct ResidualRow {
    pub t2_d: Option<i32>,
    pub t2: Option<Double>,
    pub p2: Option<Double>,
    pub tc: Option<Double>,
    pub m: Option<Double>,
    pub w: Option<Double>,
    pub a: Option<Double>,
    pub b: Option<Double>,
    pub c1: Option<Double>,
    pub c2: Option<Double>,
}

/// A fit with no gap in the columns that its residual is taken from.
#[derive(Clone, Copy, PartialEq, Eq, Structural, Debug)]
pub struct CompleteRow {
    pub t2_d: i32,
    pub t2: Double,
    pub p2: Double,
    pub tc: Double,
    pub m: Double,
    pub w: Double,
    pub a: Double,
    pub b: Double,
    pub c1: Double,
    pub c2: Double,
}

impl ResidualRow {
    pub open spec fn is_complete(self) -> bool {
        &&& self.t2_d is Some
        &&& self.t2 is Some
        &&& self.p2 is Some
        &&& self.tc is Some
        &&& self.m is Some
        &&& self.w is Some
        &&& self.a is Some
        &&& self.b is Some
        &&& self.c1 is Some
        &&& self.c2 is Some
    }

    pub open spec fn completed(self) -> CompleteRow {
        CompleteRow {
            t2_d: self.t2_d.unwrap(),
            t2: self.t2.unwrap(),
            p2: self.p2.unwrap(),
            tc: self.tc.unwrap(),
            m: self.m.unwrap(),
            w: self.w.unwrap(),
            a: self.a.unwrap(),
            b: self.b.unwrap(),
            c1: self.c1.unwrap(),
            c2: self.c2.unwrap(),
        }
    }

    fn complete(&self) -> (r: Option<CompleteRow>)
        ensures
            r is Some <==> self.is_complete(),
            r matches Some(row) ==> row == self.completed(),
    {
        match (self.t2_d, self.t2, self.p2, self.tc, self.m) {
            (Some(t2_d), Some(t2), Some(p2), Some(tc), Some(m)) => match (
                self.w,
                self.a,
                self.b,
                self.c1,
                self.c2,
            ) {
                (Some(w), Some(a), Some(b), Some(c1), Some(c2)) => Some(
                    CompleteRow { t2_d, t2, p2, tc, m, w, a, b, c1, c2 },
                ),
                _ => None,
            },
            _ => None,
        }
    }
}

/// The rows without a gap, in their order.
pub open spec fn without_gaps(rows: Seq<ResidualRow>) -> Seq<CompleteRow>
    decreases rows.len(),
{
    if rows.len() == 0 {
        Seq::empty()
    } else if rows.last().is_complete() {
        without_gaps(rows.drop_last()).push(rows.last().completed())
    } else {
        without_gaps(rows.drop_last())
    }
}

/// The rows without a gap.
pub fn complete_rows(rows: &Vec<ResidualRow>) -> (out: Vec<CompleteRow>)
    ensures
        out@ == without_gaps(rows@),
{
    let mut out: Vec<CompleteRow> = Vec::new();
    let mut i: usize = 0;
    while i < rows.len()
        invariant
            i <= rows@.len(),
            out@ == without_gaps(rows@.take(i as int)),
        decreases rows@.len() - i,
    {
        proof {
            assert(rows@.take(i + 1).drop_last() =~= rows@.take(i as int));
        }
        if let Some(row) = rows[i].complete() {
            out.push(row);
        }
        i += 1;
    }
    proof {
        assert(rows@.take(rows@.len() as int) =~= rows@);
    }
    out
}

/// The distance of a time from the critical time, kept away from zero so that
/// its logarithm stays a number.
pub fn clamped_distance(difference: Double) -> (r: Double)
    ensures
        r == difference.magnitude_of().larger_of(Double { bits: LEAST_DISTANCE }),
        (Double { bits: LEAST_DISTANCE }).at_most(r),
        (Double { bits: LEAST_DISTANCE }).below(difference.magnitude_of()) ==> r
            == difference.magnitude_of(),
{
    difference.abs().larger(&Double { bits: LEAST_DISTANCE })
}

/// The rows whose residual is finite.
pub open spec fn finite_rows(eps: Seq<Double>) -> Seq<usize>
    decreases eps.len(),
{
    if eps.len() == 0 {
        Seq::empty()
    } else if eps.last().finite() {
        finite_rows(eps.drop_last()).push((eps.len() - 1) as usize)
    } else {
        finite_rows(eps.drop_last())
    }
}

/// What a column holds at the given rows.
pub open spec fn picked<V>(column: Seq<V>, rows: Seq<usize>) -> Seq<V> {
    Seq::new(rows.len(), |k: int| column[rows[k] as int])
}

/// The finite residuals of one date, in the order of their rows.
pub open spec fn residuals_on(dates: Seq<i32>, eps: Seq<Double>, date: i32) -> Seq<Double> {
    let kept = finite_rows(eps);
    picked(picked(eps, kept), crate::groups::rows_with(picked(dates, kept), date))
}

/// `sorted` holds the numbers of `s` in ascending order.
pub open spec fn is_sorted_copy(sorted: Seq<Double>, s: Seq<Double>) -> bool {
    exists|order: Seq<usize>|
        #![trigger picked(s, order)]
        crate::groups::is_stable_order(order, crate::groups::double_ranks(s)) && sorted == picked(
            s,
            order,
        )
}

/// The residuals of one date, in ascending order.
pub struct DateResiduals {
    pub date: i32,
    pub values: Vec<Double>,
}

fn pick(column: &Vec<Double>, rows: &Vec<usize>) -> (r: Vec<Double>)
    requires
        forall|k: int| 0 <= k < rows@.len() ==> #[trigger] rows@[k] < column@.len(),
    ensures
        r@ == picked(column@, rows@),
{
    let mut out: Vec<Double> = Vec::new();
    let mut i: usize = 0;
    while i < rows.len()
        invariant
            forall|k: int| 0 <= k < rows@.len() ==> #[trigger] rows@[k] < column@.len(),
            i <= rows@.len(),
            out@.len() == i,
            forall|k: int| 0 <= k < i ==> #[trigger] out@[k] == column@[rows@[k] as int],
        decreases rows@.len() - i,
    {
        out.push(column[rows[i]]);
        i += 1;
    }
    out
}

/// The finite residuals of each date, the dates in ascending order.
pub fn residual_groups(dates: &Vec<i32>, eps: &Vec<Double>) -> (out: Vec<DateResiduals>)
    requires
        dates@.len() == eps@.len(),
    ensures
        forall|i: int, j: int|
            0 <= i < j < out@.len() ==> (#[trigger] out@[i]).date < (#[trigger] out@[j]).date,
        forall|k: int|
            0 <= k < dates@.len() && (#[trigger] eps@[k]).finite() ==> exists|i: int|
                0 <= i < out@.len() && (#[trigger] out@[i]).date == dates@[k],
        forall|i: int|
            0 <= i < out@.len() ==> (#[trigger] out@[i]).values@.len() > 0 && is_sorted_copy(
                out@[i].values@,
                residuals_on(dates@, eps@, out@[i].date),
            ),
{
    let ghost kept = finite_rows(eps@);
    let mut kept_dates: Vec<i32> = Vec::new();
    let mut kept_eps: Vec<Double> = Vec::new();
    let mut i: usize = 0;
    while i < eps.len()
        invariant
            dates@.len() == eps@.len(),
            i <= eps@.len(),
            kept_dates@ =~= picked(dates@, finite_rows(eps@.take(i as int))),
            kept_eps@ =~= picked(eps@, finite_rows(eps@.take(i as int))),
        decreases eps@.len() - i,
    {
        proof {
            assert(eps@.take(i + 1).drop_last() =~= eps@.take(i as int));
        }
        if eps[i].is_finite() {
            kept_dates.push(dates[i]);
            kept_eps.push(eps[i]);
        }
        i += 1;
    }
    proof {
        assert(eps@.take(eps@.len() as int) =~= eps@);
    }
    let n: usize = kept_dates.len();
    let groups = group_rows(&kept_dates);
    let ghost column = kept_dates@;
    let ghost all = crate::groups::distinct(column);
    proof {
        assert(crate::groups::values(kept_dates@) =~= column);
        crate::groups::law_distinct(column);
    }
    let mut group_dates: Vec<i32> = Vec::new();
    let mut ranks: Vec<i128> = Vec::new();
    let mut g: usize = 0;
    while g < groups.len()
        invariant
            column == kept_dates@,
            column.len() == n,
            all == crate::groups::distinct(column),
            forall|v| #[trigger] all.contains(v) <==> column.contains(v),
            groups@.len() == all.len(),
            forall|h: int|
                0 <= h < groups@.len() ==> (#[trigger] groups@[h])@ == crate::groups::rows_with(
                    column,
                    all[h],
                ),
            g <= groups@.len(),
            group_dates@.len() == g,
            ranks@.len() == g,
            forall|h: int| 0 <= h < g ==> #[trigger] group_dates@[h] == all[h],
            forall|h: int| 0 <= h < g ==> #[trigger] ranks@[h] == all[h],
        decreases groups@.len() - g,
    {
        proof {
            crate::groups::law_rows_with(column, all[g as int]);
            assert(all.contains(all[g as int]));
            let i = choose|i: int| 0 <= i < column.len() && column[i] == all[g as int];
            assert(crate::groups::rows_with(column, all[g as int]).contains(i as usize));
        }
        let leader: usize = groups[g][0];
        let date: i32 = kept_dates[leader];
        proof {
            assert(column[groups@[g as int]@[0] as int] == all[g as int]);
        }
        group_dates.push(date);
        ranks.push(date as i128);
        g += 1;
    }
    let order = order_by_rank(&ranks);
    let mut out: Vec<DateResiduals> = Vec::new();
    let mut p: usize = 0;
    while p < order.len()
        invariant
            column == kept_dates@,
            column.len() == n,
            kept == finite_rows(eps@),
            kept_dates@ == picked(dates@, kept),
            kept_eps@ == picked(eps@, kept),
            all == crate::groups::distinct(column),
            forall|v| #[trigger] all.contains(v) <==> column.contains(v),
            groups@.len() == all.len(),
            group_dates@ =~= all,
            ranks@.len() == all.len(),
            forall|h: int| 0 <= h < all.len() ==> #[trigger] ranks@[h] == all[h],
            forall|h: int|
                0 <= h < groups@.len() ==> (#[trigger] groups@[h])@ == crate::groups::rows_with(
                    column,
                    all[h],
                ),
            crate::groups::is_stable_order(order@, crate::groups::as_ints(ranks@)),
            p <= order@.len(),
            out@.len() == p,
            forall|q: int| 0 <= q < p ==> (#[trigger] out@[q]).date == all[order@[q] as int],
            forall|q: int|
                0 <= q < p ==> (#[trigger] out@[q]).values@.len() > 0 && is_sorted_copy(
                    out@[q].values@,
                    residuals_on(dates@, eps@, out@[q].date),
                ),
        decreases order@.len() - p,
    {
        let g: usize = order[p];
        proof {
            crate::groups::law_rows_with(column, all[g as int]);
            assert(all.contains(all[g as int]));
            let i = choose|i: int| 0 <= i < column.len() && column[i] == all[g as int];
            assert(crate::groups::rows_with(column, all[g as int]).contains(i as usize));
        }
        let rows: &Vec<usize> = &groups[g];
        let unsorted = pick(&kept_eps, rows);
        let by_value = order_by_double(&unsorted);
        let values = pick(&unsorted, &by_value);
        proof {
            assert(unsorted@ == residuals_on(dates@, eps@, all[g as int]));
            assert(is_sorted_copy(values@, unsorted@));
        }
        out.push(DateResiduals { date: group_dates[g], values });
        p += 1;
    }
    proof {
        assert forall|i: int, j: int| 0 <= i < j < out@.len() implies (#[trigger] out@[i]).date < (
        #[trigger] out@[j]).date by {
            let a = order@[i];
            let b = order@[j];
            assert(crate::groups::ranked_before(crate::groups::as_ints(ranks@), a, b));
            assert(a != b);
            assert(all[a as int] != all[b as int]);
        }
        assert forall|k: int|
            0 <= k < dates@.len() && (#[trigger] eps@[k]).finite() implies exists|i: int|
            0 <= i < out@.len() && (#[trigger] out@[i]).date == dates@[k] by {
            lemma_finite_row(eps@, k);
            let r = choose|r: int| 0 <= r < kept.len() && kept[r] == k as usize;
            assert(column[r] == dates@[k]);
            assert(column.contains(dates@[k]));
            assert(all.contains(dates@[k]));
            let h = choose|h: int| 0 <= h < all.len() && all[h] == dates@[k];
            lemma_arrangement_covers(order@, all.len(), h);
            let q = choose|q: int| 0 <= q < order@.len() && order@[q] == h as usize;
            assert(out@[q].date == dates@[k]);
        }
    }
    out
}

proof fn lemma_finite_row(eps: Seq<Double>, k: int)
    requires
        0 <= k < eps.len() <= usize::MAX,
        eps[k].finite(),
    ensures
        finite_rows(eps).contains(k as usize),
    decreases eps.len(),
{
    if k == eps.len() - 1 {
        assert(finite_rows(eps).last() == k as usize);
    } else {
        lemma_finite_row(eps.drop_last(), k);
        let before = finite_rows(eps.drop_last());
        let r = choose|r: int| 0 <= r < before.len() && before[r] == k as usize;
        assert(finite_rows(eps)[r] == k as usize);
    }
}

/// An arrangement of rows leaves none of them out.
proof fn lemma_arrangement_covers(order: Seq<usize>, n: nat, h: int)
    requires
        crate::groups::is_arrangement(order, n),
        0 <= h < n <= usize::MAX,
    ensures
        order.contains(h as usize),
{
    let all = Set::new(|x: usize| x < n);
    let got = order.to_set();
    order.unique_seq_to_set();
    vstd::set_lib::lemma_int_range(0, n as int);
    let ints = vstd::set_lib::set_int_range(0, n as int);
    let image = got.map(|x: usize| x as int);
    assert(image.subset_of(ints)) by {
        assert forall|y: int| image.contains(y) implies ints.contains(y) by {
            let x = choose|x: usize| got.contains(x) && y == x as int;
            let k = choose|k: int| 0 <= k < order.len() && order[k] == x;
            assert(order[k] < n);
        }
    }
    vstd::set_lib::lemma_map_size(got, image, |x: usize| x as int);
    vstd::set_lib::lemma_subset_equality(image, ints);
    assert(ints.contains(h));
    assert(image.contains(h));
    let x = choose|x: usize| got.contains(x) && h == x as int;
    assert(order.contains(h as usize));
}

/// The middle of an ordered list: one value where its length is odd, the two
/// values around the middle where it is even.
#[derive(Clone, Copy, PartialEq, Eq, Structural, Debug)]
pub enum Middle {
    One(Double),
    Two(Double, Double),
}

/// The middle of `s`.
pub open spec fn middle(s: Seq<Double>) -> Middle {
    if s.len() % 2 == 1 {
        Middle::One(s[(s.len() / 2) as int])
    } else {
        Middle::Two(s[s.len() / 2 - 1], s[(s.len() / 2) as int])
    }
}

/// What the median of an ordered list is taken from.
pub fn middle_of(values: &Vec<Double>) -> (r: Middle)
    requires
        values@.len() > 0,
    ensures
        r == middle(values@),
        r matches Middle::One(x) ==> exists|p: int|
            0 <= p < values@.len() && p == values@.len() - 1 - p && x == #[trigger] values@[p],
        r matches Middle::Two(x, y) ==> exists|p: int|
            0 <= p < values@.len() - 1 && p == values@.len() - 1 - (p + 1) && x
                == #[trigger] values@[p] && y == values@[p + 1],
{
    proof {
        law_middle_parts_in_halves(values@);
    }
    let n: usize = values.len();
    if n % 2 == 1 {
        Middle::One(values[n / 2])
    } else {
        Middle::Two(values[n / 2 - 1], values[n / 2])
    }
}

/// The greatest absolute median of the first `n` dates, at least zero.
pub open spec fn running_max(medians: Seq<Double>, n: nat) -> Double
    decreases n,
{
    if n == 0 {
        Double { bits: 0 }
    } else {
        running_max(medians, (n - 1) as nat).larger_of(medians[n - 1].magnitude_of())
    }
}

/// The indicator of one date: zero, or the median over the running maximum.
#[derive(Clone, Copy, PartialEq, Eq, Structural, Debug)]
pub enum Normalized {
    Zero,
    Quotient { median: Double, scale: Double },
}

/// The indicator of the date `k`: zero during the burn-in and while no median
/// has differed from zero, the median over the running maximum after that.
pub open spec fn normalized(medians: Seq<Double>, k: int) -> Normalized {
    let scale = running_max(medians, (k + 1) as nat);
    if k < RESIDUAL_BURN_IN || scale.at_most(Double { bits: 0 }) {
        Normalized::Zero
    } else {
        Normalized::Quotient { median: medians[k], scale }
    }
}

/// The normalized residual indicator, from the medians of the dates in
/// ascending order of date.
pub fn compute_residual_indicator(medians: &Vec<Double>) -> (out: Vec<Normalized>)
    ensures
        out@ == Seq::new(medians@.len(), |k: int| normalized(medians@, k)),
{
    let zero = Double { bits: 0 };
    let mut out: Vec<Normalized> = Vec::new();
    let mut scale = zero;
    let mut k: usize = 0;
    while k < medians.len()
        invariant
            zero == (Double { bits: 0 }),
            k <= medians@.len(),
            scale == running_max(medians@, k as nat),
            out@.len() == k,
            forall|j: int| 0 <= j < k ==> #[trigger] out@[j] == normalized(medians@, j),
        decreases medians@.len() - k,
    {
        scale = scale.larger(&medians[k].abs());
        if k < RESIDUAL_BURN_IN || scale.le(&zero) {
            out.push(Normalized::Zero);
        } else {
            out.push(Normalized::Quotient { median: medians[k], scale });
        }
        k += 1;
    }
    out
}

proof fn lemma_running_max(medians: Seq<Double>, n: nat)
    requires
        n <= medians.len(),
    ensures
        !running_max(medians, n).nan(),
        running_max(medians, n).key() >= 0,
        forall|j: int|
            0 <= j < n && !(#[trigger] medians[j]).nan() ==> medians[j].magnitude_of().at_most(
                running_max(medians, n),
            ),
    decreases n,
{
    if n > 0 {
        lemma_running_max(medians, (n - 1) as nat);
    }
}

/// The normalized residual lies in [-1, 1]: the absolute median is at most the
/// positive scale it is divided by.
pub proof fn law_normalized_residual_is_bounded(medians: Seq<Double>, k: int)
    requires
        0 <= k < medians.len(),
        !medians[k].nan(),
    ensures
        normalized(medians, k) matches Normalized::Quotient { median, scale } ==> {
            &&& median == medians[k]
            &&& (Double { bits: 0 }).below(scale)
            &&& median.magnitude_of().at_most(scale)
        },
{
    lemma_running_max(medians, (k + 1) as nat);
}

/// The scale never falls from one date to a later one.
pub proof fn law_scale_never_falls(medians: Seq<Double>, j: nat, k: nat)
    requires
        j <= k <= medians.len(),
    ensures
        running_max(medians, j).at_most(running_max(medians, k)),
    decreases k - j,
{
    lemma_running_max(medians, j);
    if j < k {
        law_scale_never_falls(medians, j, (k - 1) as nat);
        lemma_running_max(medians, k);
    }
}

/// No date of the burn-in has an indicator other than zero.
pub proof fn law_burn_in_is_zero(medians: Seq<Double>, k: int)
    requires
        0 <= k < medians.len(),
        k < RESIDUAL_BURN_IN,
    ensures
        normalized(medians, k) == Normalized::Zero,
{
}

/// An ordered list is ascending, so that its middle parts it in halves.
pub proof fn law_sorted_copy_ascends(sorted: Seq<Double>, s: Seq<Double>, i: int, j: int)
    requires
        is_sorted_copy(sorted, s),
        0 <= i <= j < sorted.len(),
    ensures
        sorted.len() == s.len(),
        sorted[i].rank() <= sorted[j].rank(),
        s.contains(sorted[i]),
{
    let order = choose|order: Seq<usize>|
        #![trigger picked(s, order)]
        crate::groups::is_stable_order(order, crate::groups::double_ranks(s)) && sorted == picked(
            s,
            order,
        );
    assert(order[i] < s.len());
    assert(sorted[i] == s[order[i] as int]);
    if i < j {
        assert(crate::groups::ranked_before(crate::groups::double_ranks(s), order[i], order[j]));
    }
}

/// The middle parts a list in halves: one value with as many places before it
/// as after it, or two neighbours with as many places before the first as after
/// the second.
pub proof fn law_middle_parts_in_halves(s: Seq<Double>)
    requires
        s.len() > 0,
    ensures
        middle(s) matches Middle::One(x) ==> exists|p: int|
            0 <= p < s.len() && p == s.len() - 1 - p && x == #[trigger] s[p],
        middle(s) matches Middle::Two(x, y) ==> exists|p: int|
            0 <= p < s.len() - 1 && p == s.len() - 1 - (p + 1) && x == #[trigger] s[p] && y == s[p
                + 1],
{
    let n = s.len() as int;
    match middle(s) {
        Middle::One(x) => {
            assert(x == s[n / 2] && n / 2 == n - 1 - n / 2);
        },
        Middle::Two(x, y) => {
            assert(x == s[n / 2 - 1] && n / 2 - 1 == n - 1 - n / 2);
        },
    }
}

/// The middle of a list does not depend on its direction: that of the reversed
/// list is the same, its two values exchanged.
pub proof fn law_middle_of_the_reversed(s: Seq<Double>)
    requires
        s.len() > 0,
    ensures
        middle(s.reverse()) == (match middle(s) {
            Middle::One(x) => Middle::One(x),
            Middle::Two(x, y) => Middle::Two(y, x),
        }),
{
}

/// At most half of an ordered list lies below its middle, and at most half
/// above it: every value up to its place ranks no higher than it, every value
/// from there on no lower.
pub proof fn law_middle_lies_between(sorted: Seq<Double>, s: Seq<Double>, i: int)
    requires
        is_sorted_copy(sorted, s),
        0 <= i < sorted.len(),
    ensures
        ({
            let (x, y) = match middle(sorted) {
                Middle::One(x) => (x, x),
                Middle::Two(x, y) => (x, y),
            };
            &&& 2 * i < sorted.len() ==> sorted[i].rank() <= y.rank()
            &&& 2 * i >= sorted.len() ==> sorted[i].rank() >= x.rank()
            &&& 2 * (i + 1) <= sorted.len() ==> sorted[i].rank() <= x.rank()
            &&& 2 * i >= sorted.len() ==> sorted[i].rank() >= y.rank()
        }),
{
    let n = sorted.len() as int;
    if i <= n / 2 {
        law_sorted_copy_ascends(sorted, s, i, n / 2);
    }
    if i >= n / 2 {
        law_sorted_copy_ascends(sorted, s, n / 2, i);
    }
    if n % 2 == 0 {
        law_sorted_copy_ascends(sorted, s, n / 2 - 1, n / 2);
        if i <= n / 2 - 1 {
            law_sorted_copy_ascends(sorted, s, i, n / 2 - 1);
        }
    }
}

/// An ordered list leaves out none of the numbers it orders.
pub proof fn law_sorted_copy_is_complete(sorted: Seq<Double>, s: Seq<Double>, i: int)
    requires
        is_sorted_copy(sorted, s),
        0 <= i < s.len() <= usize::MAX,
    ensures
        sorted.contains(s[i]),
{
    let order = choose|order: Seq<usize>|
        #![trigger picked(s, order)]
        crate::groups::is_stable_order(order, crate::groups::double_ranks(s)) && sorted == picked(
            s,
            order,
        );
    lemma_arrangement_covers(order, s.len(), i);
    let k = choose|k: int| 0 <= k < order.len() && order[k] == i as usize;
    assert(sorted[k] == s[i]);
}

/// The residuals of a date are the finite ones among its rows, all of them, in
/// the order of their rows.
pub proof fn law_residuals_on_a_date(dates: Seq<i32>, eps: Seq<Double>, date: i32)
    requires
        dates.len() == eps.len() <= usize::MAX,
    ensures
        residuals_on(dates, eps, date) == Seq::new(eps.len(), |i: int| (dates[i], eps[i])).filter(
            |p: (i32, Double)| p.0 == date && p.1.finite(),
        ).map_values(|p: (i32, Double)| p.1),
    decreases eps.len(),
{
    reveal(Seq::filter);
    let both = Seq::new(eps.len(), |i: int| (dates[i], eps[i]));
    let keep = |p: (i32, Double)| p.0 == date && p.1.finite();
    let value = |p: (i32, Double)| p.1;
    if eps.len() == 0 {
        assert(residuals_on(dates, eps, date) =~= both.filter(keep).map_values(value));
    } else {
        let d = dates.drop_last();
        let e = eps.drop_last();
        law_residuals_on_a_date(d, e, date);
        assert(both.drop_last() =~= Seq::new(e.len(), |i: int| (d[i], e[i])));
        lemma_finite_rows_in_range(e);
        let kept = finite_rows(e);
        let all = finite_rows(eps);
        assert(picked(dates, kept) =~= picked(d, kept));
        assert(picked(eps, kept) =~= picked(e, kept));
        let rows = crate::groups::rows_with(picked(d, kept), date);
        crate::groups::law_rows_with(picked(d, kept), date);
        if eps.last().finite() {
            assert(picked(dates, all).drop_last() =~= picked(d, kept));
            let more = crate::groups::rows_with(picked(dates, all), date);
            assert forall|k: int| 0 <= k < rows.len() implies picked(eps, all)[rows[k] as int]
                == picked(e, kept)[rows[k] as int] by {
                assert(rows[k] < kept.len());
            }
            assert(all == kept.push((eps.len() - 1) as usize));
            let before = both.drop_last().filter(keep).map_values(value);
            assert(residuals_on(d, e, date) == before);
            if dates.last() == date {
                assert(more == rows.push(kept.len() as usize));
                assert(picked(eps, all)[kept.len() as int] == eps.last());
                assert(residuals_on(dates, eps, date) =~= before.push(eps.last()));
                assert(both.filter(keep) == both.drop_last().filter(keep).push(both.last()));
                assert(both.filter(keep).map_values(value) =~= before.push(eps.last()));
            } else {
                assert(more == rows);
                assert(residuals_on(dates, eps, date) =~= before);
                assert(both.filter(keep) == both.drop_last().filter(keep));
            }
        } else {
            assert(residuals_on(dates, eps, date) =~= both.filter(keep).map_values(value));
        }
    }
}

proof fn lemma_finite_rows_in_range(eps: Seq<Double>)
    requires
        eps.len() <= usize::MAX,
    ensures
        finite_rows(eps).len() <= eps.len(),
        forall|k: int| 0 <= k < finite_rows(eps).len() ==> #[trigger] finite_rows(eps)[k]
            < eps.len(),
    decreases eps.len(),
{
    if eps.len() > 0 {
        lemma_finite_rows_in_range(eps.drop_last());
    }
}

/// The complete rows are those without a gap, all of them, in their order, with
/// every column as it was.
pub proof fn law_complete_rows(rows: Seq<ResidualRow>)
    ensures
        ({
            let whole = rows.filter(
                |r: ResidualRow|
                    {
                        &&& r.t2_d is Some && r.t2 is Some && r.p2 is Some && r.tc is Some
                        &&& r.m is Some && r.w is Some && r.a is Some && r.b is Some
                        &&& r.c1 is Some && r.c2 is Some
                    },
            );
            &&& without_gaps(rows).len() == whole.len()
            &&& forall|k: int|
                0 <= k < whole.len() ==> {
                    let c = #[trigger] without_gaps(rows)[k];
                    &&& whole[k].t2_d == Some(c.t2_d)
                    &&& whole[k].t2 == Some(c.t2)
                    &&& whole[k].p2 == Some(c.p2)
                    &&& whole[k].tc == Some(c.tc)
                    &&& whole[k].m == Some(c.m)
                    &&& whole[k].w == Some(c.w)
                    &&& whole[k].a == Some(c.a)
                    &&& whole[k].b == Some(c.b)
                    &&& whole[k].c1 == Some(c.c1)
                    &&& whole[k].c2 == Some(c.c2)
                }
        }),
    decreases rows.len(),
{
    reveal(Seq::filter);
    if rows.len() > 0 {
        law_complete_rows(rows.drop_last());
    }
}

/// The scale of a date is the greatest absolute median up to that date: one of
/// them has it, or it is zero.
pub proof fn law_scale_is_reached(medians: Seq<Double>, n: nat)
    requires
        n <= medians.len(),
    ensures
        running_max(medians, n).bits == 0 || exists|j: int|
            0 <= j < n && (#[trigger] medians[j]).magnitude_of() == running_max(medians, n),
        forall|j: int|
            0 <= j < n && !(#[trigger] medians[j]).nan() ==> medians[j].magnitude_of().at_most(
                running_max(medians, n),
            ),
    decreases n,
{
    lemma_running_max(medians, n);
    if n > 0 {
        law_scale_is_reached(medians, (n - 1) as nat);
        lemma_running_max(medians, (n - 1) as nat);
        let before = running_max(medians, (n - 1) as nat);
        if running_max(medians, n) == before && before.bits != 0 {
            let j = choose|j: int| 0 <= j < n - 1 && (#[trigger] medians[j]).magnitude_of() == before;
            assert(medians[j].magnitude_of() == running_max(medians, n));
        } else if running_max(medians, n).bits != 0 {
            assert(medians[n - 1].magnitude_of() == running_max(medians, n));
        }
    }
}

/// After the twenty days of the burn-in every date has its median over the
/// greatest absolute median so far, as soon as one of them differs from zero.
pub proof fn law_indicator_is_given(medians: Seq<Double>, k: int, j: int)
    requires
        20 <= k < medians.len(),
        0 <= j <= k,
        (Double { bits: 0 }).below(medians[j].magnitude_of()),
    ensures
        normalized(medians, k) matches Normalized::Quotient { median, scale } && {
            &&& median == medians[k]
            &&& medians[j].magnitude_of().at_most(scale)
            &&& exists|i: int| 0 <= i <= k && (#[trigger] medians[i]).magnitude_of() == scale
        },
{
    lemma_running_max(medians, (k + 1) as nat);
    law_scale_is_reached(medians, (k + 1) as nat);
    assert(!medians[j].nan());
    let scale = running_max(medians, (k + 1) as nat);
    let i = choose|i: int| 0 <= i < k + 1 && (#[trigger] medians[i]).magnitude_of() == scale;
    assert(medians[i].magnitude_of() == scale);
}

} // verus!

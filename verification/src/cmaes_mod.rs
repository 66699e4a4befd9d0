//! The fit by covariance matrix adaptation: when it is tried again, and how its
//! cost is printed.
use crate::double::Double;
use crate::text::at_least_two_digits_text;
use num_format::{Locale, ToFormattedString};
use vstd::prelude::*;
use vstd::string::*;

verus! {

/// 200, the cost above which a run is tried again.
pub const BAD_COST: u64 = 0x4069_0000_0000_0000;

/// Runs with a bad cost after which the fit is given up.
pub const MAX_RETRIES: usize = 5;

/// 0 and 1: the exponents that a run begins between.
pub const M_START_MIN: u64 = 0x0000_0000_0000_0000;

pub const M_START_MAX: u64 = 0x3FF0_0000_0000_0000;

/// 2 and 15: the angular frequencies that a run begins between.
pub const W_START_MIN: u64 = 0x4000_0000_0000_0000;

pub const W_START_MAX: u64 = 0x402E_0000_0000_0000;

/// 0.5: the first step of a run.
pub const FIRST_STEP: u64 = 0x3FE0_0000_0000_0000;

/// 1e-4: the cost at which a run ends.
pub const TARGET_COST: u64 = 0x3F1A_36E2_EB1C_432D;

/// -1 and 1: the range that restarts are drawn from.
pub const RESTART_MIN: u64 = 0xBFF0_0000_0000_0000;

pub const RESTART_MAX: u64 = 0x3FF0_0000_0000_0000;

/// What follows a run of the optimizer.
#[derive(Clone, Copy, PartialEq, Eq, Structural, Debug)]
pub enum CmaesStep {
    /// The run found no solution; the fit ends.
    NoSolution,
    /// The solution is good enough.
    Accept,
    /// The solution is bad; the run is made again, after this many bad ones.
    Retry(usize),
    /// The solution is bad and so were all before it; the fit ends.
    GiveUp,
}

/// What follows a run that ended with the given cost, after `retries` runs with
/// a bad cost.
pub open spec fn next_step(retries: int, best_cost: Option<Double>) -> CmaesStep {
    match best_cost {
        None => CmaesStep::NoSolution,
        Some(cost) => if !(Double { bits: BAD_COST }).below(cost) {
            CmaesStep::Accept
        } else if retries + 1 < MAX_RETRIES {
            CmaesStep::Retry((retries + 1) as usize)
        } else {
            CmaesStep::GiveUp
        },
    }
}

/// A cost of at most 200 is accepted however many runs went before, a higher
/// one never; the fit ends without a solution exactly where the run found none.
/// The fifth bad run is the last.
pub proof fn law_bad_runs_are_retried(retries: int, other: int, cost: Double)
    requires
        0 <= retries < MAX_RETRIES,
        0 <= other < MAX_RETRIES,
        !cost.nan(),
    ensures
        cost.at_most(Double { bits: BAD_COST }) <==> next_step(retries, Some(cost))
            == CmaesStep::Accept,
        next_step(retries, Some(cost)) == CmaesStep::Accept ==> next_step(other, Some(cost))
            == CmaesStep::Accept,
        next_step(retries, None) == CmaesStep::NoSolution,
        next_step(retries, Some(cost)) != CmaesStep::NoSolution,
        (Double { bits: BAD_COST }).below(cost) && retries < 4 ==> next_step(retries, Some(cost))
            == CmaesStep::Retry((retries + 1) as usize),
        (Double { bits: BAD_COST }).below(cost) && retries == 4 ==> next_step(retries, Some(cost))
            == CmaesStep::GiveUp,
{
}

/// What follows a run that ended with the given cost, after `retries` runs with
/// a bad cost.
pub fn fit_cmaes(retries: usize, best_cost: Option<Double>) -> (step: CmaesStep)
    requires
        retries < MAX_RETRIES,
    ensures
        step == next_step(retries as int, best_cost),
        step == (match best_cost {
            None => CmaesStep::NoSolution,
            Some(cost) => if !(Double { bits: BAD_COST }).below(cost) {
                CmaesStep::Accept
            } else if retries + 1 < MAX_RETRIES {
                CmaesStep::Retry((retries + 1) as usize)
            } else {
                CmaesStep::GiveUp
            },
        }),
        step matches CmaesStep::Retry(n) ==> retries < n < MAX_RETRIES,
{
    match best_cost {
        None => CmaesStep::NoSolution,
        Some(cost) => if !cost.gt(&Double { bits: BAD_COST }) {
            CmaesStep::Accept
        } else if retries + 1 < MAX_RETRIES {
            CmaesStep::Retry(retries + 1)
        } else {
            CmaesStep::GiveUp
        },
    }
}

/// The decimal digits of `n` with a comma before every group of three.
pub open spec fn grouped(n: nat) -> Seq<char>
    decreases n,
{
    if n < 1000 {
        crate::text::decimal(n)
    } else {
        grouped(n / 1000).push(',') + crate::text::zero_padded(n % 1000, 3)
    }
}

/// The grouped form of a signed number: a minus sign before negative ones.
pub open spec fn signed_grouped(n: int) -> Seq<char> {
    if n < 0 {
        seq!['-'] + grouped((-n) as nat)
    } else {
        grouped(n as nat)
    }
}

/// `to_formatted_string` with the locale `en` writes a number in decimal with
/// a comma before every group of three digits, and a minus sign where it is
/// negative.
#[verifier::external_body]
fn with_commas(n: i64) -> (r: String)
    ensures
        r@ == signed_grouped(n as int),
{
    n.to_formatted_string(&Locale::en)
}

/// A figure by its whole part and its hundredths: the whole part with commas, a
/// point, and the hundredths in at least two digits.
pub fn format_with_commas(whole: i64, hundredths: u64) -> (r: String)
    ensures
        r@ == signed_grouped(whole as int) + seq!['.'] + crate::text::at_least_two_digits(
            hundredths as nat,
        ),
{
    let mut s = with_commas(whole);
    s.push('.');
    let fraction = at_least_two_digits_text(hundredths);
    proof {
        assert(s@ =~= signed_grouped(whole as int) + seq!['.']);
    }
    s.append(fraction.as_str());
    s
}

proof fn lemma_decimal_thousands(n: nat)
    requires
        n >= 1000,
    ensures
        crate::text::decimal(n) == crate::text::decimal(n / 1000) + crate::text::zero_padded(
            n % 1000,
            3,
        ),
{
    reveal_with_fuel(crate::text::decimal, 4);
    reveal_with_fuel(crate::text::zero_padded, 4);
    assert(n / 10 / 10 / 10 == n / 1000);
    let r = n % 1000;
    assert((n / 10) % 10 == (r / 10) % 10);
    assert((n / 10 / 10) % 10 == (r / 10 / 10) % 10);
    assert(n % 10 == r % 10);
    assert(crate::text::decimal(n) =~= crate::text::decimal(n / 1000) + crate::text::zero_padded(
        r,
        3,
    ));
}

proof fn lemma_without_join(a: Seq<char>, b: Seq<char>, c: char)
    ensures
        crate::text::without(a + b, c) == crate::text::without(a, c) + crate::text::without(b, c),
    decreases b.len(),
{
    if b.len() == 0 {
        assert(a + b =~= a);
        assert(crate::text::without(b, c) =~= Seq::empty());
    } else {
        lemma_without_join(a, b.drop_last(), c);
        assert((a + b).drop_last() =~= a + b.drop_last());
    }
    assert(crate::text::without(a + b, c) =~= crate::text::without(a, c) + crate::text::without(
        b,
        c,
    ));
}

proof fn lemma_digits_hold_no_comma(n: nat)
    ensures
        crate::text::without(crate::text::decimal(n), ',') == crate::text::decimal(n),
        crate::text::without(crate::text::zero_padded(n, 3), ',') == crate::text::zero_padded(n, 3),
    decreases n,
{
    reveal_with_fuel(crate::text::zero_padded, 4);
    reveal_with_fuel(crate::text::without, 5);
    let z = crate::text::zero_padded(n, 3);
    assert(z.drop_last() =~= crate::text::zero_padded(n / 10, 2));
    assert(z.drop_last().drop_last() =~= crate::text::zero_padded(n / 100, 1));
    assert(crate::text::without(z, ',') =~= z);
    let d = crate::text::decimal(n);
    if n < 10 {
        assert(d.drop_last() =~= Seq::empty());
        assert(crate::text::without(d, ',') =~= d);
    } else {
        lemma_digits_hold_no_comma(n / 10);
        assert(d.drop_last() =~= crate::text::decimal(n / 10));
    }
}

/// Without its commas the grouped form of a number is its decimal form.
pub proof fn law_commas_only_group(n: nat)
    ensures
        crate::text::without(grouped(n), ',') == crate::text::decimal(n),
    decreases n,
{
    lemma_digits_hold_no_comma(n);
    if n >= 1000 {
        law_commas_only_group(n / 1000);
        lemma_decimal_thousands(n);
        lemma_digits_hold_no_comma(n % 1000);
        let front = grouped(n / 1000);
        assert(front.push(',').drop_last() =~= front);
        lemma_without_join(front.push(','), crate::text::zero_padded(n % 1000, 3), ',');
    }
}

/// The commas of a grouped number stand at every fourth place from its end, and
/// nowhere else.
pub proof fn law_commas_stand_every_three_digits(n: nat, i: int)
    requires
        0 <= i < grouped(n).len(),
    ensures
        grouped(n)[grouped(n).len() - 1 - i] == ',' <==> i % 4 == 3,
    decreases n,
{
    if n < 1000 {
        crate::text::law_decimal_reads_back(n);
        reveal_with_fuel(crate::text::decimal, 4);
        assert(grouped(n).len() <= 3);
        assert('0' <= crate::text::decimal(n)[grouped(n).len() - 1 - i]);
    } else {
        let front = grouped(n / 1000);
        let tail = crate::text::zero_padded(n % 1000, 3);
        reveal_with_fuel(crate::text::zero_padded, 4);
        assert(tail.len() == 3);
        if i >= 4 {
            law_commas_stand_every_three_digits(n / 1000, i - 4);
            assert(grouped(n)[grouped(n).len() - 1 - i] == front[front.len() - 1 - (i - 4)]);
        }
    }
}

} // verus!

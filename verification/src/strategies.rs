//! The strategies that are backtested.
use crate::double::Double;
use crate::signals::{res_signal_fun, signal_fun, BuySell};
use crate::text::{decimal_text, same_text};
use vstd::prelude::*;
use vstd::string::*;

verus! {

/// What a strategy follows.
#[derive(Clone, Copy, PartialEq, Eq, Structural, Debug)]
pub enum Rule {
    /// The confidences: the levels that sell and buy, in hundredths.
    Confidence { pos_level: u64, neg_level: u64 },
    /// The normalized residual: the level, in tenths, and the days that it must
    /// last.
    Residual { tau: u64, days: u64 },
}

/// A strategy: its name, the two numbers it is set to, and the rule it follows.
#[derive(Debug)]
pub struct Signal {
    pub name: String,
    pub param1: Double,
    pub param2: Double,
    pub rule: Rule,
}

impl Signal {
    /// The strategy that follows its rule, under the name and with the numbers
    /// of that rule.
    pub open spec fn valid(&self) -> bool {
        &&& self.name@ == self.rule.name()
        &&& self.rule.levels() == Some((self.param1, self.param2))
    }
}

/// Why a ticker is not backtested.
#[derive(Clone, Copy, PartialEq, Eq, Structural, Debug)]
pub enum BacktestError {
    FitFileMissing,
}

impl BacktestError {
    pub open spec fn message(self) -> Seq<char> {
        "Fit file missing"@
    }

    pub fn text(&self) -> (r: String)
        ensures
            r@ == self.message(),
    {
        "Fit file missing".to_owned()
    }
}

/// A number of hundredths, as a decimal fraction.
pub open spec fn hundredths(n: nat) -> Seq<char> {
    crate::text::decimal(n / 100) + "."@ + crate::text::decimal((n % 100) / 10)
        + crate::text::decimal(n % 10)
}

/// A number of tenths, as a decimal fraction.
pub open spec fn tenths(n: nat) -> Seq<char> {
    crate::text::decimal(n / 10) + "."@ + crate::text::decimal(n % 10)
}

impl Rule {
    /// The name of the strategy that follows the rule.
    pub open spec fn name(self) -> Seq<char> {
        match self {
            Rule::Confidence { pos_level, neg_level } => "lppl_"@ + hundredths(pos_level as nat)
                + "_"@ + hundredths(neg_level as nat),
            Rule::Residual { tau, days } => "res_"@ + tenths(tau as nat) + "_"@
                + crate::text::decimal(days as nat),
        }
    }

    /// The numbers that the rule is set to, where it is one of the tested ones.
    pub open spec fn levels(self) -> Option<(Double, Double)> {
        match self {
            Rule::Confidence { pos_level, neg_level } => both_levels(
                confidence_level(pos_level),
                confidence_level(neg_level),
            ),
            Rule::Residual { tau, days } => both_levels(residual_level(tau), duration_level(days)),
        }
    }
}

/// A tested confidence level as a number, by its bits.
pub open spec fn confidence_level(hundredths: u64) -> Option<u64> {
    if hundredths == 1 {
        Some(0x3F84_7AE1_47AE_147B)
    } else if hundredths == 5 {
        Some(0x3FA9_9999_9999_999A)
    } else if hundredths == 10 {
        Some(0x3FB9_9999_9999_999A)
    } else if hundredths == 15 {
        Some(0x3FC3_3333_3333_3333)
    } else if hundredths == 20 {
        Some(0x3FC9_9999_9999_999A)
    } else if hundredths == 25 {
        Some(0x3FD0_0000_0000_0000)
    } else if hundredths == 30 {
        Some(0x3FD3_3333_3333_3333)
    } else if hundredths == 35 {
        Some(0x3FD6_6666_6666_6666)
    } else if hundredths == 40 {
        Some(0x3FD9_9999_9999_999A)
    } else if hundredths == 45 {
        Some(0x3FDC_CCCC_CCCC_CCCD)
    } else if hundredths == 50 {
        Some(0x3FE0_0000_0000_0000)
    } else if hundredths == 55 {
        Some(0x3FE1_9999_9999_999A)
    } else if hundredths == 60 {
        Some(0x3FE3_3333_3333_3333)
    } else if hundredths == 65 {
        Some(0x3FE4_CCCC_CCCC_CCCD)
    } else if hundredths == 70 {
        Some(0x3FE6_6666_6666_6666)
    } else if hundredths == 75 {
        Some(0x3FE8_0000_0000_0000)
    } else if hundredths == 80 {
        Some(0x3FE9_9999_9999_999A)
    } else {
        None
    }
}

/// A tested residual level as a number, by its bits.
pub open spec fn residual_level(tenths: u64) -> Option<u64> {
    if tenths == 5 {
        Some(0x3FE0_0000_0000_0000)
    } else if tenths == 6 {
        Some(0x3FE3_3333_3333_3333)
    } else if tenths == 7 {
        Some(0x3FE6_6666_6666_6666)
    } else if tenths == 8 {
        Some(0x3FE9_9999_9999_999A)
    } else if tenths == 9 {
        Some(0x3FEC_CCCC_CCCC_CCCD)
    } else {
        None
    }
}

/// A tested duration as a number, by its bits.
pub open spec fn duration_level(days: u64) -> Option<u64> {
    if days == 1 {
        Some(0x3FF0_0000_0000_0000)
    } else if days == 5 {
        Some(0x4014_0000_0000_0000)
    } else if days == 10 {
        Some(0x4024_0000_0000_0000)
    } else {
        None
    }
}

fn confidence_bits(hundredths: u64) -> (r: Option<u64>)
    ensures
        r == confidence_level(hundredths),
{
    if hundredths == 1 {
        Some(0x3F84_7AE1_47AE_147B)
    } else if hundredths == 5 {
        Some(0x3FA9_9999_9999_999A)
    } else if hundredths == 10 {
        Some(0x3FB9_9999_9999_999A)
    } else if hundredths == 15 {
        Some(0x3FC3_3333_3333_3333)
    } else if hundredths == 20 {
        Some(0x3FC9_9999_9999_999A)
    } else if hundredths == 25 {
        Some(0x3FD0_0000_0000_0000)
    } else if hundredths == 30 {
        Some(0x3FD3_3333_3333_3333)
    } else if hundredths == 35 {
        Some(0x3FD6_6666_6666_6666)
    } else if hundredths == 40 {
        Some(0x3FD9_9999_9999_999A)
    } else if hundredths == 45 {
        Some(0x3FDC_CCCC_CCCC_CCCD)
    } else if hundredths == 50 {
        Some(0x3FE0_0000_0000_0000)
    } else if hundredths == 55 {
        Some(0x3FE1_9999_9999_999A)
    } else if hundredths == 60 {
        Some(0x3FE3_3333_3333_3333)
    } else if hundredths == 65 {
        Some(0x3FE4_CCCC_CCCC_CCCD)
    } else if hundredths == 70 {
        Some(0x3FE6_6666_6666_6666)
    } else if hundredths == 75 {
        Some(0x3FE8_0000_0000_0000)
    } else if hundredths == 80 {
        Some(0x3FE9_9999_9999_999A)
    } else {
        None
    }
}

fn residual_bits(tenths: u64) -> (r: Option<u64>)
    ensures
        r == residual_level(tenths),
{
    if tenths == 5 {
        Some(0x3FE0_0000_0000_0000)
    } else if tenths == 6 {
        Some(0x3FE3_3333_3333_3333)
    } else if tenths == 7 {
        Some(0x3FE6_6666_6666_6666)
    } else if tenths == 8 {
        Some(0x3FE9_9999_9999_999A)
    } else if tenths == 9 {
        Some(0x3FEC_CCCC_CCCC_CCCD)
    } else {
        None
    }
}

fn duration_bits(days: u64) -> (r: Option<u64>)
    ensures
        r == duration_level(days),
{
    if days == 1 {
        Some(0x3FF0_0000_0000_0000)
    } else if days == 5 {
        Some(0x4014_0000_0000_0000)
    } else if days == 10 {
        Some(0x4024_0000_0000_0000)
    } else {
        None
    }
}

/// Both numbers, where both are there.
pub open spec fn both_levels(a: Option<u64>, b: Option<u64>) -> Option<(Double, Double)> {
    match (a, b) {
        (Some(x), Some(y)) => Some((Double { bits: x }, Double { bits: y })),
        _ => None,
    }
}

/// The numbers that a tested rule is set to: the two confidence levels, or the
/// residual level and the duration.
pub fn levels(rule: Rule) -> (r: Option<(Double, Double)>)
    ensures
        r == rule.levels(),
{
    let (a, b) = match rule {
        Rule::Confidence { pos_level, neg_level } => (
            confidence_bits(pos_level),
            confidence_bits(neg_level),
        ),
        Rule::Residual { tau, days } => (residual_bits(tau), duration_bits(days)),
    };
    match (a, b) {
        (Some(x), Some(y)) => Some((Double { bits: x }, Double { bits: y })),
        _ => None,
    }
}

fn append_decimal(s: &mut String, n: u64)
    ensures
        final(s)@ == old(s)@ + crate::text::decimal(n as nat),
{
    let digits = decimal_text(n);
    s.append(digits.as_str());
}

fn append_hundredths(s: &mut String, n: u64)
    ensures
        final(s)@ == old(s)@ + hundredths(n as nat),
{
    let ghost before = s@;
    append_decimal(s, n / 100);
    s.append(".");
    append_decimal(s, (n % 100) / 10);
    append_decimal(s, n % 10);
    proof {
        assert(s@ =~= before + hundredths(n as nat));
    }
}

fn append_tenths(s: &mut String, n: u64)
    ensures
        final(s)@ == old(s)@ + tenths(n as nat),
{
    let ghost before = s@;
    append_decimal(s, n / 10);
    s.append(".");
    append_decimal(s, n % 10);
    proof {
        assert(s@ =~= before + tenths(n as nat));
    }
}

/// The strategy that follows a rule.
pub fn signal(rule: Rule) -> (r: Signal)
    requires
        rule.levels() is Some,
    ensures
        r.rule == rule,
        r.valid(),
{
    let (param1, param2) = levels(rule).unwrap();
    let name = match rule {
        Rule::Confidence { pos_level, neg_level } => {
            let mut s = "lppl_".to_owned();
            append_hundredths(&mut s, pos_level);
            s.append("_");
            append_hundredths(&mut s, neg_level);
            s
        },
        Rule::Residual { tau, days } => {
            let mut s = "res_".to_owned();
            append_tenths(&mut s, tau);
            s.append("_");
            append_decimal(&mut s, days);
            s
        },
    };
    Signal { name, param1, param2, rule }
}

/// The columns that strategies follow, one entry for each bar.
pub struct Indicators {
    pub pos_conf: Vec<Double>,
    pub neg_conf: Vec<Double>,
    pub eps_norm: Vec<Double>,
}

impl Indicators {
    /// There are bars, and every column has an entry for each.
    pub open spec fn valid(&self) -> bool {
        &&& self.pos_conf@.len() >= 1
        &&& self.neg_conf@.len() == self.pos_conf@.len()
        &&& self.eps_norm@.len() == self.pos_conf@.len()
    }
}

/// The signals of a strategy: those of its rule, at the numbers it is set to.
pub fn sig(signal: &Signal, indicators: &Indicators) -> (side: BuySell)
    requires
        indicators.valid(),
        signal.valid(),
    ensures
        match signal.rule {
            Rule::Confidence { pos_level, neg_level } => crate::signals::follows_confidence(
                side,
                indicators.pos_conf@,
                indicators.neg_conf@,
                Double { bits: confidence_level(pos_level).unwrap() },
                Double { bits: confidence_level(neg_level).unwrap() },
            ),
            Rule::Residual { tau, days } => crate::signals::follows_residual(
                side,
                indicators.eps_norm@,
                Double { bits: residual_level(tau).unwrap() },
                days as int,
            ),
        },
        signal.rule matches Rule::Confidence { pos_level, neg_level } ==> forall|k: int|
            2 <= k < indicators.pos_conf@.len() - 1 ==> {
                &&& #[trigger] side.sell@[k] == -1 <==> (Double {
                    bits: confidence_level(pos_level).unwrap(),
                }).below(indicators.pos_conf@[k - 1])
                &&& side.buy@[k] == 1 <==> side.sell@[k] != -1 && (Double {
                    bits: confidence_level(neg_level).unwrap(),
                }).below(indicators.neg_conf@[k - 1])
            },
{
    match signal.rule {
        Rule::Confidence { .. } => signal_fun(
            &indicators.pos_conf,
            &indicators.neg_conf,
            signal.param1,
            signal.param2,
        ),
        Rule::Residual { days, .. } => res_signal_fun(
            &indicators.eps_norm,
            signal.param1,
            days as usize,
        ),
    }
}

/// Confidence levels that are tested: 0.01, and 0.05 to 0.80 in steps of 0.05.
pub const LEVELS: u64 = 17;

/// Residual levels that are tested: 0.5 to 0.9 in steps of 0.1.
pub const TAUS: u64 = 5;

/// Residual durations that are tested: 1, 5 and 10 days.
pub const DURATIONS: u64 = 3;

/// The level number `k`, in hundredths.
pub open spec fn level(k: int) -> int {
    if k == 0 {
        1
    } else {
        5 * k
    }
}

/// The duration number `k`, in days.
pub open spec fn duration(k: int) -> int {
    if k == 0 {
        1
    } else {
        5 * k
    }
}

/// The rule number `k` of those that are tested: first every pair of confidence
/// levels, then every pair of residual level and duration.
pub open spec fn tested_rule(k: int) -> Rule {
    let pairs = LEVELS * LEVELS;
    if k < pairs {
        Rule::Confidence {
            pos_level: level(k / LEVELS as int) as u64,
            neg_level: level(k % LEVELS as int) as u64,
        }
    } else {
        Rule::Residual {
            tau: (5 + (k - pairs) / DURATIONS as int) as u64,
            days: duration((k - pairs) % DURATIONS as int) as u64,
        }
    }
}

/// How many rules are tested.
pub open spec fn tested_rules() -> int {
    LEVELS * LEVELS + TAUS * DURATIONS
}

/// The second rule of production, by the tag of the universe. Where no pair of
/// levels was profitable, the least active corner of the grid is taken.
pub open spec fn tagged_rule(tag: Seq<char>) -> Option<Rule> {
    if tag == "sc"@ || tag == "SC1"@ || tag == "SC2"@ || tag == "SC3"@ || tag == "SC4"@ {
        Some(Rule::Confidence { pos_level: 80, neg_level: 80 })
    } else if tag == "micro"@ || tag == "Micro1"@ || tag == "Micro2"@ || tag == "Micro3"@ || tag
        == "Micro4"@ {
        Some(Rule::Confidence { pos_level: 80, neg_level: 80 })
    } else if tag == "mc"@ || tag == "MC1"@ || tag == "MC2"@ {
        Some(Rule::Confidence { pos_level: 75, neg_level: 15 })
    } else if tag == "lc"@ || tag == "LC1"@ || tag == "LC2"@ {
        Some(Rule::Confidence { pos_level: 70, neg_level: 20 })
    } else if tag == "crypto"@ || tag == "Crypto"@ {
        Some(Rule::Confidence { pos_level: 80, neg_level: 80 })
    } else {
        None
    }
}

/// The rules of a run, in the order of its strategies: all tested ones, or in
/// production the one that lists every ticker with some confidence and the one
/// that its universe is calibrated to.
pub open spec fn rules(tag: Seq<char>, production: bool) -> Seq<Rule> {
    if !production {
        Seq::new(tested_rules() as nat, |k: int| tested_rule(k))
    } else {
        let listing = seq![Rule::Confidence { pos_level: 1, neg_level: 1 }];
        match tagged_rule(tag) {
            Some(rule) => listing.push(rule),
            None => listing,
        }
    }
}

fn is_any(tag: &str, a: &str, b: &str, c: &str) -> (r: bool)
    ensures
        r == (tag@ == a@ || tag@ == b@ || tag@ == c@),
{
    same_text(tag, a) || same_text(tag, b) || same_text(tag, c)
}

fn rule_of_tag(tag: &str) -> (r: Option<Rule>)
    ensures
        r == tagged_rule(tag@),
{
    if is_any(tag, "sc", "SC1", "SC2") || same_text(tag, "SC3") || same_text(tag, "SC4") {
        Some(Rule::Confidence { pos_level: 80, neg_level: 80 })
    } else if is_any(tag, "micro", "Micro1", "Micro2") || same_text(tag, "Micro3") || same_text(
        tag,
        "Micro4",
    ) {
        Some(Rule::Confidence { pos_level: 80, neg_level: 80 })
    } else if is_any(tag, "mc", "MC1", "MC2") {
        Some(Rule::Confidence { pos_level: 75, neg_level: 15 })
    } else if is_any(tag, "lc", "LC1", "LC2") {
        Some(Rule::Confidence { pos_level: 70, neg_level: 20 })
    } else if same_text(tag, "crypto") || same_text(tag, "Crypto") {
        Some(Rule::Confidence { pos_level: 80, neg_level: 80 })
    } else {
        None
    }
}

fn tested(k: u64) -> (r: Rule)
    requires
        k < tested_rules(),
    ensures
        r == tested_rule(k as int),
{
    if k < LEVELS * LEVELS {
        let i: u64 = k / LEVELS;
        let j: u64 = k % LEVELS;
        Rule::Confidence {
            pos_level: if i == 0 {
                1
            } else {
                5 * i
            },
            neg_level: if j == 0 {
                1
            } else {
                5 * j
            },
        }
    } else {
        let i: u64 = (k - LEVELS * LEVELS) / DURATIONS;
        let j: u64 = (k - LEVELS * LEVELS) % DURATIONS;
        Rule::Residual {
            tau: 5 + i,
            days: if j == 0 {
                1
            } else {
                5 * j
            },
        }
    }
}

/// Every rule of a run is set to numbers.
pub proof fn law_rules_have_levels(tag: Seq<char>, production: bool, k: int)
    requires
        0 <= k < rules(tag, production).len(),
    ensures
        rules(tag, production)[k].levels() is Some,
{
    if !production {
        lemma_tested_levels(k);
    }
}

proof fn lemma_tested_levels(k: int)
    requires
        0 <= k < tested_rules(),
    ensures
        tested_rule(k).levels() is Some,
{
    if k < LEVELS * LEVELS {
        lemma_level(k / LEVELS as int);
        lemma_level(k % LEVELS as int);
    }
}

proof fn lemma_level(k: int)
    requires
        0 <= k < LEVELS,
    ensures
        confidence_level(level(k) as u64) is Some,
{
}

/// The strategies that a run backtests on a ticker. It is refused exactly where
/// the fits of the ticker are missing.
pub fn run_backtests(tag: &str, production: bool, fits_exist: bool) -> (r: Result<
    Vec<Signal>,
    BacktestError,
>)
    ensures
        !fits_exist ==> r == Err::<Vec<Signal>, BacktestError>(BacktestError::FitFileMissing),
        fits_exist ==> {
            &&& r is Ok
            &&& r.unwrap()@.len() == rules(tag@, production).len()
            &&& forall|k: int|
                0 <= k < r.unwrap()@.len() ==> (#[trigger] r.unwrap()@[k]).rule == rules(
                    tag@,
                    production,
                )[k] && r.unwrap()@[k].valid()
        },
{
    if !fits_exist {
        return Err(BacktestError::FitFileMissing);
    }
    let mut signals: Vec<Signal> = Vec::new();
    if !production {
        let mut k: u64 = 0;
        while k < LEVELS * LEVELS + TAUS * DURATIONS
            invariant
                k <= tested_rules(),
                signals@.len() == k,
                forall|j: int|
                    0 <= j < k ==> (#[trigger] signals@[j]).rule == tested_rule(j)
                        && signals@[j].valid(),
            decreases tested_rules() - k,
        {
            proof {
                lemma_tested_levels(k as int);
            }
            signals.push(signal(tested(k)));
            k += 1;
        }
    } else {
        signals.push(signal(Rule::Confidence { pos_level: 1, neg_level: 1 }));
        if let Some(rule) = rule_of_tag(tag) {
            signals.push(signal(rule));
        }
    }
    Ok(signals)
}

/// Two to the power of `n`.
pub open spec fn two_to(n: nat) -> int
    decreases n,
{
    if n == 0 {
        1
    } else {
        2 * two_to((n - 1) as nat)
    }
}

/// No binary64 number is nearer to `part / whole` than the one with these bits,
/// which is normal, positive and below 2 to the power of 53: they differ by at
/// most half the distance to its neighbour on that side, which is half as far
/// below a power of two.
pub open spec fn is_nearest(bits: u64, part: int, whole: int) -> bool {
    let exponent = bits / 0x10_0000_0000_0000;
    let digits = bits % 0x10_0000_0000_0000 + 0x10_0000_0000_0000;
    let scale = two_to((1075 - exponent) as nat);
    let over = whole * digits - part * scale;
    &&& 0 < exponent <= 1075
    &&& -whole <= 2 * over <= whole
    &&& digits == 0x10_0000_0000_0000 ==> 4 * over <= whole
}

/// The numbers of the tested rules are the nearest to what the rules say.
pub proof fn law_levels_are_nearest(rule: Rule)
    requires
        rule.levels() is Some,
    ensures
        match rule {
            Rule::Confidence { pos_level, neg_level } => is_nearest(
                rule.levels().unwrap().0.bits,
                pos_level as int,
                100,
            ) && is_nearest(rule.levels().unwrap().1.bits, neg_level as int, 100),
            Rule::Residual { tau, days } => is_nearest(
                rule.levels().unwrap().0.bits,
                tau as int,
                10,
            ) && is_nearest(rule.levels().unwrap().1.bits, days as int, 1),
        },
{
    match rule {
        Rule::Confidence { pos_level, neg_level } => {
            lemma_nearest_level(pos_level);
            lemma_nearest_level(neg_level);
        },
        Rule::Residual { .. } => {
            lemma_scales();
        },
    }
}

proof fn lemma_nearest_level(n: u64)
    requires
        confidence_level(n) is Some,
    ensures
        is_nearest(confidence_level(n).unwrap(), n as int, 100),
{
    lemma_scales();
    assert(is_nearest(0x3F84_7AE1_47AE_147B, 1, 100));
    assert(is_nearest(0x3FA9_9999_9999_999A, 5, 100));
    assert(is_nearest(0x3FB9_9999_9999_999A, 10, 100));
    assert(is_nearest(0x3FC3_3333_3333_3333, 15, 100));
    assert(is_nearest(0x3FC9_9999_9999_999A, 20, 100));
    assert(is_nearest(0x3FD0_0000_0000_0000, 25, 100));
    assert(is_nearest(0x3FD3_3333_3333_3333, 30, 100));
    assert(is_nearest(0x3FD6_6666_6666_6666, 35, 100));
    assert(is_nearest(0x3FD9_9999_9999_999A, 40, 100));
    assert(is_nearest(0x3FDC_CCCC_CCCC_CCCD, 45, 100));
    assert(is_nearest(0x3FE0_0000_0000_0000, 50, 100));
    assert(is_nearest(0x3FE1_9999_9999_999A, 55, 100));
    assert(is_nearest(0x3FE3_3333_3333_3333, 60, 100));
    assert(is_nearest(0x3FE4_CCCC_CCCC_CCCD, 65, 100));
    assert(is_nearest(0x3FE6_6666_6666_6666, 70, 100));
    assert(is_nearest(0x3FE8_0000_0000_0000, 75, 100));
    assert(is_nearest(0x3FE9_9999_9999_999A, 80, 100));
}

proof fn lemma_scales()
    ensures
        two_to(49) == 0x2_0000_0000_0000,
        two_to(50) == 0x4_0000_0000_0000,
        two_to(51) == 0x8_0000_0000_0000,
        two_to(52) == 0x10_0000_0000_0000,
        two_to(53) == 0x20_0000_0000_0000,
        two_to(54) == 0x40_0000_0000_0000,
        two_to(55) == 0x80_0000_0000_0000,
        two_to(56) == 0x100_0000_0000_0000,
        two_to(57) == 0x200_0000_0000_0000,
        two_to(58) == 0x400_0000_0000_0000,
        two_to(59) == 0x800_0000_0000_0000,
{
    reveal_with_fuel(two_to, 60);
}

proof fn lemma_confidence_name(pos_level: u64, neg_level: u64)
    requires
        pos_level < 100,
        neg_level < 100,
    ensures
        ({
            let name = (Rule::Confidence { pos_level, neg_level }).name();
            &&& name.len() == 14
            &&& name[0] == 'l'
            &&& name[7] == crate::text::digit_char(pos_level as int / 10)
            &&& name[8] == crate::text::digit_char(pos_level as int % 10)
            &&& name[12] == crate::text::digit_char(neg_level as int / 10)
            &&& name[13] == crate::text::digit_char(neg_level as int % 10)
        }),
{
    reveal_strlit("lppl_");
    reveal_strlit("_");
    reveal_strlit(".");
}

proof fn lemma_residual_name(tau: u64, days: u64)
    requires
        tau < 10,
        days == 1 || days == 5 || days == 10,
    ensures
        ({
            let name = (Rule::Residual { tau, days }).name();
            &&& name.len() == (if days == 10 {
                10int
            } else {
                9int
            })
            &&& name[0] == 'r'
            &&& name[6] == crate::text::digit_char(tau as int)
            &&& name[8] == crate::text::digit_char(
                if days == 10 {
                    1
                } else {
                    days as int
                },
            )
        }),
{
    reveal_strlit("res_");
    reveal_strlit("_");
    reveal_strlit(".");
    reveal_with_fuel(crate::text::decimal, 2);
}

/// No two of the tested strategies have the same name, so that a name stands
/// for one strategy in the performance files.
pub proof fn law_tested_names_differ(j: int, k: int)
    requires
        0 <= j < k < tested_rules(),
    ensures
        tested_rule(j).name() != tested_rule(k).name(),
{
    match (tested_rule(j), tested_rule(k)) {
        (
            Rule::Confidence { pos_level: a, neg_level: b },
            Rule::Confidence { pos_level: c, neg_level: d },
        ) => {
            lemma_confidence_name(a, b);
            lemma_confidence_name(c, d);
        },
        (Rule::Confidence { pos_level, neg_level }, Rule::Residual { tau, days }) => {
            lemma_confidence_name(pos_level, neg_level);
            lemma_residual_name(tau, days);
        },
        (Rule::Residual { tau, days }, Rule::Confidence { pos_level, neg_level }) => {
            lemma_confidence_name(pos_level, neg_level);
            lemma_residual_name(tau, days);
        },
        (Rule::Residual { tau: a, days: b }, Rule::Residual { tau: c, days: d }) => {
            lemma_residual_name(a, b);
            lemma_residual_name(c, d);
        },
    }
}

/// A confidence level that is tested: one hundredth, and every multiple of five
/// hundredths from 0.05 up to 0.80.
pub open spec fn is_tested_level(hundredths: u64) -> bool {
    hundredths == 1 || (5 <= hundredths <= 80 && hundredths % 5 == 0)
}

/// A test run covers the whole grid: every pair of tested confidence levels, and
/// every residual level from 0.5 to 0.9 with each of 1, 5 and 10 days.
pub proof fn law_grid_is_complete(tag: Seq<char>, rule: Rule)
    ensures
        rules(tag, false).contains(rule) <==> match rule {
            Rule::Confidence { pos_level, neg_level } => is_tested_level(pos_level)
                && is_tested_level(neg_level),
            Rule::Residual { tau, days } => 5 <= tau <= 9 && (days == 1 || days == 5 || days == 10),
        },
        rules(tag, false).len() == 304,
{
    let all = rules(tag, false);
    match rule {
        Rule::Confidence { pos_level, neg_level } => {
            if is_tested_level(pos_level) && is_tested_level(neg_level) {
                let i: int = if pos_level == 1 {
                    0
                } else {
                    pos_level as int / 5
                };
                let j: int = if neg_level == 1 {
                    0
                } else {
                    neg_level as int / 5
                };
                let k = 17 * i + j;
                assert(k / 17 == i && k % 17 == j);
                assert(all[k] == rule);
            }
        },
        Rule::Residual { tau, days } => {
            if 5 <= tau <= 9 && (days == 1 || days == 5 || days == 10) {
                let j: int = if days == 1 {
                    0
                } else {
                    days as int / 5
                };
                let k = 289 + 3 * (tau - 5) + j;
                assert((k - 289) / 3 == tau - 5 && (k - 289) % 3 == j);
                assert(all[k] == rule);
            }
        },
    }
    if all.contains(rule) {
        let k = choose|k: int| 0 <= k < all.len() && all[k] == rule;
        assert(tested_rule(k) == rule);
    }
}

/// No rule is tested twice.
pub proof fn law_grid_has_no_repeats(tag: Seq<char>, j: int, k: int)
    requires
        0 <= j < k < rules(tag, false).len(),
    ensures
        rules(tag, false)[j] != rules(tag, false)[k],
{
    law_tested_names_differ(j, k);
}

/// A production run follows the rule that lists every ticker with some
/// confidence first, and at most one more, by levels of the tested grid.
pub proof fn law_production_lists_first(tag: Seq<char>)
    ensures
        1 <= rules(tag, true).len() <= 2,
        rules(tag, true)[0] == (Rule::Confidence { pos_level: 1, neg_level: 1 }),
        rules(tag, true).len() == 2 ==> rules(tag, false).contains(rules(tag, true)[1]),
{
    if rules(tag, true).len() == 2 {
        law_grid_is_complete(tag, rules(tag, true)[1]);
    }
}

/// The name of a confidence strategy shows its two levels in hundredths, the
/// selling one first.
pub proof fn law_names_show_the_levels(pos_level: u64, neg_level: u64)
    requires
        pos_level < 100,
        neg_level < 100,
    ensures
        ({
            let name = (Rule::Confidence { pos_level, neg_level }).name();
            &&& name.len() == 14
            &&& name.subrange(0, 7) == seq!['l', 'p', 'p', 'l', '_', '0', '.']
            &&& crate::text::value_of(name.subrange(7, 9)) == pos_level
            &&& name.subrange(9, 12) == seq!['_', '0', '.']
            &&& crate::text::value_of(name.subrange(12, 14)) == neg_level
        }),
{
    let name = (Rule::Confidence { pos_level, neg_level }).name();
    lemma_confidence_name(pos_level, neg_level);
    reveal_strlit("lppl_");
    reveal_strlit("_");
    reveal_strlit(".");
    assert(name.subrange(0, 7) =~= seq!['l', 'p', 'p', 'l', '_', '0', '.']);
    assert(name.subrange(9, 12) =~= seq!['_', '0', '.']);
    lemma_two_digits(name.subrange(7, 9), pos_level as int);
    lemma_two_digits(name.subrange(12, 14), neg_level as int);
}

proof fn lemma_two_digits(s: Seq<char>, n: int)
    requires
        0 <= n < 100,
        s.len() == 2,
        s[0] == crate::text::digit_char(n / 10),
        s[1] == crate::text::digit_char(n % 10),
    ensures
        crate::text::value_of(s) == n,
{
    reveal_with_fuel(crate::text::value_of, 3);
    assert(s.drop_last().drop_last() =~= Seq::empty());
}

} // verus!

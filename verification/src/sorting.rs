//! Stable sorting of rows.
use crate::text::comes_before;
use vstd::prelude::*;

verus! {

/// A way to order rows by what they hold.
pub trait RowOrder {
    /// How many rows there are.
    spec fn rows(&self) -> nat;

    /// Row `a` holds less than row `b`.
    spec fn below(&self, a: usize, b: usize) -> bool;

    /// Of any three rows, `below` is irreflexive and transitive, and so is the
    /// relation of rows that hold the same.
    proof fn weak_order(&self, a: usize, b: usize, c: usize)
        requires
            a < self.rows(),
            b < self.rows(),
            c < self.rows(),
        ensures
            !self.below(a, a),
            self.below(a, b) && self.below(b, c) ==> self.below(a, c),
            !self.below(a, b) && !self.below(b, c) ==> !self.below(a, c),
    ;

    fn is_below(&self, a: usize, b: usize) -> (r: bool)
        requires
            a < self.rows(),
            b < self.rows(),
        ensures
            r == self.below(a, b),
    ;
}

/// Row `a` is listed before row `b`: it holds less, or the same and comes
/// earlier.
pub open spec fn listed_before<O: RowOrder>(order: O, a: usize, b: usize) -> bool {
    order.below(a, b) || (!order.below(b, a) && a < b)
}

/// The list is in ascending stable order.
pub open spec fn is_ascending<O: RowOrder>(order: O, list: Seq<usize>) -> bool {
    forall|k: int, l: int|
        0 <= k < l < list.len() ==> listed_before(order, #[trigger] list[k], #[trigger] list[l])
}

/// `list` holds the rows of `rows`, each once, in ascending stable order.
pub open spec fn is_sorted_list<O: RowOrder>(
    order: O,
    list: Seq<usize>,
    rows: Seq<usize>,
) -> bool {
    &&& list.len() == rows.len()
    &&& is_ascending(order, list)
    &&& forall|x: usize| #[trigger] list.contains(x) <==> rows.contains(x)
}

/// The rows are in range and in ascending order of their places.
pub open spec fn are_rows(rows: Seq<usize>, n: nat) -> bool {
    &&& forall|k: int| 0 <= k < rows.len() ==> #[trigger] rows[k] < n
    &&& forall|k: int, l: int|
        0 <= k < l < rows.len() ==> #[trigger] rows[k] < #[trigger] rows[l]
}

/// The rows that both lists hold, in ascending stable order, where each row of
/// the first comes before each of the second.
fn merge<O: RowOrder>(order: &O, a: &Vec<usize>, b: &Vec<usize>) -> (out: Vec<usize>)
    requires
        is_ascending(*order, a@),
        is_ascending(*order, b@),
        a@.len() + b@.len() <= usize::MAX,
        forall|k: int| 0 <= k < a@.len() ==> #[trigger] a@[k] < order.rows(),
        forall|k: int| 0 <= k < b@.len() ==> #[trigger] b@[k] < order.rows(),
        forall|k: int, l: int|
            0 <= k < a@.len() && 0 <= l < b@.len() ==> #[trigger] a@[k] < #[trigger] b@[l],
    ensures
        is_sorted_list(*order, out@, a@ + b@),
{
    let mut out: Vec<usize> = Vec::new();
    let mut i: usize = 0;
    let mut j: usize = 0;
    while i < a.len() || j < b.len()
        invariant
            is_ascending(*order, a@),
            is_ascending(*order, b@),
            a@.len() + b@.len() <= usize::MAX,
            forall|k: int| 0 <= k < a@.len() ==> #[trigger] a@[k] < order.rows(),
            forall|k: int| 0 <= k < b@.len() ==> #[trigger] b@[k] < order.rows(),
            forall|k: int, l: int|
                0 <= k < a@.len() && 0 <= l < b@.len() ==> #[trigger] a@[k] < #[trigger] b@[l],
            i <= a@.len(),
            j <= b@.len(),
            out@.len() == i + j,
            is_ascending(*order, out@),
            forall|k: int, l: int|
                0 <= k < out@.len() && i <= l < a@.len() ==> listed_before(
                    *order,
                    #[trigger] out@[k],
                    #[trigger] a@[l],
                ),
            forall|k: int, l: int|
                0 <= k < out@.len() && j <= l < b@.len() ==> listed_before(
                    *order,
                    #[trigger] out@[k],
                    #[trigger] b@[l],
                ),
            forall|k: int|
                0 <= k < out@.len() ==> a@.contains(#[trigger] out@[k]) || b@.contains(out@[k]),
            forall|k: int| 0 <= k < i ==> out@.contains(#[trigger] a@[k]),
            forall|k: int| 0 <= k < j ==> out@.contains(#[trigger] b@[k]),
        decreases a@.len() - i + b@.len() - j,
    {
        let ghost before = out@;
        let from_b = i == a.len() || (j < b.len() && order.is_below(b[j], a[i]));
        if from_b {
            let row: usize = b[j];
            proof {
                assert forall|l: int| i <= l < a@.len() implies listed_before(
                    *order,
                    row,
                    #[trigger] a@[l],
                ) by {
                    order.weak_order(row, a@[l], a@[i as int]);
                    order.weak_order(row, a@[i as int], a@[l]);
                    order.weak_order(a@[l], a@[i as int], row);
                    order.weak_order(a@[l], row, a@[i as int]);
                    if l > i {
                        assert(listed_before(*order, a@[i as int], a@[l]));
                        order.weak_order(a@[i as int], a@[l], a@[i as int]);
                    }
                }
            }
            out.push(row);
            proof {
                assert(out@.last() == row);
                assert(b@.contains(row));
            }
            j += 1;
        } else {
            let row: usize = a[i];
            proof {
                assert forall|l: int| j <= l < b@.len() implies listed_before(
                    *order,
                    row,
                    #[trigger] b@[l],
                ) by {
                    order.weak_order(b@[l], b@[j as int], row);
                    if l > j {
                        assert(listed_before(*order, b@[j as int], b@[l]));
                        order.weak_order(b@[j as int], b@[l], b@[j as int]);
                    }
                }
            }
            out.push(row);
            proof {
                assert(out@.last() == row);
                assert(a@.contains(row));
            }
            i += 1;
        }
        proof {
            assert forall|x: usize| before.contains(x) implies out@.contains(x) by {
                let k = choose|k: int| 0 <= k < before.len() && before[k] == x;
                assert(out@[k] == x);
            }
        }
    }
    proof {
        let both = a@ + b@;
        assert forall|x: usize| #[trigger] out@.contains(x) <==> both.contains(x) by {
            if both.contains(x) {
                let k = choose|k: int| 0 <= k < both.len() && both[k] == x;
                if k < a@.len() {
                    assert(out@.contains(a@[k]));
                } else {
                    assert(out@.contains(b@[k - a@.len()]));
                }
            }
            if out@.contains(x) {
                let k = choose|k: int| 0 <= k < out@.len() && out@[k] == x;
                if a@.contains(out@[k]) {
                    let l = choose|l: int| 0 <= l < a@.len() && a@[l] == x;
                    assert(both[l] == x);
                } else {
                    let l = choose|l: int| 0 <= l < b@.len() && b@[l] == x;
                    assert(both[a@.len() + l] == x);
                }
            }
        }
    }
    out
}

/// The rows from the place `from` up to and without `to`, sorted.
fn sort_range<O: RowOrder>(order: &O, rows: &Vec<usize>, from: usize, to: usize) -> (out: Vec<
    usize,
>)
    requires
        from <= to <= rows@.len(),
        are_rows(rows@, order.rows()),
    ensures
        is_sorted_list(*order, out@, rows@.subrange(from as int, to as int)),
    decreases to - from,
{
    let ghost part = rows@.subrange(from as int, to as int);
    let mut out: Vec<usize> = Vec::new();
    if to - from == 0 {
        return out;
    }
    if to - from == 1 {
        out.push(rows[from]);
        proof {
            assert(out@ =~= part);
        }
        return out;
    }
    let middle: usize = from + (to - from) / 2;
    let low = sort_range(order, rows, from, middle);
    let high = sort_range(order, rows, middle, to);
    let ghost first = rows@.subrange(from as int, middle as int);
    let ghost second = rows@.subrange(middle as int, to as int);
    proof {
        assert forall|k: int| 0 <= k < low@.len() implies exists|i: int|
            from <= i < middle && rows@[i] == #[trigger] low@[k] by {
            assert(low@.contains(low@[k]));
            let i = choose|i: int| 0 <= i < first.len() && first[i] == low@[k];
            assert(rows@[from + i] == low@[k]);
        }
        assert forall|k: int| 0 <= k < high@.len() implies exists|i: int|
            middle <= i < to && rows@[i] == #[trigger] high@[k] by {
            assert(high@.contains(high@[k]));
            let i = choose|i: int| 0 <= i < second.len() && second[i] == high@[k];
            assert(rows@[middle + i] == high@[k]);
        }
    }
    out = merge(order, &low, &high);
    proof {
        let both = low@ + high@;
        assert forall|x: usize| #[trigger] out@.contains(x) <==> part.contains(x) by {
            if part.contains(x) {
                let k = choose|k: int| 0 <= k < part.len() && part[k] == x;
                if k < first.len() {
                    assert(first[k] == x);
                    assert(first.contains(x));
                    assert(low@.contains(x));
                    let l = choose|l: int| 0 <= l < low@.len() && low@[l] == x;
                    assert(both[l] == x);
                } else {
                    assert(second[k - first.len()] == x);
                    assert(second.contains(x));
                    assert(high@.contains(x));
                    let l = choose|l: int| 0 <= l < high@.len() && high@[l] == x;
                    assert(both[low@.len() + l] == x);
                }
                assert(both.contains(x));
            }
            if out@.contains(x) {
                assert(both.contains(x));
                let k = choose|k: int| 0 <= k < both.len() && both[k] == x;
                if k < low@.len() {
                    let i = choose|i: int| from <= i < middle && rows@[i] == low@[k];
                    assert(part[i - from] == x);
                } else {
                    let i = choose|i: int| middle <= i < to && rows@[i] == high@[k - low@.len()];
                    assert(part[i - from] == x);
                }
            }
        }
    }
    out
}

/// The rows, sorted.
pub fn sort_rows<O: RowOrder>(order: &O, rows: &Vec<usize>) -> (out: Vec<usize>)
    requires
        are_rows(rows@, order.rows()),
    ensures
        is_sorted_list(*order, out@, rows@),
{
    proof {
        assert(rows@.subrange(0, rows@.len() as int) =~= rows@);
    }
    sort_range(order, rows, 0, rows.len())
}

/// A sorted list is the only one of its rows.
pub proof fn law_sorted_list_is_unique<O: RowOrder>(
    order: O,
    a: Seq<usize>,
    b: Seq<usize>,
    rows: Seq<usize>,
)
    requires
        are_rows(rows, order.rows()),
        is_sorted_list(order, a, rows),
        is_sorted_list(order, b, rows),
    ensures
        a == b,
{
    assert forall|k: int| 0 <= k < a.len() implies a[k] == b[k] by {
        lemma_same_at(order, a, b, rows, k);
    }
    assert(a =~= b);
}

proof fn lemma_same_at<O: RowOrder>(
    order: O,
    a: Seq<usize>,
    b: Seq<usize>,
    rows: Seq<usize>,
    k: int,
)
    requires
        are_rows(rows, order.rows()),
        is_sorted_list(order, a, rows),
        is_sorted_list(order, b, rows),
        0 <= k < a.len(),
    ensures
        a[k] == b[k],
    decreases k,
{
    assert forall|i: int| 0 <= i < k implies a[i] == b[i] by {
        lemma_same_at(order, a, b, rows, i);
    }
    assert(a.contains(a[k]));
    assert(b.contains(b[k]));
    assert(rows.contains(a[k]) && rows.contains(b[k]));
    assert(b.contains(a[k]));
    assert(a.contains(b[k]));
    let l = choose|l: int| 0 <= l < b.len() && b[l] == a[k];
    let m = choose|m: int| 0 <= m < a.len() && a[m] == b[k];
    order.weak_order(a[k], a[k], a[k]);
    order.weak_order(b[k], b[k], b[k]);
    order.weak_order(a[k], b[k], a[k]);
    order.weak_order(b[k], a[k], b[k]);
    if l < k {
        assert(a[l] == a[k]);
        assert(listed_before(order, a[l], a[k]));
    }
    if m < k {
        assert(b[m] == b[k]);
        assert(listed_before(order, b[m], b[k]));
    }
    if l > k && m > k {
        assert(listed_before(order, b[k], b[l]));
        assert(listed_before(order, a[k], a[m]));
    }
}

/// Rows in the order of their texts.
pub struct ByText<'a> {
    pub column: &'a Vec<String>,
}

impl<'a> RowOrder for ByText<'a> {
    open spec fn rows(&self) -> nat {
        self.column@.len()
    }

    open spec fn below(&self, a: usize, b: usize) -> bool {
        crate::text::text_before(self.column@[a as int]@, self.column@[b as int]@)
    }

    proof fn weak_order(&self, a: usize, b: usize, c: usize) {
        let x = self.column@[a as int]@;
        let y = self.column@[b as int]@;
        let z = self.column@[c as int]@;
        crate::text::law_text_order(x, y, z);
        crate::text::law_text_order(z, y, x);
        crate::text::law_text_order(x, z, y);
        crate::text::law_text_order(y, x, z);
    }

    fn is_below(&self, a: usize, b: usize) -> (r: bool) {
        comes_before(self.column[a].as_str(), self.column[b].as_str())
    }
}

/// One text comes before another; a missing one comes before every text.
pub open spec fn known_before(a: Option<Seq<char>>, b: Option<Seq<char>>) -> bool {
    match (a, b) {
        (Some(x), Some(y)) => crate::text::text_before(x, y),
        (None, Some(_)) => true,
        _ => false,
    }
}

/// Rows in the order of texts that may be missing, the missing ones first.
pub struct ByKnownText<'a> {
    pub column: &'a Vec<Option<String>>,
}

impl<'a> RowOrder for ByKnownText<'a> {
    open spec fn rows(&self) -> nat {
        self.column@.len()
    }

    open spec fn below(&self, a: usize, b: usize) -> bool {
        known_before(
            crate::text::known_text(self.column@[a as int]),
            crate::text::known_text(self.column@[b as int]),
        )
    }

    proof fn weak_order(&self, a: usize, b: usize, c: usize) {
        let x = crate::text::known_text(self.column@[a as int]);
        let y = crate::text::known_text(self.column@[b as int]);
        let z = crate::text::known_text(self.column@[c as int]);
        match (x, y, z) {
            (Some(s), Some(t), Some(u)) => {
                crate::text::law_text_order(s, t, u);
                crate::text::law_text_order(u, t, s);
                crate::text::law_text_order(s, u, t);
                crate::text::law_text_order(t, s, u);
            },
            (Some(s), _, _) => {
                crate::text::law_text_order(s, s, s);
            },
            _ => {},
        }
    }

    fn is_below(&self, a: usize, b: usize) -> (r: bool) {
        match (&self.column[a], &self.column[b]) {
            (Some(x), Some(y)) => comes_before(x.as_str(), y.as_str()),
            (None, Some(_)) => true,
            _ => false,
        }
    }
}

/// Rows in the order of their ranks.
pub struct ByRank<'a> {
    pub column: &'a Vec<i128>,
}

impl<'a> RowOrder for ByRank<'a> {
    open spec fn rows(&self) -> nat {
        self.column@.len()
    }

    open spec fn below(&self, a: usize, b: usize) -> bool {
        self.column@[a as int] < self.column@[b as int]
    }

    proof fn weak_order(&self, a: usize, b: usize, c: usize) {
    }

    fn is_below(&self, a: usize, b: usize) -> (r: bool) {
        self.column[a] < self.column[b]
    }
}

/// The places below `n`, in order.
pub fn all_rows(n: usize) -> (rows: Vec<usize>)
    ensures
        rows@ == Seq::new(n as nat, |i: int| i as usize),
{
    let mut rows: Vec<usize> = Vec::new();
    let mut i: usize = 0;
    while i < n
        invariant
            i <= n,
            rows@ == Seq::new(i as nat, |k: int| k as usize),
        decreases n - i,
    {
        rows.push(i);
        i += 1;
    }
    rows
}

} // verus!

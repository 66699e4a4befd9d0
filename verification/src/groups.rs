//! Stable grouping of rows by a key, and stable ordering of rows by a rank.
use crate::double::Double;
use crate::sorting::{all_rows, sort_rows, ByRank};
use crate::text::same_known;
use vstd::prelude::*;

verus! {

/// A key by which rows are grouped.
pub trait GroupKey {
    /// What two keys must have in common to be the same.
    type Value;

    spec fn value(&self) -> Self::Value;

    fn same(&self, other: &Self) -> (r: bool)
        ensures
            r == (self.value() == other.value()),
    ;
}

impl GroupKey for String {
    type Value = Seq<char>;

    open spec fn value(&self) -> Seq<char> {
        self@
    }

    fn same(&self, other: &Self) -> (r: bool) {
        *self == *other
    }
}

impl GroupKey for i32 {
    type Value = i32;

    open spec fn value(&self) -> i32 {
        *self
    }

    fn same(&self, other: &Self) -> (r: bool) {
        *self == *other
    }
}

impl GroupKey for Option<i32> {
    type Value = Option<i32>;

    open spec fn value(&self) -> Option<i32> {
        *self
    }

    fn same(&self, other: &Self) -> (r: bool) {
        match (*self, *other) {
            (Some(a), Some(b)) => a == b,
            (None, None) => true,
            _ => false,
        }
    }
}

impl GroupKey for Option<String> {
    type Value = Option<Seq<char>>;

    open spec fn value(&self) -> Option<Seq<char>> {
        crate::text::known_text(*self)
    }

    fn same(&self, other: &Self) -> (r: bool) {
        same_known(self, other)
    }
}

impl GroupKey for (Option<String>, Option<String>) {
    type Value = (Option<Seq<char>>, Option<Seq<char>>);

    open spec fn value(&self) -> (Option<Seq<char>>, Option<Seq<char>>) {
        (crate::text::known_text(self.0), crate::text::known_text(self.1))
    }

    fn same(&self, other: &Self) -> (r: bool) {
        same_known(&self.0, &other.0) && same_known(&self.1, &other.1)
    }
}

impl GroupKey for (String, String) {
    type Value = (Seq<char>, Seq<char>);

    open spec fn value(&self) -> (Seq<char>, Seq<char>) {
        (self.0@, self.1@)
    }

    fn same(&self, other: &Self) -> (r: bool) {
        self.0 == other.0 && self.1 == other.1
    }
}

impl GroupKey for (String, String, String) {
    type Value = (Seq<char>, Seq<char>, Seq<char>);

    open spec fn value(&self) -> (Seq<char>, Seq<char>, Seq<char>) {
        (self.0@, self.1@, self.2@)
    }

    fn same(&self, other: &Self) -> (r: bool) {
        self.0 == other.0 && self.1 == other.1 && self.2 == other.2
    }
}

/// The values of a column of keys.
pub open spec fn values<T: GroupKey>(keys: Seq<T>) -> Seq<T::Value> {
    Seq::new(keys.len(), |i: int| keys[i].value())
}

/// The rows that hold `v`, in their order.
pub open spec fn rows_with<V>(column: Seq<V>, v: V) -> Seq<usize>
    decreases column.len(),
{
    if column.len() == 0 {
        Seq::empty()
    } else {
        let before = rows_with(column.drop_last(), v);
        if column.last() == v {
            before.push((column.len() - 1) as usize)
        } else {
            before
        }
    }
}

/// The distinct values of a column, in the order of their first rows.
pub open spec fn distinct<V>(column: Seq<V>) -> Seq<V>
    decreases column.len(),
{
    if column.len() == 0 {
        Seq::empty()
    } else {
        let before = distinct(column.drop_last());
        if column.drop_last().contains(column.last()) {
            before
        } else {
            before.push(column.last())
        }
    }
}

/// Each value of the column is among its distinct values, once.
pub proof fn law_distinct<V>(column: Seq<V>)
    ensures
        distinct(column).no_duplicates(),
        forall|v: V| #[trigger] distinct(column).contains(v) <==> column.contains(v),
        distinct(column).len() <= column.len(),
    decreases column.len(),
{
    if column.len() > 0 {
        let rest = column.drop_last();
        let last = column.last();
        law_distinct(rest);
        assert(column =~= rest.push(last));
        assert forall|v: V| #[trigger] distinct(column).contains(v) <==> column.contains(v) by {
            if column.contains(v) {
                let i = choose|i: int| 0 <= i < column.len() && column[i] == v;
                if i < rest.len() {
                    assert(rest[i] == v);
                    assert(rest.contains(v));
                    assert(distinct(rest).contains(v));
                    let k = choose|k: int| 0 <= k < distinct(rest).len() && distinct(rest)[k] == v;
                    assert(distinct(column)[k] == v);
                } else if rest.contains(last) {
                    assert(distinct(rest).contains(v));
                } else {
                    assert(distinct(column).last() == v);
                }
            }
            if distinct(column).contains(v) {
                let k = choose|k: int| 0 <= k < distinct(column).len() && distinct(column)[k] == v;
                if k < distinct(rest).len() {
                    assert(distinct(rest)[k] == v);
                    assert(distinct(rest).contains(v));
                    assert(rest.contains(v));
                    let i = choose|i: int| 0 <= i < rest.len() && rest[i] == v;
                    assert(column[i] == v);
                } else {
                    assert(column[column.len() - 1] == v);
                }
            }
        }
        assert forall|k: int, l: int|
            0 <= k < distinct(column).len() && 0 <= l < distinct(column).len() && k
                != l implies distinct(column)[k] != distinct(column)[l] by {
            let top = distinct(rest).len() as int;
            if k == top {
                assert(distinct(rest).contains(distinct(rest)[l]));
            }
            if l == top {
                assert(distinct(rest).contains(distinct(rest)[k]));
            }
        }
    }
}

/// The rows that hold a value are those rows and no others, in ascending order.
pub proof fn law_rows_with<V>(column: Seq<V>, v: V)
    requires
        column.len() <= usize::MAX,
    ensures
        forall|k: int|
            0 <= k < rows_with(column, v).len() ==> (#[trigger] rows_with(column, v)[k])
                < column.len() && column[rows_with(column, v)[k] as int] == v,
        forall|k: int, l: int|
            0 <= k < l < rows_with(column, v).len() ==> (#[trigger] rows_with(column, v)[k]) < (
            #[trigger] rows_with(column, v)[l]),
        forall|i: int|
            0 <= i < column.len() && #[trigger] column[i] == v ==> rows_with(column, v).contains(
                i as usize,
            ),
    decreases column.len(),
{
    if column.len() > 0 {
        let rest = column.drop_last();
        law_rows_with(rest, v);
        let r = rows_with(column, v);
        let q = rows_with(rest, v);
        assert forall|i: int| 0 <= i < column.len() && #[trigger] column[i] == v implies r.contains(
            i as usize,
        ) by {
            if i < rest.len() {
                assert(rest[i] == v);
                let k = choose|k: int| 0 <= k < q.len() && q[k] == i as usize;
                assert(r[k] == i as usize);
            } else {
                assert(r.last() == i as usize);
            }
        }
        assert forall|k: int| 0 <= k < r.len() implies (#[trigger] r[k]) < column.len()
            && column[r[k] as int] == v by {
            if k < q.len() {
                assert(r[k] == q[k]);
                assert(rest[q[k] as int] == v);
            }
        }
        assert forall|k: int, l: int| 0 <= k < l < r.len() implies (#[trigger] r[k]) < (
        #[trigger] r[l]) by {
            if l < q.len() {
                assert(q[k] < q[l]);
            } else {
                assert(r[k] == q[k]);
            }
        }
    }
}

/// The rows of each distinct key, in the order of the keys' first rows.
pub fn group_rows<T: GroupKey>(keys: &Vec<T>) -> (groups: Vec<Vec<usize>>)
    ensures
        groups@.len() == distinct(values(keys@)).len(),
        forall|g: int|
            0 <= g < groups@.len() ==> (#[trigger] groups@[g])@ == rows_with(
                values(keys@),
                distinct(values(keys@))[g],
            ),
{
    let mut groups: Vec<Vec<usize>> = Vec::new();
    let mut i: usize = 0;
    let ghost column = values(keys@);
    while i < keys.len()
        invariant
            i <= keys@.len(),
            column == values(keys@),
            groups@.len() == distinct(column.take(i as int)).len(),
            forall|g: int|
                0 <= g < groups@.len() ==> (#[trigger] groups@[g])@ == rows_with(
                    column.take(i as int),
                    distinct(column.take(i as int))[g],
                ),
        decreases keys@.len() - i,
    {
        let ghost before = column.take(i as int);
        let ghost after = column.take(i + 1);
        proof {
            assert(after.drop_last() =~= before);
            assert(after.last() == keys@[i as int].value());
            law_distinct(before);
        }
        let ghost old_groups = groups@;
        let mut g: usize = 0;
        let mut found = false;
        while g < groups.len() && !found
            invariant
                i < keys@.len(),
                column == values(keys@),
                before == column.take(i as int),
                g <= groups@.len(),
                groups@ == old_groups,
                groups@.len() == distinct(before).len(),
                forall|h: int|
                    0 <= h < groups@.len() ==> (#[trigger] groups@[h])@ == rows_with(
                        before,
                        distinct(before)[h],
                    ),
                forall|v| #[trigger] distinct(before).contains(v) <==> before.contains(v),
                found ==> g < groups@.len() && distinct(before)[g as int]
                    == keys@[i as int].value(),
                !found ==> forall|h: int|
                    0 <= h < g ==> #[trigger] distinct(before)[h] != keys@[i as int].value(),
            decreases groups@.len() - g + (if found { 0int } else { 1int }),
        {
            proof {
                law_rows_with(before, distinct(before)[g as int]);
                assert(distinct(before).contains(distinct(before)[g as int]));
                let j = choose|j: int|
                    0 <= j < before.len() && before[j] == distinct(before)[g as int];
                assert(rows_with(before, distinct(before)[g as int]).contains(j as usize));
            }
            let leader: usize = groups[g][0];
            proof {
                assert(leader == rows_with(before, distinct(before)[g as int])[0]);
                assert(before[leader as int] == distinct(before)[g as int]);
            }
            if keys[leader].same(&keys[i]) {
                found = true;
            } else {
                g += 1;
            }
        }
        if found {
            proof {
                assert(distinct(before).contains(keys@[i as int].value()));
            }
            let mut rows: Vec<usize> = Vec::new();
            std::mem::swap(&mut rows, &mut groups[g]);
            rows.push(i);
            groups[g] = rows;
            proof {
                assert(distinct(after) == distinct(before));
                assert forall|h: int| 0 <= h < groups@.len() implies (#[trigger] groups@[h])@
                    == rows_with(after, distinct(after)[h]) by {
                    if h != g {
                        law_distinct(before);
                        assert(distinct(before)[h] != distinct(before)[g as int]);
                        assert(groups@[h] == old_groups[h]);
                    } else {
                        assert(old_groups[h]@ == rows_with(before, distinct(before)[h]));
                    }
                }
            }
        } else {
            let mut rows: Vec<usize> = Vec::new();
            rows.push(i);
            let ghost v = keys@[i as int].value();
            proof {
                if before.contains(v) {
                    assert(distinct(before).contains(v));
                    let h = choose|h: int| 0 <= h < distinct(before).len() && distinct(before)[h] == v;
                    assert(distinct(before)[h] != v);
                }
                law_rows_with(before, v);
                if rows_with(before, v).len() > 0 {
                    assert(before[rows_with(before, v)[0] as int] == v);
                }
                assert(rows_with(before, v) =~= Seq::empty());
            }
            groups.push(rows);
            proof {
                assert forall|h: int| 0 <= h < groups@.len() implies (#[trigger] groups@[h])@
                    == rows_with(after, distinct(after)[h]) by {
                    if h < old_groups.len() {
                        assert(groups@[h] == old_groups[h]);
                        assert(distinct(before).contains(distinct(before)[h]));
                    }
                }
            }
        }
        i += 1;
    }
    proof {
        assert(column.take(keys@.len() as int) =~= column);
    }
    groups
}

/// Every group has rows: its first row holds its key.
pub proof fn law_groups_have_rows<V>(column: Seq<V>, g: int)
    requires
        column.len() <= usize::MAX,
        0 <= g < distinct(column).len(),
    ensures
        rows_with(column, distinct(column)[g]).len() > 0,
        column[rows_with(column, distinct(column)[g])[0] as int] == distinct(column)[g],
        forall|x: int|
            0 <= x < rows_with(column, distinct(column)[g]).len() ==> (#[trigger] rows_with(
                column,
                distinct(column)[g],
            )[x]) < column.len(),
{
    let keys = distinct(column);
    law_distinct(column);
    law_rows_with(column, keys[g]);
    assert(keys.contains(keys[g]));
    let i = choose|i: int| 0 <= i < column.len() && column[i] == keys[g];
    assert(rows_with(column, keys[g]).contains(i as usize));
}

/// How many of the given rows are not missing.
pub open spec fn count_known<V>(column: Seq<Option<V>>, rows: Seq<usize>) -> nat
    decreases rows.len(),
{
    if rows.len() == 0 {
        0
    } else {
        count_known(column, rows.drop_last()) + (if column[rows.last() as int] is Some {
            1nat
        } else {
            0nat
        })
    }
}

/// How many of the given rows are not missing.
pub fn known_rows<T>(column: &Vec<Option<T>>, rows: &Vec<usize>) -> (r: usize)
    requires
        forall|k: int| 0 <= k < rows@.len() ==> #[trigger] rows@[k] < column@.len(),
    ensures
        r == count_known(column@, rows@),
{
    let mut n: usize = 0;
    let mut i: usize = 0;
    while i < rows.len()
        invariant
            n <= i <= rows@.len(),
            forall|k: int| 0 <= k < rows@.len() ==> #[trigger] rows@[k] < column@.len(),
            n == count_known(column@, rows@.take(i as int)),
        decreases rows@.len() - i,
    {
        proof {
            assert(rows@.take(i + 1).drop_last() =~= rows@.take(i as int));
        }
        if column[rows[i]].is_some() {
            n += 1;
        }
        i += 1;
    }
    proof {
        assert(rows@.take(rows@.len() as int) =~= rows@);
    }
    n
}

/// `order` lists each row below `n` once.
pub open spec fn is_arrangement(order: Seq<usize>, n: nat) -> bool {
    &&& order.len() == n
    &&& order.no_duplicates()
    &&& forall|k: int| 0 <= k < order.len() ==> #[trigger] order[k] < n
}

/// Row `a` comes before row `b`: it has the lower rank, or the same rank and
/// the earlier place.
pub open spec fn ranked_before(ranks: Seq<int>, a: usize, b: usize) -> bool {
    ranks[a as int] < ranks[b as int] || (ranks[a as int] == ranks[b as int] && a < b)
}

/// `order` is the stable ascending order of the rows by their ranks.
pub open spec fn is_stable_order(order: Seq<usize>, ranks: Seq<int>) -> bool {
    &&& is_arrangement(order, ranks.len())
    &&& forall|k: int, l: int|
        0 <= k < l < order.len() ==> ranked_before(ranks, #[trigger] order[k], #[trigger] order[l])
}

/// The ranks as integers.
pub open spec fn as_ints(ranks: Seq<i128>) -> Seq<int> {
    Seq::new(ranks.len(), |i: int| ranks[i] as int)
}

/// The rows in the ascending stable order of their ranks.
pub fn order_by_rank(ranks: &Vec<i128>) -> (order: Vec<usize>)
    ensures
        is_stable_order(order@, as_ints(ranks@)),
{
    let rows = all_rows(ranks.len());
    let by_rank = ByRank { column: ranks };
    let order = sort_rows(&by_rank, &rows);
    proof {
        let all = as_ints(ranks@);
        assert forall|k: int| 0 <= k < order@.len() implies #[trigger] order@[k] < all.len() by {
            assert(order@.contains(order@[k]));
            let i = choose|i: int| 0 <= i < rows@.len() && rows@[i] == order@[k];
            assert(rows@[i] == i as usize);
        }
        assert forall|k: int, l: int| 0 <= k < l < order@.len() implies ranked_before(
            all,
            #[trigger] order@[k],
            #[trigger] order@[l],
        ) by {
            assert(crate::sorting::listed_before(by_rank, order@[k], order@[l]));
        }
        assert(order@.no_duplicates());
    }
    order
}

/// The ranks of a column of numbers.
pub open spec fn double_ranks(column: Seq<Double>) -> Seq<int> {
    Seq::new(column.len(), |i: int| column[i].rank())
}

/// The rows in the ascending stable order of a column of numbers, those that
/// are not numbers last.
pub fn order_by_double(column: &Vec<Double>) -> (order: Vec<usize>)
    ensures
        is_stable_order(order@, double_ranks(column@)),
{
    let mut ranks: Vec<i128> = Vec::new();
    let mut i: usize = 0;
    while i < column.len()
        invariant
            i <= column@.len(),
            ranks@.len() == i,
            forall|k: int| 0 <= k < i ==> #[trigger] ranks@[k] == column@[k].rank(),
        decreases column@.len() - i,
    {
        ranks.push(column[i].rank_value());
        i += 1;
    }
    proof {
        assert(as_ints(ranks@) =~= double_ranks(column@));
    }
    order_by_rank(&ranks)
}

/// The distinct values stand in the order of their first rows: every row with a
/// value comes after some row with each of the values before it.
pub proof fn law_distinct_in_order_of_first_rows<V>(column: Seq<V>, g: int, h: int, i: int)
    requires
        0 <= g < h < distinct(column).len(),
        0 <= i < column.len(),
        column[i] == distinct(column)[h],
    ensures
        exists|j: int| 0 <= j < i && #[trigger] column[j] == distinct(column)[g],
    decreases column.len(),
{
    let rest = column.drop_last();
    let last = column.last();
    law_distinct(rest);
    law_distinct(column);
    if h < distinct(rest).len() {
        assert(distinct(column)[g] == distinct(rest)[g]);
        if i < rest.len() {
            law_distinct_in_order_of_first_rows(rest, g, h, i);
            let j = choose|j: int| 0 <= j < i && #[trigger] rest[j] == distinct(rest)[g];
            assert(column[j] == distinct(column)[g]);
        } else {
            assert(distinct(rest).contains(distinct(rest)[g]));
            let j = choose|j: int| 0 <= j < rest.len() && rest[j] == distinct(rest)[g];
            assert(column[j] == distinct(column)[g]);
        }
    } else {
        assert(distinct(column) == distinct(rest).push(last));
        assert(distinct(rest).contains(distinct(rest)[g]));
        let j = choose|j: int| 0 <= j < rest.len() && rest[j] == distinct(rest)[g];
        if i < rest.len() {
            assert(rest[i] == last);
            assert(rest.contains(last));
        }
        assert(column[j] == distinct(column)[g]);
    }
}

/// Of the rows with a key those are counted that are not missing: one more row
/// counts exactly where it has the key and is not missing.
pub proof fn law_known_rows_are_counted<K, V>(
    keys: Seq<K>,
    column: Seq<Option<V>>,
    v: K,
    key: K,
    x: Option<V>,
)
    requires
        keys.len() == column.len() < usize::MAX,
    ensures
        count_known(Seq::<Option<V>>::empty(), rows_with(Seq::<K>::empty(), v)) == 0,
        count_known(column.push(x), rows_with(keys.push(key), v)) == count_known(
            column,
            rows_with(keys, v),
        ) + (if key == v && x is Some {
            1nat
        } else {
            0nat
        }),
{
    law_rows_with(keys, v);
    let rows = rows_with(keys, v);
    assert(keys.push(key).drop_last() =~= keys);
    lemma_count_of_longer(column, x, rows);
    if key == v {
        assert(rows_with(keys.push(key), v).drop_last() =~= rows);
    }
}

proof fn lemma_count_of_longer<V>(column: Seq<Option<V>>, x: Option<V>, rows: Seq<usize>)
    requires
        forall|k: int| 0 <= k < rows.len() ==> #[trigger] rows[k] < column.len(),
    ensures
        count_known(column.push(x), rows) == count_known(column, rows),
    decreases rows.len(),
{
    if rows.len() > 0 {
        lemma_count_of_longer(column, x, rows.drop_last());
        assert(rows[rows.len() - 1] < column.len());
    }
}

} // verus!

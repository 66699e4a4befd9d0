//! Joining rows to the rows of another table by a key.
use crate::double::Double;
use crate::groups::GroupKey;
use vstd::prelude::*;

verus! {

/// A pair of joined rows: a row of the left table, and the row of the right
/// table that has its key, where there is one.
pub type Joined = (usize, Option<usize>);

/// The value of a key that may be missing.
pub open spec fn known_value<T: GroupKey>(key: Option<T>) -> Option<T::Value> {
    match key {
        Some(k) => Some(k.value()),
        None => None,
    }
}

/// The values of a column of keys, some of which are missing.
pub open spec fn known_values<T: GroupKey>(keys: Seq<Option<T>>) -> Seq<Option<T::Value>> {
    Seq::new(keys.len(), |i: int| known_value(keys[i]))
}

/// The rows of the right column that match a key; a missing key matches none.
pub open spec fn hits<V>(right: Seq<Option<V>>, key: Option<V>) -> Seq<usize> {
    if key is None {
        Seq::empty()
    } else {
        crate::groups::rows_with(right, key)
    }
}

/// The left row paired with each of its matches, or with nothing.
pub open spec fn pairs(row: usize, matched: Seq<usize>) -> Seq<Joined> {
    if matched.len() == 0 {
        seq![(row, None)]
    } else {
        Seq::new(matched.len(), |h: int| (row, Some(matched[h])))
    }
}

/// The left join of two columns of keys, in the order of the left rows.
pub open spec fn left_joined<V>(left: Seq<Option<V>>, right: Seq<Option<V>>) -> Seq<Joined>
    decreases left.len(),
{
    if left.len() == 0 {
        Seq::empty()
    } else {
        left_joined(left.drop_last(), right) + pairs(
            (left.len() - 1) as usize,
            hits(right, left.last()),
        )
    }
}

/// Appends a left row paired with each of its matches, or with nothing.
fn pair_row<T: GroupKey>(row: usize, key: &Option<T>, right: &Vec<Option<T>>, out: &mut Vec<Joined>)
    ensures
        final(out)@ == old(out)@ + pairs(row, hits(known_values(right@), known_value(*key))),
{
    let ghost column = known_values(right@);
    let ghost start = out@;
    let mut found = false;
    if let Some(k) = key {
        let mut j: usize = 0;
        proof {
            assert(out@ =~= start + Seq::<Joined>::empty());
        }
        while j < right.len()
            invariant
                j <= right@.len(),
                column == known_values(right@),
                *key == Some(*k),
                ({
                    let seen = crate::groups::rows_with(column.take(j as int), Some(k.value()));
                    &&& found == (seen.len() > 0)
                    &&& out@ == start + Seq::new(
                        seen.len(),
                        |h: int| (row, Some::<usize>(seen[h])),
                    )
                }),
            decreases right@.len() - j,
        {
            let ghost seen = crate::groups::rows_with(column.take(j as int), Some(k.value()));
            proof {
                assert(column.take(j + 1).drop_last() =~= column.take(j as int));
            }
            if let Some(other) = &right[j] {
                if k.same(other) {
                    out.push((row, Some(j)));
                    found = true;
                    proof {
                        let now = seen.push(j);
                        assert(out@ =~= start + Seq::new(
                            now.len(),
                            |h: int| (row, Some::<usize>(now[h])),
                        ));
                    }
                }
            }
            j += 1;
        }
        proof {
            assert(column.take(right@.len() as int) =~= column);
        }
    }
    if !found {
        out.push((row, None));
    }
    proof {
        assert(out@ =~= start + pairs(row, hits(column, known_value(*key))));
    }
}

/// The left join of two columns of keys, in the order of the left rows.
pub fn left_join<T: GroupKey>(left: &Vec<Option<T>>, right: &Vec<Option<T>>) -> (out: Vec<Joined>)
    ensures
        out@ == left_joined(known_values(left@), known_values(right@)),
{
    let mut out: Vec<Joined> = Vec::new();
    let ghost column = known_values(left@);
    let mut i: usize = 0;
    while i < left.len()
        invariant
            i <= left@.len(),
            column == known_values(left@),
            out@ == left_joined(column.take(i as int), known_values(right@)),
        decreases left@.len() - i,
    {
        proof {
            assert(column.take(i + 1).drop_last() =~= column.take(i as int));
        }
        pair_row(i, &left[i], right, &mut out);
        i += 1;
    }
    proof {
        assert(column.take(left@.len() as int) =~= column);
    }
    out
}

/// The value of a joined row; zero where nothing was joined.
pub open spec fn value_or_zero(values: Seq<Double>, row: Option<usize>) -> Double {
    match row {
        Some(j) => values[j as int],
        None => Double { bits: 0 },
    }
}

/// A column of the right table, joined to the rows of the left one, with zero
/// where nothing matches.
pub fn joined_column<T: GroupKey>(
    left: &Vec<Option<T>>,
    right: &Vec<Option<T>>,
    values: &Vec<Double>,
) -> (out: Vec<Double>)
    requires
        right@.len() == values@.len(),
    ensures
        out@ == left_joined(known_values(left@), known_values(right@)).map_values(
            |p: Joined| value_or_zero(values@, p.1),
        ),
{
    let rows = left_join(left, right);
    let ghost joined = left_joined(known_values(left@), known_values(right@));
    let mut out: Vec<Double> = Vec::new();
    let mut i: usize = 0;
    let n: usize = right.len();
    while i < rows.len()
        invariant
            i <= rows@.len(),
            n == right@.len(),
            right@.len() == values@.len(),
            rows@ == joined,
            joined == left_joined(known_values(left@), known_values(right@)),
            out@.len() == i,
            forall|k: int| 0 <= k < i ==> #[trigger] out@[k] == value_or_zero(values@, joined[k].1),
        decreases rows@.len() - i,
    {
        proof {
            lemma_joined_in_range(known_values(left@), known_values(right@), i as int);
        }
        let value = match rows[i].1 {
            Some(j) => values[j],
            None => Double { bits: 0 },
        };
        out.push(value);
        i += 1;
    }
    proof {
        assert(out@ =~= joined.map_values(|p: Joined| value_or_zero(values@, p.1)));
    }
    out
}

proof fn lemma_joined_in_range<V>(left: Seq<Option<V>>, right: Seq<Option<V>>, k: int)
    requires
        0 <= k < left_joined(left, right).len(),
        right.len() <= usize::MAX,
    ensures
        left_joined(left, right)[k].1 matches Some(j) ==> j < right.len(),
    decreases left.len(),
{
    let rest = left.drop_last();
    let before = left_joined(rest, right);
    if k < before.len() {
        lemma_joined_in_range(rest, right, k);
    } else {
        crate::groups::law_rows_with(right, left.last());
    }
}

/// A left join keeps every row of the left table, once and in order, where no
/// key of the right table occurs twice.
pub proof fn law_left_join_keeps_rows<V>(left: Seq<Option<V>>, right: Seq<Option<V>>)
    requires
        left.len() <= usize::MAX,
        right.len() <= usize::MAX,
        forall|i: int, j: int|
            0 <= i < j < right.len() && right[i] is Some ==> #[trigger] right[i]
                != #[trigger] right[j],
    ensures
        left_joined(left, right).len() == left.len(),
        forall|i: int|
            0 <= i < left.len() ==> {
                let (row, matched) = #[trigger] left_joined(left, right)[i];
                &&& row == i
                &&& matched matches Some(j) ==> j < right.len() && right[j as int] == left[i]
                    && left[i] is Some
                &&& matched is None && left[i] is Some ==> !right.contains(left[i])
            },
    decreases left.len(),
{
    if left.len() > 0 {
        let rest = left.drop_last();
        law_left_join_keeps_rows(rest, right);
        let before = left_joined(rest, right);
        let after = left_joined(left, right);
        let key = left.last();
        let found = hits(right, key);
        crate::groups::law_rows_with(right, key);
        if found.len() > 1 {
            assert(right[found[0] as int] == right[found[1] as int]);
        }
        if key is Some && right.contains(key) {
            let j = choose|j: int| 0 <= j < right.len() && right[j] == key;
            assert(found.contains(j as usize));
        }
        assert forall|i: int| 0 <= i < left.len() implies ({
            let (row, matched) = #[trigger] after[i];
            &&& row == i
            &&& matched matches Some(j) ==> j < right.len() && right[j as int] == left[i]
                && left[i] is Some
            &&& matched is None && left[i] is Some ==> !right.contains(left[i])
        }) by {
            if i < rest.len() {
                assert(after[i] == before[i]);
                assert(rest[i] == left[i]);
            } else {
                assert(after[i] == pairs((left.len() - 1) as usize, found)[0]);
            }
        }
    }
}

/// A left join pairs a left row with every right row that has its key, and with
/// nothing exactly where there is none or its key is missing. The pairs stand in
/// the order of the left rows, those of one row in the order of the right ones.
pub proof fn law_left_join_pairs<V>(left: Seq<Option<V>>, right: Seq<Option<V>>)
    requires
        left.len() <= usize::MAX,
        right.len() <= usize::MAX,
    ensures
        forall|i: int, j: int|
            0 <= i < left.len() && 0 <= j < right.len() && left[i] is Some && #[trigger] left[i]
                == #[trigger] right[j] ==> left_joined(left, right).contains(
                (i as usize, Some(j as usize)),
            ),
        forall|i: int|
            0 <= i < left.len() && (left[i] is None || !right.contains(#[trigger] left[i]))
                ==> left_joined(left, right).contains((i as usize, None::<usize>)),
        forall|k: int|
            0 <= k < left_joined(left, right).len() ==> {
                let (row, matched) = #[trigger] left_joined(left, right)[k];
                &&& row < left.len()
                &&& matched matches Some(j) ==> j < right.len() && left[row as int] is Some
                    && right[j as int] == left[row as int]
                &&& matched is None ==> left[row as int] is None || !right.contains(
                    left[row as int],
                )
            },
        forall|k: int, l: int|
            0 <= k < l < left_joined(left, right).len() ==> {
                let (row, matched) = #[trigger] left_joined(left, right)[k];
                let (other, next) = #[trigger] left_joined(left, right)[l];
                row < other || (row == other && matched is Some && next is Some
                    && matched.unwrap() < next.unwrap())
            },
    decreases left.len(),
{
    if left.len() > 0 {
        let rest = left.drop_last();
        law_left_join_pairs(rest, right);
        let before = left_joined(rest, right);
        let after = left_joined(left, right);
        let last = left.len() - 1;
        let key = left.last();
        let found = hits(right, key);
        let added = pairs(last as usize, found);
        crate::groups::law_rows_with(right, key);
        assert forall|x: Joined| before.contains(x) || added.contains(x) implies after.contains(
            x,
        ) by {
            if before.contains(x) {
                let k = choose|k: int| 0 <= k < before.len() && before[k] == x;
                assert(after[k] == x);
            } else {
                let k = choose|k: int| 0 <= k < added.len() && added[k] == x;
                assert(after[before.len() + k] == x);
            }
        }
        if key is Some && right.contains(key) {
            let j = choose|j: int| 0 <= j < right.len() && right[j] == key;
            assert(found.contains(j as usize));
        } else {
            if found.len() > 0 {
                assert(right[found[0] as int] == key);
            }
            assert(added[0] == (last as usize, None::<usize>));
        }
        assert forall|i: int, j: int|
            0 <= i < left.len() && 0 <= j < right.len() && left[i] is Some && #[trigger] left[i]
                == #[trigger] right[j] implies after.contains((i as usize, Some(j as usize))) by {
            if i < last {
                assert(rest[i] == left[i]);
                assert(before.contains((i as usize, Some(j as usize))));
            } else {
                assert(found.contains(j as usize));
                let h = choose|h: int| 0 <= h < found.len() && found[h] == j as usize;
                assert(added[h] == (i as usize, Some(j as usize)));
                assert(added.contains((i as usize, Some(j as usize))));
            }
        }
        assert forall|i: int|
            0 <= i < left.len() && (left[i] is None || !right.contains(
                #[trigger] left[i],
            )) implies after.contains((i as usize, None::<usize>)) by {
            if i < last {
                assert(rest[i] == left[i]);
                assert(before.contains((i as usize, None::<usize>)));
            } else {
                assert(added.contains((i as usize, None::<usize>)));
            }
        }
        assert forall|k: int| 0 <= k < after.len() implies ({
            let (row, matched) = #[trigger] after[k];
            &&& row < left.len()
            &&& matched matches Some(j) ==> j < right.len() && left[row as int] is Some
                && right[j as int] == left[row as int]
            &&& matched is None ==> left[row as int] is None || !right.contains(left[row as int])
        }) by {
            if k < before.len() {
                assert(after[k] == before[k]);
                assert(rest[before[k].0 as int] == left[before[k].0 as int]);
            } else {
                assert(after[k] == added[k - before.len()]);
                if found.len() > 0 {
                    assert(right[found[k - before.len()] as int] == key);
                }
            }
        }
        assert forall|k: int, l: int| 0 <= k < l < after.len() implies ({
            let (row, matched) = #[trigger] after[k];
            let (other, next) = #[trigger] after[l];
            row < other || (row == other && matched is Some && next is Some && matched.unwrap()
                < next.unwrap())
        }) by {
            if l < before.len() {
                assert(after[k] == before[k] && after[l] == before[l]);
            } else {
                assert(after[l] == added[l - before.len()]);
                if k < before.len() {
                    assert(after[k] == before[k]);
                } else {
                    assert(after[k] == added[k - before.len()]);
                    assert(found[k - before.len()] < found[l - before.len()]);
                }
            }
        }
    }
}

/// A joined column has the value of the row with the same key, and zero where
/// there is none, where no key of the right table occurs twice.
pub proof fn law_joined_values<V>(
    left: Seq<Option<V>>,
    right: Seq<Option<V>>,
    values: Seq<Double>,
    i: int,
)
    requires
        left.len() <= usize::MAX,
        right.len() <= usize::MAX,
        forall|i: int, j: int|
            0 <= i < j < right.len() && right[i] is Some ==> #[trigger] right[i]
                != #[trigger] right[j],
        0 <= i < left.len(),
    ensures
        ({
            let out = left_joined(left, right).map_values(
                |p: Joined| value_or_zero(values, p.1),
            );
            &&& out.len() == left.len()
            &&& forall|j: int|
                0 <= j < right.len() && left[i] is Some && #[trigger] right[j] == left[i]
                    ==> out[i] == values[j]
            &&& left[i] is None || !right.contains(left[i]) ==> out[i].bits == 0
        }),
{
    law_left_join_keeps_rows(left, right);
    let (row, matched) = left_joined(left, right)[i];
    assert(row == i);
    if let Some(j) = matched {
        assert(right[j as int] == left[i]);
        assert(right.contains(left[i]));
        assert forall|k: int|
            0 <= k < right.len() && left[i] is Some && #[trigger] right[k] == left[i] implies k
            == j by {}
    }
}

} // verus!

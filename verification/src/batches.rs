//! Cutting a list into consecutive batches.
use vstd::prelude::*;

verus! {

/// The places from `start` up to and without `end`.
#[derive(Clone, Copy, PartialEq, Eq, Structural, Debug)]
pub struct Batch {
    pub start: usize,
    pub end: usize,
}

/// How many batches of at most `size` a list of `n` is cut into.
pub open spec fn batch_count(n: int, size: int) -> int {
    if n <= 0 {
        0
    } else {
        (n - 1) / size + 1
    }
}

/// The batch number `k` of a list of `n`.
pub open spec fn batch(n: int, size: int, k: int) -> Batch {
    Batch {
        start: (k * size) as usize,
        end: (if k * size + size < n {
            k * size + size
        } else {
            n
        }) as usize,
    }
}

/// Cuts a list of `n` into batches of `size`, the last one with what is left.
pub fn batches(n: usize, size: usize) -> (r: Vec<Batch>)
    requires
        size > 0,
    ensures
        r@ == Seq::new(
            batch_count(n as int, size as int) as nat,
            |k: int| batch(n as int, size as int, k),
        ),
{
    let mut out: Vec<Batch> = Vec::new();
    let mut start: usize = 0;
    let ghost mut k: int = 0;
    while start < n
        invariant
            size > 0,
            k >= 0,
            out@.len() == k,
            start < n ==> start == k * size,
            start < n ==> k < batch_count(n as int, size as int),
            start >= n ==> k == batch_count(n as int, size as int),
            forall|j: int| 0 <= j < k ==> #[trigger] out@[j] == batch(n as int, size as int, j),
        decreases n - start,
    {
        let end: usize = if size < n - start {
            start + size
        } else {
            n
        };
        out.push(Batch { start, end });
        proof {
            lemma_next(n as int, size as int, k);
            k = k + 1;
        }
        start = end;
    }
    out
}

proof fn lemma_next(n: int, size: int, k: int)
    requires
        size > 0,
        k >= 0,
        k * size < n,
    ensures
        (k + 1) * size == k * size + size,
        k * size + size < n ==> k + 1 < batch_count(n, size),
        k * size + size >= n ==> k + 1 == batch_count(n, size),
{
    assert((k + 1) * size == k * size + size) by (nonlinear_arith);
    vstd::arithmetic::div_mod::lemma_fundamental_div_mod(n - 1, size);
    vstd::arithmetic::div_mod::lemma_mod_bound(n - 1, size);
    let q = (n - 1) / size;
    let r = (n - 1) % size;
    if k * size + size < n {
        assert(k + 1 <= q) by (nonlinear_arith)
            requires
                n - 1 == size * q + r,
                0 <= r < size,
                k * size + size <= n - 1,
        ;
    } else {
        assert(q == k) by (nonlinear_arith)
            requires
                n - 1 == size * q + r,
                0 <= r < size,
                k * size <= n - 1 < k * size + size,
        ;
    }
}

/// The batches follow each other without a gap, from the beginning of the list
/// to its end; each holds at least one place and at most `size`, and only the
/// last one may hold fewer.
pub proof fn law_batches_cover_the_list(n: int, size: int, k: int)
    requires
        0 < size <= usize::MAX,
        0 <= n <= usize::MAX,
        0 <= k < batch_count(n, size),
    ensures
        batch(n, size, 0).start == 0,
        batch(n, size, batch_count(n, size) - 1).end == n,
        k + 1 < batch_count(n, size) ==> batch(n, size, k).end == batch(n, size, k + 1).start,
        k + 1 < batch_count(n, size) ==> batch(n, size, k).end - batch(n, size, k).start == size,
        batch(n, size, k).start < batch(n, size, k).end <= n,
        batch(n, size, k).end - batch(n, size, k).start <= size,
{
    lemma_starts(n, size, k);
    lemma_starts(n, size, batch_count(n, size) - 1);
    lemma_next(n, size, k);
    lemma_next(n, size, batch_count(n, size) - 1);
    assert(0 * size == 0) by (nonlinear_arith);
}

proof fn lemma_starts(n: int, size: int, k: int)
    requires
        size > 0,
        0 <= k < batch_count(n, size),
    ensures
        0 <= k * size < n,
{
    vstd::arithmetic::div_mod::lemma_fundamental_div_mod(n - 1, size);
    vstd::arithmetic::div_mod::lemma_mod_bound(n - 1, size);
    let q = (n - 1) / size;
    assert(0 <= k * size <= n - 1) by (nonlinear_arith)
        requires
            n - 1 == size * q + (n - 1) % size,
            0 <= (n - 1) % size,
            0 <= k <= q,
            size > 0,
    ;
}

/// Every place of the list lies in exactly one batch.
pub proof fn law_place_has_one_batch(n: int, size: int, i: int)
    requires
        0 < size <= usize::MAX,
        0 <= i < n <= usize::MAX,
    ensures
        0 <= i / size < batch_count(n, size),
        batch(n, size, i / size).start <= i < batch(n, size, i / size).end,
        forall|k: int|
            0 <= k < batch_count(n, size) && (#[trigger] batch(n, size, k)).start <= i < batch(
                n,
                size,
                k,
            ).end ==> k == i / size,
{
    let q = i / size;
    vstd::arithmetic::div_mod::lemma_fundamental_div_mod(i, size);
    vstd::arithmetic::div_mod::lemma_mod_bound(i, size);
    vstd::arithmetic::div_mod::lemma_div_is_ordered(i, n - 1, size);
    vstd::arithmetic::div_mod::lemma_div_is_ordered(0, i, size);
    vstd::arithmetic::div_mod::lemma_div_of0(size);
    assert(q * size <= i < q * size + size) by (nonlinear_arith)
        requires
            i == size * q + i % size,
            0 <= i % size < size,
    ;
    lemma_starts(n, size, q);
    assert forall|k: int|
        0 <= k < batch_count(n, size) && (#[trigger] batch(n, size, k)).start <= i < batch(
            n,
            size,
            k,
        ).end implies k == q by {
        lemma_starts(n, size, k);
        assert(k == q) by (nonlinear_arith)
            requires
                k * size <= i < k * size + size,
                q * size <= i < q * size + size,
                size > 0,
        ;
    }
}

} // verus!

//! Splitting a total number of trials across workers by a running remainder.
use vstd::prelude::*;

verus! {

/// Trials still unassigned when worker `i` gets its share: each worker takes
/// the remaining trials divided by the number of workers not yet served.
pub open spec fn remaining_before(total: nat, workers: nat, i: nat) -> nat
    decreases i,
{
    if i == 0 {
        total
    } else {
        let p = remaining_before(total, workers, (i - 1) as nat);
        (p - p / (workers - (i - 1)) as nat) as nat
    }
}

/// The share of worker `i` (for `i < workers`).
pub open spec fn share_of(total: nat, workers: nat, i: nat) -> nat {
    remaining_before(total, workers, i) / (workers - i) as nat
}

/// Sum of a sequence of trial counts.
pub open spec fn sum_counts(s: Seq<usize>) -> nat
    decreases s.len(),
{
    if s.len() == 0 {
        0
    } else {
        sum_counts(s.drop_last()) + s.last() as nat
    }
}

proof fn lemma_split_step(p: int, n: int, q: int)
    requires
        n > 0,
        q >= 0,
        q * n <= p <= (q + 1) * n,
    ensures
        q <= p / n <= q + 1,
        q * (n - 1) <= p - p / n <= (q + 1) * (n - 1),
{
    let a = p / n;
    let r = p % n;
    assert(p == a * n + r && 0 <= r < n) by {
        vstd::arithmetic::div_mod::lemma_fundamental_div_mod(p, n);
    }
    assert(q <= a <= q + 1) by (nonlinear_arith)
        requires
            p == a * n + r,
            0 <= r < n,
            q * n <= p <= (q + 1) * n,
    ;
    assert(q * (n - 1) <= p - a <= (q + 1) * (n - 1)) by (nonlinear_arith)
        requires
            p == a * n + r,
            0 <= r < n,
            q * n <= p <= (q + 1) * n,
            q <= a <= q + 1,
    ;
}

/// Before worker `i`, the remaining trials lie between `q` and `q + 1` per
/// worker still to serve, where `q = total / workers`.
proof fn lemma_remaining_bounds(total: nat, workers: nat, i: nat)
    requires
        workers > 0,
        i <= workers,
    ensures
        (total / workers) * (workers - i) <= remaining_before(total, workers, i) <= (total / workers
            + 1) * (workers - i),
    decreases i,
{
    let q = total / workers;
    if i == 0 {
        assert(q * workers <= total <= (q + 1) * workers) by {
            vstd::arithmetic::div_mod::lemma_fundamental_div_mod(total as int, workers as int);
            vstd::arithmetic::div_mod::lemma_mod_bound(total as int, workers as int);
            let r = total as int % workers as int;
            assert(q * workers <= total <= (q + 1) * workers) by (nonlinear_arith)
                requires
                    total == q * workers + r,
                    0 <= r < workers,
            ;
        }
    } else {
        let j = (i - 1) as nat;
        lemma_remaining_bounds(total, workers, j);
        lemma_split_step(remaining_before(total, workers, j) as int, (workers - j) as int, q as int);
    }
}

/// Every share is the even split of the total, rounded down or up, and once
/// all workers are served no trial is left: the shares add up to the total.
pub proof fn lemma_partition_exact(total: nat, workers: nat)
    requires
        workers > 0,
    ensures
        remaining_before(total, workers, workers) == 0,
        forall|i: nat|
            i < workers ==> total / workers <= #[trigger] share_of(total, workers, i) <= total
                / workers + 1,
{
    lemma_remaining_bounds(total, workers, workers);
    assert forall|i: nat| i < workers implies total / workers <= #[trigger] share_of(
        total,
        workers,
        i,
    ) <= total / workers + 1 by {
        lemma_remaining_bounds(total, workers, i);
        lemma_split_step(
            remaining_before(total, workers, i) as int,
            (workers - i) as int,
            (total / workers) as int,
        );
    }
}

/// The number of trials of each of `workers` workers, in order. Worker `i`
/// gets the trials still unassigned divided by `workers - i`; the shares add
/// up to `total` exactly and differ from `total / workers` by at most one.
pub fn partition_trials(total: usize, workers: usize) -> (shares: Vec<usize>)
    requires
        workers > 0,
    ensures
        shares@.len() == workers,
        forall|i: int|
            0 <= i < workers ==> shares@[i] == share_of(total as nat, workers as nat, i as nat),
        sum_counts(shares@) == total,
        forall|i: int|
            0 <= i < workers ==> total / workers <= #[trigger] shares@[i] <= total / workers + 1,
{
    proof {
        lemma_partition_exact(total as nat, workers as nat);
    }
    let mut shares: Vec<usize> = Vec::new();
    let mut left: usize = total;
    let mut i: usize = 0;
    while i < workers
        invariant
            0 < workers,
            i <= workers,
            left == remaining_before(total as nat, workers as nat, i as nat),
            shares@.len() == i,
            forall|j: int|
                0 <= j < i ==> shares@[j] == share_of(total as nat, workers as nat, j as nat),
            sum_counts(shares@) + left == total,
        decreases workers - i,
    {
        let s = left / (workers - i);
        proof {
            assert(shares@.push(s).drop_last() =~= shares@);
        }
        shares.push(s);
        left = left - s;
        i = i + 1;
    }
    assert forall|i: int| 0 <= i < workers implies total / workers <= #[trigger] shares@[i] <= total
        / workers + 1 by {
        assert(shares@[i] == share_of(total as nat, workers as nat, i as nat));
    }
    shares
}

} // verus!

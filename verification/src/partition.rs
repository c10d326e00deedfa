//! Sharing a run of items out among workers.
//!
//! The shares are fixed before any work starts: every worker gets the same
//! number of consecutive items, and the first worker also gets what is left
//! over.

use vstd::prelude::*;

verus! {

/// How many items worker `id` gets.
pub open spec fn share_len(total: nat, workers: nat, id: nat) -> nat {
    if id == 0 {
        total / workers + total % workers
    } else {
        total / workers
    }
}

/// The first item of worker `id`. At `id == workers` it is `total`.
pub open spec fn share_start(total: nat, workers: nat, id: nat) -> nat {
    if id == 0 {
        0
    } else {
        total % workers + id * (total / workers)
    }
}

/// The worker that item `i` falls to, where every worker gets at least one
/// item or `i` is among the first worker's.
pub open spec fn owner(total: nat, workers: nat, i: nat) -> nat {
    if i < share_len(total, workers, 0) {
        0
    } else {
        ((i - total % workers) / ((total / workers) as int)) as nat
    }
}

/// A worker's items: `len` of them, from `start` on.
#[derive(Clone, Copy, Debug, PartialEq, Eq, Structural)]
pub struct Share {
    pub start: usize,
    pub len: usize,
}

/// Each share begins where the one before it ends.
pub proof fn lemma_shares_adjoin(total: nat, workers: nat, id: nat)
    requires
        workers > 0,
    ensures
        share_start(total, workers, id + 1) == share_start(total, workers, id) + share_len(
            total,
            workers,
            id,
        ),
{
    let per = total / workers;
    assert((id + 1) * per == id * per + per) by (nonlinear_arith);
    assert(0 * per == 0) by (nonlinear_arith);
}

/// The last share ends with the last item.
pub proof fn lemma_shares_end(total: nat, workers: nat)
    requires
        workers > 0,
    ensures
        share_start(total, workers, workers) == total,
{
    vstd::arithmetic::div_mod::lemma_fundamental_div_mod(total as int, workers as int);
}

/// Shares lie in the order of their workers, inside the run.
pub proof fn lemma_shares_ordered(total: nat, workers: nat, a: nat, b: nat)
    requires
        workers > 0,
        a <= b <= workers,
    ensures
        share_start(total, workers, a) <= share_start(total, workers, b) <= total,
{
    let per = total / workers;
    lemma_shares_end(total, workers);
    assert(a * per <= b * per <= workers * per) by (nonlinear_arith)
        requires
            a <= b <= workers,
            0 <= per,
    ;
}

/// Whether item `i` is one of worker `id`'s.
pub open spec fn in_share(total: nat, workers: nat, id: nat, i: nat) -> bool {
    share_start(total, workers, id) <= i < share_start(total, workers, id) + share_len(
        total,
        workers,
        id,
    )
}

/// Every item falls to a worker: the shares leave nothing out.
pub proof fn lemma_owner_holds(total: nat, workers: nat, i: nat)
    requires
        workers > 0,
        i < total,
    ensures
        owner(total, workers, i) < workers,
        in_share(total, workers, owner(total, workers, i), i),
{
    let per = total / workers;
    let rem = total % workers;
    vstd::arithmetic::div_mod::lemma_fundamental_div_mod(total as int, workers as int);
    if i < per + rem {
    } else {
        assert(per > 0) by {
            if per == 0 {
                assert(workers * per == 0) by (nonlinear_arith)
                    requires
                        per == 0,
                ;
            }
        }
        let j = (i - rem) as int;
        let id = j / (per as int);
        vstd::arithmetic::div_mod::lemma_fundamental_div_mod(j, per as int);
        vstd::arithmetic::div_mod::lemma_mod_bound(j, per as int);
        assert(id >= 1 && id < workers) by (nonlinear_arith)
            requires
                j == per * id + j % (per as int),
                0 <= j % (per as int) < per,
                per <= j < workers * per,
                per > 0,
        ;
        assert(id * per == per * id) by (nonlinear_arith);
    }
}

/// No item falls to two workers: the shares do not overlap.
pub proof fn lemma_shares_disjoint(total: nat, workers: nat, a: nat, b: nat, i: nat)
    requires
        workers > 0,
        a < workers,
        b < workers,
        in_share(total, workers, a, i),
        in_share(total, workers, b, i),
    ensures
        a == b,
{
    if a < b {
        lemma_shares_adjoin(total, workers, a);
        lemma_shares_ordered(total, workers, a + 1, b);
    } else if b < a {
        lemma_shares_adjoin(total, workers, b);
        lemma_shares_ordered(total, workers, b + 1, a);
    }
}

/// The share of worker `id` out of `workers`, of a run of `total` items.
pub fn share(total: usize, workers: usize, id: usize) -> (s: Share)
    requires
        workers > 0,
        id < workers,
    ensures
        s.start == share_start(total as nat, workers as nat, id as nat),
        s.len == share_len(total as nat, workers as nat, id as nat),
        s.start + s.len <= total,
{
    let per: usize = total / workers;
    let rem: usize = total % workers;
    proof {
        lemma_shares_adjoin(total as nat, workers as nat, id as nat);
        lemma_shares_ordered(total as nat, workers as nat, (id + 1) as nat, workers as nat);
        assert(0 <= id * per) by (nonlinear_arith)
            requires
                0 <= id,
                0 <= per,
        ;
    }
    if id == 0 {
        Share { start: 0, len: per + rem }
    } else {
        Share { start: rem + id * per, len: per }
    }
}

/// The shares of all workers, in the order of the workers.
pub fn shares(total: usize, workers: usize) -> (all: Vec<Share>)
    requires
        workers > 0,
    ensures
        all@.len() == workers,
        forall|id: int|
            0 <= id < workers ==> (#[trigger] all@[id]).start == share_start(
                total as nat,
                workers as nat,
                id as nat,
            ) && all@[id].len == share_len(total as nat, workers as nat, id as nat),
{
    let mut all: Vec<Share> = Vec::new();
    let mut id: usize = 0;
    while id < workers
        invariant
            workers > 0,
            id <= workers,
            all@.len() == id,
            forall|k: int|
                0 <= k < id ==> (#[trigger] all@[k]).start == share_start(
                    total as nat,
                    workers as nat,
                    k as nat,
                ) && all@[k].len == share_len(total as nat, workers as nat, k as nat),
        decreases workers - id,
    {
        all.push(share(total, workers, id));
        id += 1;
    }
    all
}

} // verus!

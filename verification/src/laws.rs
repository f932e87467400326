//! Cross-call guarantees of the ledger core, proved once and for all over
//! the transition relations that the operations' own contracts establish.

use crate::ledger::{add_requests_ok, credits_for, pause_ok, rate_change_ok, unpause_ok,
    RequestsContract};
use vstd::prelude::*;

verus! {

/// Crediting never decreases any identifier's count.  `add_requests` is the
/// only operation that changes a count at all, and it only adds.
pub proof fn lemma_add_requests_monotone(
    pre: RequestsContract,
    post: RequestsContract,
    id: u64,
    payment: nat,
    k: u64,
)
    requires
        add_requests_ok(pre, post, id, payment),
    ensures
        post.credits(k) >= pre.credits(k),
{
}

/// Accumulation: crediting the same identifier twice with the same payment,
/// with no rate change in between, grants exactly twice the per-call
/// conversion `floor(payment * rate / 10^18)` on top of the starting count.
pub proof fn lemma_repeated_payment_accumulates(
    s0: RequestsContract,
    s1: RequestsContract,
    s2: RequestsContract,
    id: u64,
    payment: nat,
)
    requires
        add_requests_ok(s0, s1, id, payment),
        add_requests_ok(s1, s2, id, payment),
    ensures
        s2.credits(id) == s0.credits(id) + 2 * credits_for(payment, s0.rate()),
{
    assert(s1.credits(id) == s0.credits(id) + credits_for(payment, s0.rate()));
    assert(s2.credits(id) == s1.credits(id) + credits_for(payment, s1.rate()));
}

/// A rate change only affects later calls: crediting at the old rate,
/// changing the rate, then crediting again sums the two conversions, each
/// computed under the rate in force at its own call; the first credit is not
/// recomputed.
pub proof fn lemma_rate_change_only_affects_later(
    s0: RequestsContract,
    s1: RequestsContract,
    s2: RequestsContract,
    s3: RequestsContract,
    id: u64,
    payment1: nat,
    payment2: nat,
    new_rate: nat,
)
    requires
        add_requests_ok(s0, s1, id, payment1),
        rate_change_ok(s1, s2, new_rate),
        add_requests_ok(s2, s3, id, payment2),
    ensures
        s3.credits(id) == s0.credits(id) + credits_for(payment1, s0.rate()) + credits_for(
            payment2,
            new_rate,
        ),
{
    assert(s1.credits(id) == s0.credits(id) + credits_for(payment1, s0.rate()));
    assert(s2.credits(id) == s1.credits(id));
    assert(s3.credits(id) == s2.credits(id) + credits_for(payment2, s2.rate()));
}

/// Pausing is reversible: a pause followed by an unpause restores an active
/// contract and touches neither the rate nor any count.
pub proof fn lemma_pause_is_reversible(
    s0: RequestsContract,
    s1: RequestsContract,
    s2: RequestsContract,
)
    requires
        pause_ok(s0, s1),
        unpause_ok(s1, s2),
    ensures
        !s0.is_paused_spec(),
        !s2.is_paused_spec(),
        s2.rate() == s0.rate(),
        forall|k: u64| #[trigger] s2.credits(k) == s0.credits(k),
{
    assert forall|k: u64| #[trigger] s2.credits(k) == s0.credits(k) by {
        assert(s1.credits(k) == s0.credits(k));
        assert(s2.credits(k) == s1.credits(k));
    }
}

} // verus!

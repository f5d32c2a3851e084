//! The search state shared by every worker: a found flag that is claimed by
//! exactly one worker, and an approximate attempt counter.
//!
//! The executable type holds lock-free atomics, whose values Verus does not
//! model across threads; what the protocol guarantees is therefore stated
//! and proved over a sequential model of the same operations
//! ([`SharedStateModel`]): the flag, once set, never clears, any sequence of
//! claims contains at most one successful claim, and the attempt counter
//! never decreases.

use core::sync::atomic::AtomicBool;
use core::sync::atomic::AtomicU64;
use core::sync::atomic::Ordering;
use vstd::prelude::*;

verus! {

/// Process-wide search state, shared read-only among workers; all mutation
/// goes through lock-free atomics.
pub struct SharedSearchState {
    found: AtomicBool,
    attempts: AtomicU64,
}

impl SharedSearchState {
    /// A fresh state: nothing found, no attempts counted.
    pub fn new() -> SharedSearchState {
        SharedSearchState { found: AtomicBool::new(false), attempts: AtomicU64::new(0) }
    }

    /// Atomically transitions the found flag from false to true and reports
    /// whether this call performed the transition. The atomic
    /// compare-exchange makes exactly one caller across the process receive
    /// true; sequential Verus does not model values shared across threads,
    /// so that guarantee is stated over [`SharedStateModel`] and
    /// [`lemma_claims_at_most_one_success`].
    pub fn try_claim_found(&self) -> bool {
        match self.found.compare_exchange(false, true, Ordering::SeqCst, Ordering::SeqCst) {
            Ok(_) => true,
            Err(_) => false,
        }
    }

    /// Whether some worker has already claimed the found flag.
    pub fn is_found(&self) -> bool {
        self.found.load(Ordering::SeqCst)
    }

    /// Adds a batch of attempts to the shared counter. The count is
    /// approximate by design: workers add in batches, and the counter wraps
    /// only after an unreachable two-to-the-sixty-fourth attempts.
    pub fn add_attempts(&self, n: u64) {
        self.attempts.fetch_add(n, Ordering::SeqCst);
    }

    /// A snapshot of the attempt counter, for progress reporting.
    pub fn attempts_snapshot(&self) -> u64 {
        self.attempts.load(Ordering::SeqCst)
    }
}

/// The sequential model of the shared state: what one history of operations
/// does to the flag and the counter.
pub struct SharedStateModel {
    pub found: bool,
    pub attempts: nat,
}

/// One operation against the shared state.
pub enum SharedOp {
    /// A try-claim of the found flag.
    Claim,
    /// A batched addition to the attempt counter.
    AddAttempts(nat),
}

/// The state before any operation.
pub open spec fn initial_model() -> SharedStateModel {
    SharedStateModel { found: false, attempts: 0 }
}

/// What one operation does to the model state.
pub open spec fn apply_op(s: SharedStateModel, op: SharedOp) -> SharedStateModel {
    match op {
        SharedOp::Claim => SharedStateModel { found: true, attempts: s.attempts },
        SharedOp::AddAttempts(n) => SharedStateModel { found: s.found, attempts: s.attempts + n },
    }
}

/// Whether a claim issued in state `s` succeeds: it does exactly when the
/// flag was not yet set.
pub open spec fn claim_succeeds(s: SharedStateModel) -> bool {
    !s.found
}

/// The model state after a history of operations.
pub open spec fn apply_ops(s: SharedStateModel, ops: Seq<SharedOp>) -> SharedStateModel
    decreases ops.len(),
{
    if ops.len() == 0 {
        s
    } else {
        apply_op(apply_ops(s, ops.drop_last()), ops.last())
    }
}

/// Histories compose: applying a concatenation is applying the parts in turn.
pub proof fn lemma_apply_ops_append(s: SharedStateModel, a: Seq<SharedOp>, b: Seq<SharedOp>)
    ensures
        apply_ops(s, a + b) == apply_ops(apply_ops(s, a), b),
    decreases b.len(),
{
    if b.len() == 0 {
        assert(a + b =~= a);
    } else {
        lemma_apply_ops_append(s, a, b.drop_last());
        assert((a + b).drop_last() =~= a + b.drop_last());
        assert((a + b).last() == b.last());
    }
}

/// The found flag is write-once: once it is set, no later operation ever
/// clears it.
pub proof fn lemma_found_monotone(s: SharedStateModel, ops: Seq<SharedOp>)
    requires
        s.found,
    ensures
        apply_ops(s, ops).found,
    decreases ops.len(),
{
    if ops.len() > 0 {
        lemma_found_monotone(s, ops.drop_last());
    }
}

/// The attempt counter never decreases under any history of operations.
pub proof fn lemma_attempts_monotone(s: SharedStateModel, ops: Seq<SharedOp>)
    ensures
        apply_ops(s, ops).attempts >= s.attempts,
    decreases ops.len(),
{
    if ops.len() > 0 {
        lemma_attempts_monotone(s, ops.drop_last());
    }
}

/// Across a whole history from the initial state, the found flag transitions
/// from false to true at most once: of any two claims, at most the earlier
/// one succeeds, so exactly one claimer ever reports a result.
pub proof fn lemma_claims_at_most_one_success(ops: Seq<SharedOp>, i: int, j: int)
    requires
        0 <= i < j < ops.len(),
        ops[i] is Claim,
        ops[j] is Claim,
        claim_succeeds(apply_ops(initial_model(), ops.take(i))),
    ensures
        !claim_succeeds(apply_ops(initial_model(), ops.take(j))),
{
    let after_i = apply_ops(initial_model(), ops.take(i + 1));
    assert(ops.take(i + 1).drop_last() =~= ops.take(i));
    assert(ops.take(i + 1).last() == ops[i]);
    assert(after_i.found);
    assert(ops.take(i + 1) + ops.take(j).skip(i + 1) =~= ops.take(j));
    lemma_apply_ops_append(initial_model(), ops.take(i + 1), ops.take(j).skip(i + 1));
    lemma_found_monotone(after_i, ops.take(j).skip(i + 1));
}

} // verus!

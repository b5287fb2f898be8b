//! The guarantees the store upholds across operations, stated on their
//! own so a reader finds them in one place.  Each follows from the store
//! invariant and the operations' contracts.

use vstd::prelude::*;

use crate::store::{
    NewTransaction, Store, TxStatus, insert_created, insert_replay_result, spec_inserted_tx,
};

verus! {

/// Ingesting a fresh anchor key and then any payload carrying the same
/// key again stores exactly one row for that key, and the replay hands
/// back the identifier and status the first call created: callers see
/// the same `transaction_id` both times, with no second row.
pub proof fn lemma_ingest_idempotent(
    s0: Store,
    s1: Store,
    n1: NewTransaction,
    anchor: Seq<char>,
    now1: u64,
)
    requires
        s0.wf(),
        !s0.spec_has_anchor(anchor),
        n1.anchor_transaction_id@ == anchor,
        insert_created(s0, s1, n1, now1),
    ensures
        s1.spec_has_anchor(anchor),
        insert_replay_result(s1, anchor) == (s0.next_tx_id, TxStatus::Pending),
        forall|i: int, j: int|
            0 <= i < s1.txs@.len() && 0 <= j < s1.txs@.len()
                && #[trigger] s1.txs@[i].anchor_transaction_id@ == anchor
                && #[trigger] s1.txs@[j].anchor_transaction_id@ == anchor ==> i == j,
{
    let new_idx = s1.txs@.len() - 1;
    assert(s1.txs@[new_idx] == spec_inserted_tx(n1, s0.next_tx_id, now1));
    assert(s1.txs@[new_idx].anchor_transaction_id@ == anchor);
    assert(s1.spec_has_anchor(anchor));
    assert forall|i: int, j: int|
        0 <= i < s1.txs@.len() && 0 <= j < s1.txs@.len()
            && #[trigger] s1.txs@[i].anchor_transaction_id@ == anchor
            && #[trigger] s1.txs@[j].anchor_transaction_id@ == anchor implies i == j by {
        if i != new_idx {
            assert(s1.txs@[i] == s0.txs@[i]);
            assert(s0.spec_has_anchor(anchor));
            assert(false);
        }
        if j != new_idx {
            assert(s1.txs@[j] == s0.txs@[j]);
            assert(s0.spec_has_anchor(anchor));
            assert(false);
        }
    }
    let c = s1.spec_anchor_index(anchor);
    assert(0 <= c < s1.txs@.len() && s1.txs@[c].anchor_transaction_id@ == anchor);
    assert(c == new_idx);
}

/// A transaction is observed `Settled` exactly when some settlement batch
/// lists its identifier: neither a settled row without its batch, nor a
/// batch member still pending or failed.
pub proof fn lemma_settled_iff_batched(s: Store, i: int)
    requires
        s.wf(),
        0 <= i < s.txs@.len(),
    ensures
        s.txs@[i].status == TxStatus::Settled <==> exists|j: int|
            0 <= j < s.batches@.len() && #[trigger] s.batches@[j].transaction_ids@.contains(
                s.txs@[i].id,
            ),
{
    if s.txs@[i].status == TxStatus::Settled {
        let j = choose|j: int|
            0 <= j < s.batches@.len() && #[trigger] s.batches@[j].id == s.txs@[i].batch_id->0
                && s.batches@[j].transaction_ids@.contains(s.txs@[i].id);
        assert(s.batches@[j].transaction_ids@.contains(s.txs@[i].id));
    }
    if exists|j: int|
        0 <= j < s.batches@.len() && #[trigger] s.batches@[j].transaction_ids@.contains(
            s.txs@[i].id,
        ) {
        let j = choose|j: int|
            0 <= j < s.batches@.len() && #[trigger] s.batches@[j].transaction_ids@.contains(
                s.txs@[i].id,
            );
        let k = choose|k: int|
            0 <= k < s.batches@[j].transaction_ids@.len()
                && s.batches@[j].transaction_ids@[k] == s.txs@[i].id;
        assert(s.txs@[i].status == TxStatus::Settled);
    }
}

/// A transaction's attempt count never exceeds the configured budget, and
/// a row still `Pending` is strictly below it — a row that reaches the
/// budget has transitioned to `Failed` (or settled first).
pub proof fn lemma_attempts_bounded(s: Store, i: int)
    requires
        s.wf(),
        0 <= i < s.txs@.len(),
    ensures
        s.txs@[i].settlement_attempts <= s.max_attempts,
        s.txs@[i].status == TxStatus::Pending ==> s.txs@[i].settlement_attempts < s.max_attempts,
{
}

/// At most one partition carries any given range, so create-if-absent
/// calls for the same range — however often repeated — leave exactly one
/// partition behind.
pub proof fn lemma_partition_unique(s: Store, a: u64, b: u64)
    requires
        s.wf(),
    ensures
        forall|i: int, j: int|
            0 <= i < s.partitions@.len() && 0 <= j < s.partitions@.len()
                && #[trigger] s.partitions@[i].range_start == a && s.partitions@[i].range_end == b
                && #[trigger] s.partitions@[j].range_start == a && s.partitions@[j].range_end == b
                ==> i == j,
{
}

/// No transaction is ever listed by two different settlement batches.
pub proof fn lemma_tx_in_one_batch(s: Store, j1: int, j2: int, k1: int, k2: int)
    requires
        s.wf(),
        0 <= j1 < s.batches@.len(),
        0 <= j2 < s.batches@.len(),
        0 <= k1 < s.batches@[j1].transaction_ids@.len(),
        0 <= k2 < s.batches@[j2].transaction_ids@.len(),
        s.batches@[j1].transaction_ids@[k1] == s.batches@[j2].transaction_ids@[k2],
    ensures
        j1 == j2,
{
}

} // verus!

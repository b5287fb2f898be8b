//! Settlement engine: reconciles pending transactions against ledger
//! state and commits the outcome — row transitions plus one settlement
//! batch — as a single atomic step over the store.

use vstd::prelude::*;

use crate::store::{
    SettlementBatch, Store, Transaction, TxStatus, spec_pending_scan, lemma_pending_scan_props,
};
use crate::text::str_eq;

verus! {

/// One ledger operation, as the ledger client reports it.
#[derive(Debug)]
pub struct LedgerOp {
    pub account: String,
    pub asset_code: String,
    pub amount: String,
    /// Time the operation hit the ledger.
    pub ledger_at: u64,
}

/// Outcome of one ledger lookup for one transaction.
#[derive(Debug)]
pub enum LedgerReply {
    /// Successful query, possibly with no operations: an empty result is a
    /// normal "not yet settled" outcome, not an error.
    Ops(Vec<LedgerOp>),
    /// Timeout or connection failure; retryable next tick.
    NetworkError,
    /// The ledger asked to back off; not to be retried before the hint.
    RateLimited(u64),
}

/// Decision for one pending transaction in one settlement pass.
#[derive(Clone, Copy, PartialEq, Eq, Structural, Debug)]
pub enum Decision {
    /// Ledger match found: transition to `Settled` in this pass's batch.
    Settle,
    /// Attempt budget exhausted without a match: transition to `Failed`.
    Fail,
    /// No match, attempts remain: stay `Pending`, count the attempt.
    Retry,
    /// Transient ledger failure: stay `Pending`, do not count the attempt.
    Defer,
}

/// An operation matches a transaction when account, asset and amount agree
/// and the operation lies within the tolerance window after the row's
/// creation.
pub open spec fn spec_op_matches(op: LedgerOp, tx: Transaction, tolerance: u64) -> bool {
    &&& op.account@ == tx.stellar_account@
    &&& op.asset_code@ == tx.asset_code@
    &&& op.amount@ == tx.amount@
    &&& tx.created_at <= op.ledger_at
    &&& op.ledger_at - tx.created_at <= tolerance
}

pub open spec fn spec_has_match(ops: Seq<LedgerOp>, tx: Transaction, tolerance: u64) -> bool {
    exists|i: int| 0 <= i < ops.len() && spec_op_matches(#[trigger] ops[i], tx, tolerance)
}

/// The per-transaction settlement policy.
pub open spec fn spec_decide(
    tx: Transaction,
    reply: LedgerReply,
    tolerance: u64,
    max_attempts: u32,
) -> Decision {
    match reply {
        LedgerReply::Ops(ops) => {
            if spec_has_match(ops@, tx, tolerance) {
                Decision::Settle
            } else if tx.settlement_attempts + 1 >= max_attempts {
                Decision::Fail
            } else {
                Decision::Retry
            }
        },
        LedgerReply::NetworkError => Decision::Defer,
        LedgerReply::RateLimited(_) => Decision::Defer,
    }
}

fn op_matches(op: &LedgerOp, tx: &Transaction, tolerance: u64) -> (r: bool)
    ensures
        r == spec_op_matches(*op, *tx, tolerance),
{
    str_eq(op.account.as_str(), tx.stellar_account.as_str()) && str_eq(
        op.asset_code.as_str(),
        tx.asset_code.as_str(),
    ) && str_eq(op.amount.as_str(), tx.amount.as_str()) && tx.created_at <= op.ledger_at
        && op.ledger_at - tx.created_at <= tolerance
}

/// Decide a pending transaction's fate from one ledger reply.
#[verifier::loop_isolation(false)]
pub fn decide(tx: &Transaction, reply: &LedgerReply, tolerance: u64, max_attempts: u32) -> (d:
    Decision)
    ensures
        d == spec_decide(*tx, *reply, tolerance, max_attempts),
{
    match reply {
        LedgerReply::Ops(ops) => {
            let mut i: usize = 0;
            while i < ops.len()
                invariant
                    i <= ops@.len(),
                    forall|k: int| 0 <= k < i ==> !spec_op_matches(#[trigger] ops@[k], *tx, tolerance),
                decreases ops@.len() - i,
            {
                if op_matches(&ops[i], tx, tolerance) {
                    return Decision::Settle;
                }
                i += 1;
            }
            if tx.settlement_attempts as u64 + 1 >= max_attempts as u64 {
                Decision::Fail
            } else {
                Decision::Retry
            }
        },
        LedgerReply::NetworkError => Decision::Defer,
        LedgerReply::RateLimited(_) => Decision::Defer,
    }
}

/// The decision recorded for `id`, if any.
pub open spec fn spec_decision_for(ds: Seq<(u64, Decision)>, id: u64) -> Option<Decision> {
    if exists|k: int| 0 <= k < ds.len() && (#[trigger] ds[k]).0 == id {
        Some(ds[choose|k: int| 0 <= k < ds.len() && (#[trigger] ds[k]).0 == id].1)
    } else {
        None
    }
}

/// Identifiers decided `Settle`, in decision order: the new batch's members.
pub open spec fn spec_settled_ids(ds: Seq<(u64, Decision)>) -> Seq<u64>
    decreases ds.len(),
{
    if ds.len() == 0 {
        Seq::empty()
    } else {
        let rest = spec_settled_ids(ds.drop_last());
        if ds.last().1 == Decision::Settle {
            rest.push(ds.last().0)
        } else {
            rest
        }
    }
}

pub proof fn lemma_settled_contains(ds: Seq<(u64, Decision)>, id: u64)
    ensures
        spec_settled_ids(ds).contains(id) <==> exists|k: int|
            0 <= k < ds.len() && (#[trigger] ds[k]).0 == id && ds[k].1 == Decision::Settle,
    decreases ds.len(),
{
    if ds.len() == 0 {
    } else {
        let pre = ds.drop_last();
        lemma_settled_contains(pre, id);
        let rest = spec_settled_ids(pre);
        let scan = spec_settled_ids(ds);
        let last = ds.last();
        if last.1 == Decision::Settle && last.0 == id {
            assert(scan[scan.len() - 1] == id);
            assert(scan.contains(id));
            assert(ds[ds.len() - 1].0 == id && ds[ds.len() - 1].1 == Decision::Settle);
        } else {
            if scan.contains(id) {
                let m = choose|m: int| 0 <= m < scan.len() && scan[m] == id;
                if last.1 == Decision::Settle {
                    assert(m < scan.len() - 1);
                    assert(rest[m] == id);
                } else {
                    assert(rest[m] == id);
                }
                assert(rest.contains(id));
                let k = choose|k: int|
                    0 <= k < pre.len() && (#[trigger] pre[k]).0 == id && pre[k].1
                        == Decision::Settle;
                assert(ds[k].0 == id && ds[k].1 == Decision::Settle);
            }
            if exists|k: int|
                0 <= k < ds.len() && (#[trigger] ds[k]).0 == id && ds[k].1 == Decision::Settle {
                let k = choose|k: int|
                    0 <= k < ds.len() && (#[trigger] ds[k]).0 == id && ds[k].1
                        == Decision::Settle;
                assert(k < ds.len() - 1);
                assert(pre[k].0 == id && pre[k].1 == Decision::Settle);
                assert(rest.contains(id));
                let m = choose|m: int| 0 <= m < rest.len() && rest[m] == id;
                assert(scan[m] == id);
                assert(scan.contains(id));
            }
        }
    }
}

pub proof fn lemma_settled_distinct(ds: Seq<(u64, Decision)>)
    requires
        forall|k1: int, k2: int| 0 <= k1 < k2 < ds.len() ==> ds[k1].0 != ds[k2].0,
    ensures
        forall|k1: int, k2: int|
            0 <= k1 < k2 < spec_settled_ids(ds).len() ==> spec_settled_ids(ds)[k1]
                != spec_settled_ids(ds)[k2],
    decreases ds.len(),
{
    if ds.len() == 0 {
    } else {
        let pre = ds.drop_last();
        lemma_settled_distinct(pre);
        let rest = spec_settled_ids(pre);
        let scan = spec_settled_ids(ds);
        let last = ds.last();
        if last.1 == Decision::Settle {
            if rest.contains(last.0) {
                lemma_settled_contains(pre, last.0);
                let k = choose|k: int|
                    0 <= k < pre.len() && (#[trigger] pre[k]).0 == last.0 && pre[k].1
                        == Decision::Settle;
                assert(ds[k].0 == ds[ds.len() - 1].0);
                assert(false);
            }
            assert forall|k1: int, k2: int| 0 <= k1 < k2 < scan.len() implies scan[k1]
                != scan[k2] by {
                if k2 == scan.len() - 1 {
                    if scan[k1] == last.0 {
                        assert(rest[k1] == last.0);
                        assert(rest.contains(last.0));
                    }
                }
            }
        }
    }
}

/// What the settlement engine may hand to the atomic commit: decisions for
/// pairwise distinct, currently pending rows, with the attempt budget
/// respected by every `Retry`.
pub open spec fn decisions_valid(pre: Store, ds: Seq<(u64, Decision)>) -> bool {
    &&& forall|k1: int, k2: int| 0 <= k1 < k2 < ds.len() ==> ds[k1].0 != ds[k2].0
    &&& forall|k: int| 0 <= k < ds.len() ==> pre.spec_has_tx((#[trigger] ds[k]).0)
    &&& forall|k: int|
        0 <= k < ds.len() ==> pre.txs@[pre.spec_tx_index((#[trigger] ds[k]).0)].status
            == TxStatus::Pending
    &&& forall|k: int|
        0 <= k < ds.len() && (#[trigger] ds[k]).1 == Decision::Retry ==> pre.txs@[pre.spec_tx_index(
            ds[k].0,
        )].settlement_attempts + 2 <= pre.max_attempts
}

/// The row that one settlement pass leaves behind for `t`.
pub open spec fn spec_apply_to_tx(
    t: Transaction,
    ds: Seq<(u64, Decision)>,
    batch_id: u64,
    now: u64,
) -> Transaction {
    match spec_decision_for(ds, t.id) {
        None => t,
        Some(Decision::Defer) => t,
        Some(Decision::Settle) => Transaction {
            status: TxStatus::Settled,
            batch_id: Some(batch_id),
            updated_at: now,
            ..t
        },
        Some(Decision::Fail) => Transaction {
            status: TxStatus::Failed,
            settlement_attempts: (t.settlement_attempts + 1) as u32,
            updated_at: now,
            ..t
        },
        Some(Decision::Retry) => Transaction {
            settlement_attempts: (t.settlement_attempts + 1) as u32,
            updated_at: now,
            ..t
        },
    }
}

/// Relation between the store before and after one atomic settlement
/// commit: every row rewritten per its decision, and — exactly when some
/// row settled — one new batch holding the settled identifiers.
pub open spec fn tick_applied(
    pre: Store,
    post: Store,
    ds: Seq<(u64, Decision)>,
    window_start: u64,
    window_end: u64,
    ledger_reference: Option<String>,
    now: u64,
    r: Option<u64>,
) -> bool {
    &&& post.txs@.len() == pre.txs@.len()
    &&& forall|i: int|
        0 <= i < pre.txs@.len() ==> post.txs@[i] == spec_apply_to_tx(
            #[trigger] pre.txs@[i],
            ds,
            pre.next_batch_id,
            now,
        )
    &&& post.partitions@ == pre.partitions@
    &&& post.next_tx_id == pre.next_tx_id
    &&& post.max_attempts == pre.max_attempts
    &&& (spec_settled_ids(ds).len() == 0 ==> post.batches@ == pre.batches@ && post.next_batch_id
        == pre.next_batch_id && r is None)
    &&& (spec_settled_ids(ds).len() > 0 ==> {
        &&& r == Some(pre.next_batch_id)
        &&& post.next_batch_id == pre.next_batch_id + 1
        &&& post.batches@.len() == pre.batches@.len() + 1
        &&& forall|j: int| 0 <= j < pre.batches@.len() ==> post.batches@[j] == pre.batches@[j]
        &&& post.batches@.last().id == pre.next_batch_id
        &&& post.batches@.last().window_start == window_start
        &&& post.batches@.last().window_end == window_end
        &&& post.batches@.last().ledger_reference == ledger_reference
        &&& post.batches@.last().transaction_ids@ == spec_settled_ids(ds)
    })
}

/// A decision for a row implies, under `decisions_valid`, that the row is
/// pending with budget headroom; `Retry` leaves room for one more attempt.
proof fn lemma_decision_row(pre: Store, ds: Seq<(u64, Decision)>, m: int)
    requires
        pre.wf(),
        decisions_valid(pre, ds),
        0 <= m < pre.txs@.len(),
        spec_decision_for(ds, pre.txs@[m].id) is Some,
    ensures
        pre.txs@[m].status == TxStatus::Pending,
        pre.txs@[m].settlement_attempts < pre.max_attempts,
        spec_decision_for(ds, pre.txs@[m].id) == Some(Decision::Retry)
            ==> pre.txs@[m].settlement_attempts + 2 <= pre.max_attempts,
{
    let id = pre.txs@[m].id;
    let kc = choose|k: int| 0 <= k < ds.len() && (#[trigger] ds[k]).0 == id;
    assert(0 <= kc < ds.len() && ds[kc].0 == id);
    assert(spec_decision_for(ds, id) == Some(ds[kc].1));
    let j = pre.spec_tx_index(id);
    assert(pre.spec_has_tx(id));
    assert(0 <= j < pre.txs@.len() && pre.txs@[j].id == id);
    if j != m {
        assert(pre.txs@[j].id != pre.txs@[m].id);
    }
    assert(j == m);
    assert(pre.txs@[m].status == TxStatus::Pending);
}

fn find_decision(decisions: &Vec<(u64, Decision)>, id: u64) -> (r: Option<Decision>)
    requires
        forall|k1: int, k2: int|
            0 <= k1 < k2 < decisions@.len() ==> decisions@[k1].0 != decisions@[k2].0,
    ensures
        r == spec_decision_for(decisions@, id),
{
    let mut k: usize = 0;
    while k < decisions.len()
        invariant
            k <= decisions@.len(),
            forall|m: int| 0 <= m < k ==> (#[trigger] decisions@[m]).0 != id,
            forall|k1: int, k2: int|
                0 <= k1 < k2 < decisions@.len() ==> decisions@[k1].0 != decisions@[k2].0,
        decreases decisions@.len() - k,
    {
        if decisions[k].0 == id {
            proof {
                let kc = choose|m: int| 0 <= m < decisions@.len() && (#[trigger] decisions@[m]).0 == id;
                if kc != k {
                    assert(decisions@[kc].0 != decisions@[k as int].0);
                }
            }
            return Some(decisions[k].1);
        }
        k += 1;
    }
    None
}


/// After one settlement pass the identifier, distinctness and budget
/// clauses of the store invariant hold again.
#[verifier::rlimit(100)]
#[verifier::spinoff_prover]
proof fn lemma_tick_ids_wf(pre: Store, post: Store, ds: Seq<(u64, Decision)>, now: u64)
    requires
        pre.wf(),
        decisions_valid(pre, ds),
        pre.next_batch_id < u64::MAX,
        post.txs@.len() == pre.txs@.len(),
        forall|m: int|
            0 <= m < pre.txs@.len() ==> post.txs@[m] == spec_apply_to_tx(
                #[trigger] pre.txs@[m],
                ds,
                pre.next_batch_id,
                now,
            ),
        post.partitions@ == pre.partitions@,
        post.next_tx_id == pre.next_tx_id,
        post.max_attempts == pre.max_attempts,
        spec_settled_ids(ds).len() == 0 ==> post.batches@ == pre.batches@ && post.next_batch_id
            == pre.next_batch_id,
        spec_settled_ids(ds).len() > 0 ==> post.batches@.len() == pre.batches@.len() + 1 && (
        forall|j: int| 0 <= j < pre.batches@.len() ==> post.batches@[j] == pre.batches@[j])
            && post.batches@.last().id == pre.next_batch_id
            && post.batches@.last().transaction_ids@ == spec_settled_ids(ds)
            && post.next_batch_id == pre.next_batch_id + 1,
    ensures
        post.txs_distinct(),
        post.ids_bounded(),
        post.batches_distinct(),
        post.attempts_bounded(),
        post.partitions_wf(),
{
    let bid = pre.next_batch_id;
    let sids = spec_settled_ids(ds);
    lemma_settled_distinct(ds);

    // identity of the untouched columns of every row
    assert forall|m: int| 0 <= m < post.txs@.len() implies #[trigger] post.txs@[m].id
        == pre.txs@[m].id && post.txs@[m].anchor_transaction_id
        == pre.txs@[m].anchor_transaction_id && post.txs@[m].created_at
        == pre.txs@[m].created_at && post.txs@[m].settlement_attempts
        <= pre.txs@[m].settlement_attempts + 1 by {}

    // rows with a decision were pending; rows without one are unchanged
    assert forall|m: int|
        0 <= m < pre.txs@.len() && spec_decision_for(ds, pre.txs@[m].id)
            is Some implies pre.txs@[m].status == TxStatus::Pending
        && pre.txs@[m].settlement_attempts < pre.max_attempts && (spec_decision_for(
        ds,
        pre.txs@[m].id,
    ) == Some(Decision::Retry) ==> pre.txs@[m].settlement_attempts + 2
        <= pre.max_attempts) by {
        lemma_decision_row(pre, ds, m);
    }

    // settled identifiers name pending rows of the pre store
    assert forall|kk: int| 0 <= kk < sids.len() implies pre.spec_has_tx(
        #[trigger] sids[kk],
    ) && spec_decision_for(ds, sids[kk]) == Some(Decision::Settle) && sids[kk]
        < pre.next_tx_id by {
        assert(sids.contains(sids[kk]));
        lemma_settled_contains(ds, sids[kk]);
        let k2 = choose|k2: int|
            0 <= k2 < ds.len() && (#[trigger] ds[k2]).0 == sids[kk] && ds[k2].1
                == Decision::Settle;
        assert(pre.spec_has_tx(sids[kk]));
        let kc = choose|k3: int| 0 <= k3 < ds.len() && (#[trigger] ds[k3]).0 == sids[kk];
        if kc != k2 {
            assert(ds[kc].0 == ds[k2].0);
            assert(false);
        }
        let j = pre.spec_tx_index(sids[kk]);
        assert(0 <= j < pre.txs@.len() && pre.txs@[j].id == sids[kk]);
    }

    assert(post.partitions_wf());
    assert(post.txs_distinct());

    assert forall|j1: int, j2: int| 0 <= j1 < j2 < post.batches@.len() implies post.batches@[j1].id
        != post.batches@[j2].id by {
        if j2 >= pre.batches@.len() {
            assert(post.batches@[j1] == pre.batches@[j1]);
            assert(pre.batches@[j1].id < pre.next_batch_id);
        }
    }
    assert(post.batches_distinct());

    assert forall|j: int, kk: int|
        0 <= j < post.batches@.len() && 0 <= kk
            < post.batches@[j].transaction_ids@.len() implies post.batches@[j].transaction_ids@[kk]
        < post.next_tx_id by {
        if j >= pre.batches@.len() {
            assert(post.batches@[j].transaction_ids@[kk] == sids[kk]);
        }
    }
    assert(post.ids_bounded());

    assert forall|m: int| 0 <= m < post.txs@.len() implies
        #[trigger] post.txs@[m].settlement_attempts <= post.max_attempts && (post.txs@[m].status
        == TxStatus::Pending ==> post.txs@[m].settlement_attempts < post.max_attempts) by {
        let t = pre.txs@[m];
        let dd = spec_decision_for(ds, t.id);
        if dd is Some {
            lemma_decision_row(pre, ds, m);
        }
    }
    assert(post.attempts_bounded());

    assert(post.attempts_bounded());
}

/// After one settlement pass the status-batch linkage and the batch
/// disjointness clauses of the store invariant hold again.
#[verifier::rlimit(100)]
#[verifier::spinoff_prover]
proof fn lemma_tick_batches_wf(pre: Store, post: Store, ds: Seq<(u64, Decision)>, now: u64)
    requires
        pre.wf(),
        decisions_valid(pre, ds),
        pre.next_batch_id < u64::MAX,
        post.txs@.len() == pre.txs@.len(),
        forall|m: int|
            0 <= m < pre.txs@.len() ==> post.txs@[m] == spec_apply_to_tx(
                #[trigger] pre.txs@[m],
                ds,
                pre.next_batch_id,
                now,
            ),
        post.partitions@ == pre.partitions@,
        post.next_tx_id == pre.next_tx_id,
        post.max_attempts == pre.max_attempts,
        spec_settled_ids(ds).len() == 0 ==> post.batches@ == pre.batches@ && post.next_batch_id
            == pre.next_batch_id,
        spec_settled_ids(ds).len() > 0 ==> post.batches@.len() == pre.batches@.len() + 1 && (
        forall|j: int| 0 <= j < pre.batches@.len() ==> post.batches@[j] == pre.batches@[j])
            && post.batches@.last().id == pre.next_batch_id
            && post.batches@.last().transaction_ids@ == spec_settled_ids(ds)
            && post.next_batch_id == pre.next_batch_id + 1,
    ensures
        post.status_batch_linked(),
        post.batch_members_distinct(),
        post.batches_disjoint(),
{
    let bid = pre.next_batch_id;
    let sids = spec_settled_ids(ds);
    lemma_settled_distinct(ds);

    // identity of the untouched columns of every row
    assert forall|m: int| 0 <= m < post.txs@.len() implies #[trigger] post.txs@[m].id
        == pre.txs@[m].id && post.txs@[m].anchor_transaction_id
        == pre.txs@[m].anchor_transaction_id && post.txs@[m].created_at
        == pre.txs@[m].created_at && post.txs@[m].settlement_attempts
        <= pre.txs@[m].settlement_attempts + 1 by {}

    // rows with a decision were pending; rows without one are unchanged
    assert forall|m: int|
        0 <= m < pre.txs@.len() && spec_decision_for(ds, pre.txs@[m].id)
            is Some implies pre.txs@[m].status == TxStatus::Pending
        && pre.txs@[m].settlement_attempts < pre.max_attempts && (spec_decision_for(
        ds,
        pre.txs@[m].id,
    ) == Some(Decision::Retry) ==> pre.txs@[m].settlement_attempts + 2
        <= pre.max_attempts) by {
        lemma_decision_row(pre, ds, m);
    }

    // settled identifiers name pending rows of the pre store
    assert forall|kk: int| 0 <= kk < sids.len() implies pre.spec_has_tx(
        #[trigger] sids[kk],
    ) && spec_decision_for(ds, sids[kk]) == Some(Decision::Settle) && sids[kk]
        < pre.next_tx_id by {
        assert(sids.contains(sids[kk]));
        lemma_settled_contains(ds, sids[kk]);
        let k2 = choose|k2: int|
            0 <= k2 < ds.len() && (#[trigger] ds[k2]).0 == sids[kk] && ds[k2].1
                == Decision::Settle;
        assert(pre.spec_has_tx(sids[kk]));
        let kc = choose|k3: int| 0 <= k3 < ds.len() && (#[trigger] ds[k3]).0 == sids[kk];
        if kc != k2 {
            assert(ds[kc].0 == ds[k2].0);
            assert(false);
        }
        let j = pre.spec_tx_index(sids[kk]);
        assert(0 <= j < pre.txs@.len() && pre.txs@[j].id == sids[kk]);
    }

    // a row named by an old batch is not pending, so carries no decision
    assert forall|j: int, kk: int, m: int|
        0 <= j < pre.batches@.len() && 0 <= kk < pre.batches@[j].transaction_ids@.len()
            && 0 <= m < pre.txs@.len() && #[trigger] pre.batches@[j].transaction_ids@[kk]
            == #[trigger] pre.txs@[m].id implies spec_decision_for(ds, pre.txs@[m].id)
        is None by {
        assert(pre.txs@[m].status == TxStatus::Settled);
        if spec_decision_for(ds, pre.txs@[m].id) is Some {
            lemma_decision_row(pre, ds, m);
        }
    }

    // pending rows behind the settled identifiers
    assert forall|kk: int| 0 <= kk < sids.len() implies pre.txs@[pre.spec_tx_index(
        #[trigger] sids[kk],
    )].status == TxStatus::Pending && pre.txs@[pre.spec_tx_index(sids[kk])].id
        == sids[kk] by {
        let j = pre.spec_tx_index(sids[kk]);
        assert(0 <= j < pre.txs@.len() && pre.txs@[j].id == sids[kk]);
        lemma_decision_row(pre, ds, j);
    }

    // a row's fate, case by case
    assert forall|m: int| 0 <= m < post.txs@.len() implies (#[trigger] post.txs@[m].status
        == TxStatus::Settled <==> post.txs@[m].batch_id is Some) by {
        let t = pre.txs@[m];
        if spec_decision_for(ds, t.id) is Some {
            lemma_decision_row(pre, ds, m);
        }
    }

    assert forall|m: int|
        0 <= m < post.txs@.len() && #[trigger] post.txs@[m].status
            == TxStatus::Settled implies exists|j: int|
        0 <= j < post.batches@.len() && #[trigger] post.batches@[j].id
            == post.txs@[m].batch_id->0 && post.batches@[j].transaction_ids@.contains(
            post.txs@[m].id,
        ) by {
        let t = pre.txs@[m];
        let dd = spec_decision_for(ds, t.id);
        if dd is Some {
            lemma_decision_row(pre, ds, m);
            // the row settled in this pass
            assert(dd == Some(Decision::Settle));
            let kc = choose|k: int| 0 <= k < ds.len() && (#[trigger] ds[k]).0 == t.id;
            assert(ds[kc].0 == t.id && ds[kc].1 == Decision::Settle);
            lemma_settled_contains(ds, t.id);
            assert(sids.contains(t.id));
            let jn = post.batches@.len() - 1;
            assert(post.batches@[jn].id == bid);
            assert(post.batches@[jn].transaction_ids@.contains(post.txs@[m].id));
        } else {
            // settled before this pass; its batch is untouched
            assert(post.txs@[m] == t);
            let j = choose|j: int|
                0 <= j < pre.batches@.len() && #[trigger] pre.batches@[j].id
                    == t.batch_id->0 && pre.batches@[j].transaction_ids@.contains(t.id);
            assert(post.batches@[j] == pre.batches@[j]);
            assert(post.batches@[j].id == post.txs@[m].batch_id->0);
        }
    }

    assert forall|j: int, kk: int, m: int|
        0 <= j < post.batches@.len() && 0 <= kk < post.batches@[j].transaction_ids@.len()
            && 0 <= m < post.txs@.len() && #[trigger] post.batches@[j].transaction_ids@[kk]
            == #[trigger] post.txs@[m].id implies post.txs@[m].status == TxStatus::Settled
        && post.txs@[m].batch_id == Some(post.batches@[j].id) by {
        let t = pre.txs@[m];
        if j < pre.batches@.len() {
            assert(pre.batches@[j].transaction_ids@[kk] == t.id);
            assert(t.status == TxStatus::Settled && t.batch_id == Some(pre.batches@[j].id));
            assert(spec_decision_for(ds, t.id) is None);
            assert(post.txs@[m] == t);
            assert(post.batches@[j] == pre.batches@[j]);
        } else {
            assert(post.batches@[j].transaction_ids@[kk] == sids[kk]);
            assert(spec_decision_for(ds, t.id) == Some(Decision::Settle));
        }
    }

    assert forall|j: int, k1: int, k2: int|
        0 <= j < post.batches@.len() && 0 <= k1 < k2
            < post.batches@[j].transaction_ids@.len() implies post.batches@[j].transaction_ids@[k1]
        != post.batches@[j].transaction_ids@[k2] by {
        if j < pre.batches@.len() {
            assert(post.batches@[j] == pre.batches@[j]);
        } else {
            assert(post.batches@[j].transaction_ids@ == sids);
        }
    }
    assert(post.batch_members_distinct());
    assert forall|j1: int, j2: int, k1: int, k2: int|
        0 <= j1 < post.batches@.len() && 0 <= j2 < post.batches@.len() && j1 != j2 && 0
            <= k1 < post.batches@[j1].transaction_ids@.len() && 0 <= k2
            < post.batches@[j2].transaction_ids@.len() implies #[trigger] post.batches@[j1].transaction_ids@[k1]
        != #[trigger] post.batches@[j2].transaction_ids@[k2] by {
        if j1 < pre.batches@.len() && j2 < pre.batches@.len() {
            assert(post.batches@[j1] == pre.batches@[j1]);
            assert(post.batches@[j2] == pre.batches@[j2]);
        } else if j1 < pre.batches@.len() {
            // j2 is the new batch: its member names a pre-pending row,
            // which no old batch may list
            assert(post.batches@[j2].transaction_ids@[k2] == sids[k2]);
            let x = sids[k2];
            let jj = pre.spec_tx_index(x);
            assert(pre.txs@[jj].status == TxStatus::Pending && pre.txs@[jj].id == x);
            assert(post.batches@[j1] == pre.batches@[j1]);
            if pre.batches@[j1].transaction_ids@[k1] == x {
                assert(pre.batches@[j1].transaction_ids@[k1] == pre.txs@[jj].id);
                assert(pre.txs@[jj].status == TxStatus::Settled);
                assert(false);
            }
        } else {
            assert(post.batches@[j2] == pre.batches@[j2]);
            assert(post.batches@[j1].transaction_ids@[k1] == sids[k1]);
            let x = sids[k1];
            let jj = pre.spec_tx_index(x);
            assert(pre.txs@[jj].status == TxStatus::Pending && pre.txs@[jj].id == x);
            if pre.batches@[j2].transaction_ids@[k2] == x {
                assert(pre.batches@[j2].transaction_ids@[k2] == pre.txs@[jj].id);
                assert(pre.txs@[jj].status == TxStatus::Settled);
                assert(false);
            }
        }
    }
    assert(post.batches_disjoint());
}

/// One settlement pass, applied row-wise with its one new batch, restores
/// the store invariant.
proof fn lemma_tick_restores_wf(pre: Store, post: Store, ds: Seq<(u64, Decision)>, now: u64)
    requires
        pre.wf(),
        decisions_valid(pre, ds),
        pre.next_batch_id < u64::MAX,
        post.txs@.len() == pre.txs@.len(),
        forall|m: int|
            0 <= m < pre.txs@.len() ==> post.txs@[m] == spec_apply_to_tx(
                #[trigger] pre.txs@[m],
                ds,
                pre.next_batch_id,
                now,
            ),
        post.partitions@ == pre.partitions@,
        post.next_tx_id == pre.next_tx_id,
        post.max_attempts == pre.max_attempts,
        spec_settled_ids(ds).len() == 0 ==> post.batches@ == pre.batches@ && post.next_batch_id
            == pre.next_batch_id,
        spec_settled_ids(ds).len() > 0 ==> post.batches@.len() == pre.batches@.len() + 1 && (
        forall|j: int| 0 <= j < pre.batches@.len() ==> post.batches@[j] == pre.batches@[j])
            && post.batches@.last().id == pre.next_batch_id
            && post.batches@.last().transaction_ids@ == spec_settled_ids(ds)
            && post.next_batch_id == pre.next_batch_id + 1,
    ensures
        post.wf(),
{
    lemma_tick_ids_wf(pre, post, ds, now);
    lemma_tick_batches_wf(pre, post, ds, now);
}

impl Store {
    /// Atomic settlement commit: rewrite every decided row and, when any
    /// row settled, append the one batch listing exactly those rows.  No
    /// intermediate state is ever visible to a caller.
    #[verifier::loop_isolation(false)]
    #[verifier::rlimit(100)]
    #[verifier::spinoff_prover]
    pub fn apply_tick(
        &mut self,
        decisions: Vec<(u64, Decision)>,
        window_start: u64,
        window_end: u64,
        ledger_reference: Option<String>,
        now: u64,
    ) -> (r: Option<u64>)
        requires
            old(self).wf(),
            old(self).next_batch_id < u64::MAX,
            decisions_valid(*old(self), decisions@),
        ensures
            final(self).wf(),
            tick_applied(
                *old(self),
                *final(self),
                decisions@,
                window_start,
                window_end,
                ledger_reference,
                now,
                r,
            ),
    {
        let ghost pre = *self;
        let bid = self.next_batch_id;

        let mut settled: Vec<u64> = Vec::new();
        let mut k: usize = 0;
        while k < decisions.len()
            invariant
                k <= decisions@.len(),
                settled@ == spec_settled_ids(decisions@.take(k as int)),
            decreases decisions@.len() - k,
        {
            proof {
                assert(decisions@.take(k + 1).drop_last() =~= decisions@.take(k as int));
                assert(decisions@.take(k + 1).last() == decisions@[k as int]);
            }
            if decisions[k].1 == Decision::Settle {
                settled.push(decisions[k].0);
            }
            k += 1;
        }
        proof {
            assert(decisions@.take(decisions@.len() as int) =~= decisions@);
        }
        let ghost sids = spec_settled_ids(decisions@);

        let n = self.txs.len();
        let mut i: usize = 0;
        while i < n
            invariant
                i <= n,
                n == self.txs@.len(),
                self.batches@ == pre.batches@,
                self.partitions@ == pre.partitions@,
                self.next_tx_id == pre.next_tx_id,
                self.next_batch_id == pre.next_batch_id,
                self.max_attempts == pre.max_attempts,
                settled@ == sids,
                forall|m: int| i <= m < n ==> self.txs@[m] == pre.txs@[m],
                forall|m: int|
                    0 <= m < i ==> self.txs@[m] == spec_apply_to_tx(
                        pre.txs@[m],
                        decisions@,
                        pre.next_batch_id,
                        now,
                    ),
            decreases n - i,
        {
            let d = find_decision(&decisions, self.txs[i].id);
            proof {
                if d is Some {
                    lemma_decision_row(pre, decisions@, i as int);
                }
            }
            match d {
                None => {},
                Some(Decision::Defer) => {},
                Some(Decision::Settle) => {
                    let mut row = self.txs[i].duplicate();
                    row.status = TxStatus::Settled;
                    row.batch_id = Some(bid);
                    row.updated_at = now;
                    self.txs[i] = row;
                },
                Some(Decision::Fail) => {
                    let mut row = self.txs[i].duplicate();
                    row.status = TxStatus::Failed;
                    row.settlement_attempts = row.settlement_attempts + 1;
                    row.updated_at = now;
                    self.txs[i] = row;
                },
                Some(Decision::Retry) => {
                    let mut row = self.txs[i].duplicate();
                    row.settlement_attempts = row.settlement_attempts + 1;
                    row.updated_at = now;
                    self.txs[i] = row;
                },
            }
            i += 1;
        }

        let r: Option<u64>;
        if settled.len() > 0 {
            let batch = SettlementBatch {
                id: bid,
                window_start,
                window_end,
                ledger_reference,
                transaction_ids: settled,
            };
            self.batches.push(batch);
            self.next_batch_id = bid + 1;
            r = Some(bid);
        } else {
            r = None;
        }

        proof {
            lemma_tick_restores_wf(pre, *self, decisions@, now);
        }
        r
    }
}

/// Tuning of the settlement engine.
#[derive(Clone, Copy, PartialEq, Eq, Structural, Debug)]
pub struct SettlementConfig {
    /// Rows younger than this are left for the next pass, to avoid racing
    /// an ingestion write still in flight.
    pub safety_lag: u64,
    /// Upper bound of rows one pass scans.
    pub batch_limit: usize,
    /// Tolerance window for ledger matches, in the store's time unit.
    pub match_tolerance: u64,
}

/// The creation-time cutoff of one pass at instant `now`.
pub open spec fn spec_cutoff(now: u64, lag: u64) -> u64 {
    if now >= lag {
        (now - lag) as u64
    } else {
        0
    }
}

/// The rows one pass scans.
pub open spec fn spec_tick_pending(pre: Store, now: u64, cfg: SettlementConfig) -> Seq<
    Transaction,
> {
    spec_pending_scan(pre.txs@, spec_cutoff(now, cfg.safety_lag), cfg.batch_limit as nat)
}

/// The decisions one pass derives from the ledger replies, one reply per
/// scanned row.
pub open spec fn spec_tick_decisions(
    pre: Store,
    replies: Seq<LedgerReply>,
    now: u64,
    cfg: SettlementConfig,
) -> Seq<(u64, Decision)> {
    Seq::new(
        spec_tick_pending(pre, now, cfg).len(),
        |k: int|
            (
                spec_tick_pending(pre, now, cfg)[k].id,
                spec_decide(
                    spec_tick_pending(pre, now, cfg)[k],
                    replies[k],
                    cfg.match_tolerance,
                    pre.max_attempts,
                ),
            ),
    )
}

/// One settlement pass: scan the eligible pending rows, decide each from
/// its ledger reply, and commit all outcomes — including the one batch of
/// newly settled rows — atomically.  With the feature flag off the store
/// is left untouched.
#[verifier::loop_isolation(false)]
#[verifier::rlimit(60)]
pub fn settlement_tick(
    store: &mut Store,
    enabled: bool,
    replies: &Vec<LedgerReply>,
    now: u64,
    cfg: &SettlementConfig,
) -> (r: Option<u64>)
    requires
        old(store).wf(),
        old(store).next_batch_id < u64::MAX,
        enabled ==> replies@.len() == spec_tick_pending(*old(store), now, *cfg).len(),
    ensures
        final(store).wf(),
        !enabled ==> *final(store) == *old(store) && r is None,
        enabled ==> tick_applied(
            *old(store),
            *final(store),
            spec_tick_decisions(*old(store), replies@, now, *cfg),
            spec_cutoff(now, cfg.safety_lag),
            now,
            None::<String>,
            now,
            r,
        ),
{
    if !enabled {
        return None;
    }
    let cutoff = if now >= cfg.safety_lag {
        now - cfg.safety_lag
    } else {
        0
    };
    let pending = store.list_pending(cutoff, cfg.batch_limit);
    proof {
        lemma_pending_scan_props(store.txs@, cutoff, cfg.batch_limit as nat);
    }
    let mut decisions: Vec<(u64, Decision)> = Vec::new();
    let mut k: usize = 0;
    while k < pending.len()
        invariant
            k <= pending@.len(),
            decisions@.len() == k,
            forall|m: int|
                0 <= m < k ==> decisions@[m] == (
                    pending@[m].id,
                    spec_decide(pending@[m], replies@[m], cfg.match_tolerance, store.max_attempts),
                ),
        decreases pending@.len() - k,
    {
        let d = decide(&pending[k], &replies[k], cfg.match_tolerance, store.max_attempts);
        decisions.push((pending[k].id, d));
        k += 1;
    }
    proof {
        let pre = *store;
        let ds = spec_tick_decisions(pre, replies@, now, *cfg);
        assert(decisions@ =~= ds);
        assert forall|m: int| 0 <= m < ds.len() implies pre.spec_has_tx((#[trigger] ds[m]).0)
            && pre.txs@[pre.spec_tx_index(ds[m].0)].status == TxStatus::Pending && (ds[m].1
            == Decision::Retry ==> pre.txs@[pre.spec_tx_index(ds[m].0)].settlement_attempts + 2
            <= pre.max_attempts) by {
            let e = pending@[m];
            assert(pre.txs@.contains(e) && e.status == TxStatus::Pending);
            let i = choose|i: int| 0 <= i < pre.txs@.len() && pre.txs@[i] == e;
            assert(pre.txs@[i].id == e.id);
            assert(pre.spec_has_tx(e.id));
            let j = pre.spec_tx_index(e.id);
            assert(0 <= j < pre.txs@.len() && pre.txs@[j].id == e.id);
            if j != i {
                assert(pre.txs@[i].id != pre.txs@[j].id);
            }
            assert(pre.txs@[j] == e);
        }
        assert(decisions_valid(pre, decisions@));
    }
    store.apply_tick(decisions, cutoff, now, None, now)
}

/// Overlap guard and shutdown flag for the periodic tasks: at most one
/// tick is active at a time; a tick due while one runs is skipped, never
/// queued; after shutdown no new tick begins.
pub struct TickGuard {
    pub running: bool,
    pub shutdown: bool,
}

impl TickGuard {
    pub fn new() -> (g: TickGuard)
        ensures
            !g.running,
            !g.shutdown,
    {
        TickGuard { running: false, shutdown: false }
    }

    /// Begin a tick unless one is still active or shutdown was requested.
    pub fn try_begin(&mut self) -> (ok: bool)
        ensures
            ok == (!old(self).running && !old(self).shutdown),
            final(self).running == (old(self).running || ok),
            final(self).shutdown == old(self).shutdown,
    {
        if self.running || self.shutdown {
            false
        } else {
            self.running = true;
            true
        }
    }

    /// End the active tick.
    pub fn end_tick(&mut self)
        requires
            old(self).running,
        ensures
            !final(self).running,
            final(self).shutdown == old(self).shutdown,
    {
        self.running = false;
    }

    /// Ask the task to stop after the in-flight tick, if any.
    pub fn request_shutdown(&mut self)
        ensures
            final(self).shutdown,
            final(self).running == old(self).running,
    {
        self.shutdown = true;
    }
}

/// Whether a periodic task's next tick is due at instant `now`.
pub fn tick_due(last_tick: u64, interval: u64, now: u64) -> (due: bool)
    ensures
        due == (now >= last_tick && now - last_tick >= interval),
{
    now >= last_tick && now - last_tick >= interval
}

} // verus!

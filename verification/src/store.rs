//! Model of the transaction store: time-partitioned transaction rows,
//! settlement batches, and partition metadata, with the global invariants
//! that the ingestion gateway and the settlement engine rely on.

use vstd::prelude::*;

use crate::text::str_eq;

verus! {

/// Status of a stored transaction: `Pending` until settlement resolves it,
/// then `Settled` or `Failed`, both terminal.
#[derive(Clone, Copy, PartialEq, Eq, Structural, Debug)]
pub enum TxStatus {
    Pending,
    Settled,
    Failed,
}

/// One stored deposit transaction.
#[derive(Debug)]
pub struct Transaction {
    /// Store-assigned identifier, unique over the store's lifetime.
    pub id: u64,
    /// The anchor platform's correlation key; the idempotency key.
    pub anchor_transaction_id: String,
    /// Destination account on the ledger.
    pub stellar_account: String,
    /// Deposited amount, kept as the validated decimal text.
    pub amount: String,
    /// Asset code of the deposit.
    pub asset_code: String,
    /// Callback type as supplied by the anchor, if any.
    pub callback_type: Option<String>,
    /// Callback status as supplied by the anchor, if any.
    pub callback_status: Option<String>,
    /// Settlement state; `Settled` and `Failed` are terminal.
    pub status: TxStatus,
    /// Ledger polls counted against the attempt budget so far.
    pub settlement_attempts: u32,
    /// Batch this row settled under, if settled.
    pub batch_id: Option<u64>,
    /// Creation time; decides partition placement.
    pub created_at: u64,
    /// Time of the last write to this row.
    pub updated_at: u64,
}

/// Fields of a transaction that the ingestion gateway supplies; the store
/// assigns the identifier, status and timestamps.
#[derive(Debug)]
pub struct NewTransaction {
    pub anchor_transaction_id: String,
    pub stellar_account: String,
    pub amount: String,
    pub asset_code: String,
    pub callback_type: Option<String>,
    pub callback_status: Option<String>,
}

/// Result of one settlement run: every transaction that settled in that
/// run, committed atomically together with the row updates.
#[derive(Debug)]
pub struct SettlementBatch {
    pub id: u64,
    pub window_start: u64,
    pub window_end: u64,
    pub ledger_reference: Option<String>,
    pub transaction_ids: Vec<u64>,
}

/// A bounded time range of the store.  Rows whose `created_at` falls in
/// `[range_start, range_end)` live in this partition.
#[derive(Clone, Copy, PartialEq, Eq, Structural, Debug)]
pub struct Partition {
    pub range_start: u64,
    pub range_end: u64,
    pub created_at: u64,
}

/// Failure of a store write that is not the idempotent-replay path.
#[derive(Clone, Copy, PartialEq, Eq, Structural, Debug)]
pub enum StorageError {
    /// No partition covers the row's creation time.
    PartitionMissing,
}

/// The transaction store.  All fields are inspected by contracts; mutation
/// goes through the methods, which preserve [`Store::wf`].
pub struct Store {
    pub txs: Vec<Transaction>,
    pub batches: Vec<SettlementBatch>,
    pub partitions: Vec<Partition>,
    pub next_tx_id: u64,
    pub next_batch_id: u64,
    /// Configured settlement poll budget per transaction.
    pub max_attempts: u32,
}

impl Transaction {
    /// Field-for-field copy of this row.
    pub fn duplicate(&self) -> (r: Transaction)
        ensures
            r == *self,
    {
        Transaction {
            id: self.id,
            anchor_transaction_id: self.anchor_transaction_id.clone(),
            stellar_account: self.stellar_account.clone(),
            amount: self.amount.clone(),
            asset_code: self.asset_code.clone(),
            callback_type: match &self.callback_type {
                Some(s) => Some(s.clone()),
                None => None,
            },
            callback_status: match &self.callback_status {
                Some(s) => Some(s.clone()),
                None => None,
            },
            status: self.status,
            settlement_attempts: self.settlement_attempts,
            batch_id: self.batch_id,
            created_at: self.created_at,
            updated_at: self.updated_at,
        }
    }
}

/// The rows a settlement pass scans: the first `limit` rows, in store
/// order, that are `Pending` and were created before `older_than`.
pub open spec fn spec_pending_scan(txs: Seq<Transaction>, older_than: u64, limit: nat) -> Seq<
    Transaction,
>
    decreases txs.len(),
{
    if txs.len() == 0 {
        Seq::empty()
    } else {
        let rest = spec_pending_scan(txs.drop_last(), older_than, limit);
        let t = txs.last();
        if rest.len() < limit && t.status == TxStatus::Pending && t.created_at < older_than {
            rest.push(t)
        } else {
            rest
        }
    }
}

/// Every scanned row is a `Pending` row of the store, old enough, and the
/// scanned rows carry pairwise distinct identifiers.
pub proof fn lemma_pending_scan_props(txs: Seq<Transaction>, older_than: u64, limit: nat)
    requires
        forall|i: int, j: int| 0 <= i < j < txs.len() ==> txs[i].id != txs[j].id,
    ensures
        spec_pending_scan(txs, older_than, limit).len() <= limit,
        forall|k: int|
            0 <= k < spec_pending_scan(txs, older_than, limit).len() ==> txs.contains(
                #[trigger] spec_pending_scan(txs, older_than, limit)[k],
            ) && spec_pending_scan(txs, older_than, limit)[k].status == TxStatus::Pending
                && spec_pending_scan(txs, older_than, limit)[k].created_at < older_than,
        forall|k1: int, k2: int|
            0 <= k1 < k2 < spec_pending_scan(txs, older_than, limit).len()
                ==> spec_pending_scan(txs, older_than, limit)[k1].id != spec_pending_scan(
                txs,
                older_than,
                limit,
            )[k2].id,
    decreases txs.len(),
{
    if txs.len() == 0 {
    } else {
        let pre = txs.drop_last();
        lemma_pending_scan_props(pre, older_than, limit);
        let rest = spec_pending_scan(pre, older_than, limit);
        let scan = spec_pending_scan(txs, older_than, limit);
        assert forall|k: int| 0 <= k < rest.len() implies txs.contains(#[trigger] rest[k]) by {
            let i = choose|i: int| 0 <= i < pre.len() && pre[i] == rest[k];
            assert(txs[i] == rest[k]);
        }
        if scan.len() == rest.len() + 1 {
            assert forall|k1: int| 0 <= k1 < rest.len() implies rest[k1].id != txs.last().id by {
                let i = choose|i: int| 0 <= i < pre.len() && pre[i] == rest[k1];
                assert(txs[i] == rest[k1]);
                assert(txs[i].id != txs[txs.len() - 1].id);
            }
        }
    }
}

/// The row the store creates for gateway-supplied fields `n`.
pub open spec fn spec_inserted_tx(n: NewTransaction, id: u64, now: u64) -> Transaction {
    Transaction {
        id,
        anchor_transaction_id: n.anchor_transaction_id,
        stellar_account: n.stellar_account,
        amount: n.amount,
        asset_code: n.asset_code,
        callback_type: n.callback_type,
        callback_status: n.callback_status,
        status: TxStatus::Pending,
        settlement_attempts: 0,
        batch_id: None,
        created_at: now,
        updated_at: now,
    }
}

/// Relation between a store before and after a successful fresh insert.
pub open spec fn insert_created(pre: Store, post: Store, n: NewTransaction, now: u64) -> bool {
    &&& post.txs@ == pre.txs@.push(spec_inserted_tx(n, pre.next_tx_id, now))
    &&& post.batches@ == pre.batches@
    &&& post.partitions@ == pre.partitions@
    &&& post.next_tx_id == pre.next_tx_id + 1
    &&& post.next_batch_id == pre.next_batch_id
    &&& post.max_attempts == pre.max_attempts
}

/// Identifier and status handed back on an idempotent replay.
pub open spec fn insert_replay_result(pre: Store, anchor: Seq<char>) -> (u64, TxStatus) {
    let i = pre.spec_anchor_index(anchor);
    (pre.txs@[i].id, pre.txs@[i].status)
}

impl Store {
    /// Transaction identifiers and anchor keys are pairwise distinct.
    pub open spec fn txs_distinct(self) -> bool {
        forall|i: int, j: int|
            0 <= i < j < self.txs@.len() ==> self.txs@[i].id != self.txs@[j].id
                && self.txs@[i].anchor_transaction_id@ != self.txs@[j].anchor_transaction_id@
    }

    /// Every identifier the store has handed out is below its counter.
    pub open spec fn ids_bounded(self) -> bool {
        &&& forall|i: int| 0 <= i < self.txs@.len() ==> self.txs@[i].id < self.next_tx_id
        &&& forall|j: int| 0 <= j < self.batches@.len() ==> self.batches@[j].id < self.next_batch_id
        &&& forall|j: int, k: int|
            0 <= j < self.batches@.len() && 0 <= k < self.batches@[j].transaction_ids@.len()
                ==> self.batches@[j].transaction_ids@[k] < self.next_tx_id
    }

    /// Batch identifiers are pairwise distinct.
    pub open spec fn batches_distinct(self) -> bool {
        forall|i: int, j: int|
            0 <= i < j < self.batches@.len() ==> self.batches@[i].id != self.batches@[j].id
    }

    /// The attempt budget is positive; no row exceeds it; a pending row has
    /// headroom left (a row at the budget has transitioned out of `Pending`).
    pub open spec fn attempts_bounded(self) -> bool {
        &&& self.max_attempts >= 1
        &&& forall|i: int|
            0 <= i < self.txs@.len() ==> self.txs@[i].settlement_attempts <= self.max_attempts
        &&& forall|i: int|
            0 <= i < self.txs@.len() && self.txs@[i].status == TxStatus::Pending
                ==> self.txs@[i].settlement_attempts < self.max_attempts
    }

    /// A row is `Settled` exactly when it carries a batch id, and that batch
    /// exists and lists the row; a batch member that still exists as a row is
    /// `Settled` under exactly that batch.  Batches outlive retired rows, so
    /// a member id with no surviving row is allowed.
    pub open spec fn status_batch_linked(self) -> bool {
        &&& forall|i: int|
            0 <= i < self.txs@.len() ==> (self.txs@[i].status == TxStatus::Settled
                <==> self.txs@[i].batch_id is Some)
        &&& forall|i: int|
            0 <= i < self.txs@.len() && self.txs@[i].status == TxStatus::Settled
                ==> exists|j: int|
                0 <= j < self.batches@.len() && #[trigger] self.batches@[j].id
                    == self.txs@[i].batch_id->0 && self.batches@[j].transaction_ids@.contains(
                    self.txs@[i].id,
                )
        &&& forall|j: int, k: int, i: int|
            0 <= j < self.batches@.len() && 0 <= k < self.batches@[j].transaction_ids@.len() && 0
                <= i < self.txs@.len() && #[trigger] self.batches@[j].transaction_ids@[k]
                == #[trigger] self.txs@[i].id ==> self.txs@[i].status == TxStatus::Settled
                && self.txs@[i].batch_id == Some(self.batches@[j].id)
    }

    /// Within a batch the member ids are pairwise distinct.
    pub open spec fn batch_members_distinct(self) -> bool {
        forall|j: int, k1: int, k2: int|
            0 <= j < self.batches@.len() && 0 <= k1 < k2 < self.batches@[j].transaction_ids@.len()
                ==> self.batches@[j].transaction_ids@[k1] != self.batches@[j].transaction_ids@[k2]
    }

    /// No transaction id appears in two different batches.
    pub open spec fn batches_disjoint(self) -> bool {
        forall|j1: int, j2: int, k1: int, k2: int|
            0 <= j1 < self.batches@.len() && 0 <= j2 < self.batches@.len() && j1 != j2 && 0 <= k1
                < self.batches@[j1].transaction_ids@.len() && 0 <= k2
                < self.batches@[j2].transaction_ids@.len()
                ==> #[trigger] self.batches@[j1].transaction_ids@[k1]
                != #[trigger] self.batches@[j2].transaction_ids@[k2]
    }

    /// Partition ranges are proper and pairwise distinct.
    pub open spec fn partitions_wf(self) -> bool {
        &&& forall|i: int|
            0 <= i < self.partitions@.len() ==> self.partitions@[i].range_start
                < self.partitions@[i].range_end
        &&& forall|i: int, j: int|
            0 <= i < j < self.partitions@.len() ==> !(self.partitions@[i].range_start
                == self.partitions@[j].range_start && self.partitions@[i].range_end
                == self.partitions@[j].range_end)
    }

    /// Well-formedness: the store invariant every operation preserves.
    pub open spec fn wf(self) -> bool {
        &&& self.txs_distinct()
        &&& self.ids_bounded()
        &&& self.batches_distinct()
        &&& self.attempts_bounded()
        &&& self.status_batch_linked()
        &&& self.batch_members_distinct()
        &&& self.batches_disjoint()
        &&& self.partitions_wf()
    }

    /// Some stored row carries this anchor key.
    pub open spec fn spec_has_anchor(self, anchor: Seq<char>) -> bool {
        exists|i: int|
            0 <= i < self.txs@.len() && #[trigger] self.txs@[i].anchor_transaction_id@ == anchor
    }

    /// Index of the row carrying this anchor key (unique under `wf`).
    pub open spec fn spec_anchor_index(self, anchor: Seq<char>) -> int {
        choose|i: int|
            0 <= i < self.txs@.len() && #[trigger] self.txs@[i].anchor_transaction_id@ == anchor
    }

    /// Some stored row has this identifier.
    pub open spec fn spec_has_tx(self, id: u64) -> bool {
        exists|i: int| 0 <= i < self.txs@.len() && #[trigger] self.txs@[i].id == id
    }

    /// Index of the row with this identifier (unique under `wf`).
    pub open spec fn spec_tx_index(self, id: u64) -> int {
        choose|i: int| 0 <= i < self.txs@.len() && #[trigger] self.txs@[i].id == id
    }

    /// A partition exists whose range covers instant `t`.
    pub open spec fn spec_covers(self, t: u64) -> bool {
        exists|i: int|
            0 <= i < self.partitions@.len() && #[trigger] self.partitions@[i].range_start <= t
                && t < self.partitions@[i].range_end
    }

    /// A partition with exactly this range exists.
    pub open spec fn spec_has_partition(self, range_start: u64, range_end: u64) -> bool {
        exists|i: int|
            0 <= i < self.partitions@.len() && #[trigger] self.partitions@[i].range_start
                == range_start && self.partitions@[i].range_end == range_end
    }

    /// An empty store with the given settlement attempt budget.
    pub fn new(max_attempts: u32) -> (s: Store)
        requires
            max_attempts >= 1,
        ensures
            s.wf(),
            s.txs@.len() == 0,
            s.batches@.len() == 0,
            s.partitions@.len() == 0,
            s.next_tx_id == 0,
            s.next_batch_id == 0,
            s.max_attempts == max_attempts,
    {
        Store {
            txs: Vec::new(),
            batches: Vec::new(),
            partitions: Vec::new(),
            next_tx_id: 0,
            next_batch_id: 0,
            max_attempts,
        }
    }

    /// Index of the row carrying this anchor key, if any.
    fn find_anchor(&self, anchor: &str) -> (r: Option<usize>)
        ensures
            match r {
                Some(i) => i < self.txs@.len() && self.txs@[i as int].anchor_transaction_id@
                    == anchor@,
                None => !self.spec_has_anchor(anchor@),
            },
    {
        let mut i: usize = 0;
        while i < self.txs.len()
            invariant
                i <= self.txs@.len(),
                forall|k: int| 0 <= k < i ==> self.txs@[k].anchor_transaction_id@ != anchor@,
            decreases self.txs@.len() - i,
        {
            if str_eq(self.txs[i].anchor_transaction_id.as_str(), anchor) {
                return Some(i);
            }
            i += 1;
        }
        None
    }

    /// Idempotent insert, the authoritative dedup guard.  A row whose anchor
    /// key is already present is handed back untouched; a fresh key becomes a
    /// new `Pending` row, provided a partition covers its creation time.
    pub fn insert_if_absent(&mut self, tx: NewTransaction, now: u64) -> (r: Result<
        (u64, TxStatus),
        StorageError,
    >)
        requires
            old(self).wf(),
            old(self).next_tx_id < u64::MAX,
        ensures
            final(self).wf(),
            old(self).spec_has_anchor(tx.anchor_transaction_id@) ==> *final(self) == *old(self)
                && r == Ok::<(u64, TxStatus), StorageError>(
                insert_replay_result(*old(self), tx.anchor_transaction_id@),
            ),
            !old(self).spec_has_anchor(tx.anchor_transaction_id@) && old(self).spec_covers(now)
                ==> insert_created(*old(self), *final(self), tx, now) && r == Ok::<
                (u64, TxStatus),
                StorageError,
            >((old(self).next_tx_id, TxStatus::Pending)),
            !old(self).spec_has_anchor(tx.anchor_transaction_id@) && !old(self).spec_covers(now)
                ==> *final(self) == *old(self) && r == Err::<(u64, TxStatus), StorageError>(
                StorageError::PartitionMissing,
            ),
    {
        let ghost anchor: Seq<char> = tx.anchor_transaction_id@;
        match self.find_anchor(tx.anchor_transaction_id.as_str()) {
            Some(i) => {
                proof {
                    assert(self.spec_has_anchor(anchor));
                    let c = self.spec_anchor_index(anchor);
                    assert(self.txs@[c].anchor_transaction_id@ == anchor);
                    if c != i {
                        assert(self.txs@[c].anchor_transaction_id@
                            != self.txs@[i as int].anchor_transaction_id@);
                    }
                }
                Ok((self.txs[i].id, self.txs[i].status))
            },
            None => {
                if !self.covers(now) {
                    return Err(StorageError::PartitionMissing);
                }
                let id = self.next_tx_id;
                let row = Transaction {
                    id,
                    anchor_transaction_id: tx.anchor_transaction_id,
                    stellar_account: tx.stellar_account,
                    amount: tx.amount,
                    asset_code: tx.asset_code,
                    callback_type: tx.callback_type,
                    callback_status: tx.callback_status,
                    status: TxStatus::Pending,
                    settlement_attempts: 0,
                    batch_id: None,
                    created_at: now,
                    updated_at: now,
                };
                self.txs.push(row);
                self.next_tx_id = id + 1;
                Ok((id, TxStatus::Pending))
            },
        }
    }

    /// Whether a partition covers instant `t`.
    pub fn covers(&self, t: u64) -> (r: bool)
        ensures
            r == self.spec_covers(t),
    {
        let mut i: usize = 0;
        while i < self.partitions.len()
            invariant
                i <= self.partitions@.len(),
                forall|k: int|
                    0 <= k < i ==> !(#[trigger] self.partitions@[k].range_start <= t && t
                        < self.partitions@[k].range_end),
            decreases self.partitions@.len() - i,
        {
            if self.partitions[i].range_start <= t && t < self.partitions[i].range_end {
                return true;
            }
            i += 1;
        }
        false
    }

    /// Look a transaction up by its store-assigned identifier.
    pub fn get(&self, id: u64) -> (r: Option<&Transaction>)
        ensures
            match r {
                Some(t) => self.spec_has_tx(id) && self.txs@.contains(*t) && t.id == id,
                None => !self.spec_has_tx(id),
            },
    {
        let mut i: usize = 0;
        while i < self.txs.len()
            invariant
                i <= self.txs@.len(),
                forall|k: int| 0 <= k < i ==> self.txs@[k].id != id,
            decreases self.txs@.len() - i,
        {
            if self.txs[i].id == id {
                assert(self.txs@.contains(self.txs@[i as int]));
                return Some(&self.txs[i]);
            }
            i += 1;
        }
        None
    }

    /// Create-if-absent for a partition range; repeated calls for the same
    /// range leave the store as it is.
    #[verifier::loop_isolation(false)]
    pub fn ensure_partition(&mut self, range_start: u64, range_end: u64, now: u64) -> (created:
        bool)
        requires
            old(self).wf(),
            range_start < range_end,
        ensures
            final(self).wf(),
            old(self).spec_has_partition(range_start, range_end) ==> !created && *final(self)
                == *old(self),
            !old(self).spec_has_partition(range_start, range_end) ==> created
                && final(self).partitions@ == old(self).partitions@.push(
                (Partition { range_start, range_end, created_at: now }),
            ) && final(self).txs@ == old(self).txs@ && final(self).batches@ == old(self).batches@
                && final(self).next_tx_id == old(self).next_tx_id && final(self).next_batch_id
                == old(self).next_batch_id && final(self).max_attempts == old(self).max_attempts,
            final(self).spec_has_partition(range_start, range_end),
    {
        let mut i: usize = 0;
        while i < self.partitions.len()
            invariant
                i <= self.partitions@.len(),
                forall|k: int|
                    0 <= k < i ==> !(#[trigger] self.partitions@[k].range_start == range_start
                        && self.partitions@[k].range_end == range_end),
            decreases self.partitions@.len() - i,
        {
            if self.partitions[i].range_start == range_start && self.partitions[i].range_end
                == range_end {
                return false;
            }
            i += 1;
        }
        self.partitions.push(Partition { range_start, range_end, created_at: now });
        proof {
            let n = self.partitions@.len() - 1;
            assert(self.partitions@[n].range_start == range_start);
        }
        true
    }

    /// Hand the partition metadata out.
    pub fn list_partitions(&self) -> (r: &Vec<Partition>)
        ensures
            r@ == self.partitions@,
    {
        &self.partitions
    }

    /// Copies of the first `limit` rows that are `Pending` and were created
    /// before `older_than`, in store order: one settlement pass's input.
    #[verifier::loop_isolation(false)]
    pub fn list_pending(&self, older_than: u64, limit: usize) -> (r: Vec<Transaction>)
        ensures
            r@ == spec_pending_scan(self.txs@, older_than, limit as nat),
    {
        let mut out: Vec<Transaction> = Vec::new();
        let mut i: usize = 0;
        while i < self.txs.len()
            invariant
                i <= self.txs@.len(),
                out@ == spec_pending_scan(self.txs@.take(i as int), older_than, limit as nat),
                out@.len() <= limit,
            decreases self.txs@.len() - i,
        {
            proof {
                assert(self.txs@.take(i + 1).drop_last() =~= self.txs@.take(i as int));
                assert(self.txs@.take(i + 1).last() == self.txs@[i as int]);
            }
            if out.len() < limit && self.txs[i].created_at < older_than {
                if self.txs[i].status == TxStatus::Pending {
                    out.push(self.txs[i].duplicate());
                }
            }
            i += 1;
        }
        proof {
            assert(self.txs@.take(self.txs@.len() as int) =~= self.txs@);
        }
        out
    }

    /// Atomic single-row transition of a pending row to `Failed`.  Under the
    /// store invariant a row becomes `Settled` only together with the batch
    /// that lists it, so that transition goes through the batch commit and
    /// this call never attaches a batch.
    #[verifier::loop_isolation(false)]
    pub fn update_status(
        &mut self,
        id: u64,
        new_status: TxStatus,
        batch_id: Option<u64>,
        now: u64,
    ) -> (updated: bool)
        requires
            old(self).wf(),
            new_status == TxStatus::Failed,
            batch_id is None,
        ensures
            final(self).wf(),
            !(old(self).spec_has_tx(id) && old(self).txs@[old(self).spec_tx_index(id)].status
                == TxStatus::Pending) ==> !updated && *final(self) == *old(self),
            old(self).spec_has_tx(id) && old(self).txs@[old(self).spec_tx_index(id)].status
                == TxStatus::Pending ==> updated && final(self).txs@ == old(self).txs@.update(
                old(self).spec_tx_index(id),
                spec_failed_row(old(self).txs@[old(self).spec_tx_index(id)], now),
            ) && final(self).batches@ == old(self).batches@
                && final(self).partitions@ == old(self).partitions@
                && final(self).next_tx_id == old(self).next_tx_id
                && final(self).next_batch_id == old(self).next_batch_id
                && final(self).max_attempts == old(self).max_attempts,
    {
        let n = self.txs.len();
        let mut i: usize = 0;
        while i < n
            invariant
                i <= n,
                n == self.txs@.len(),
                *self == *old(self),
                forall|k: int| 0 <= k < i ==> self.txs@[k].id != id,
            decreases n - i,
        {
            if self.txs[i].id == id {
                proof {
                    assert(self.spec_has_tx(id));
                    let c = self.spec_tx_index(id);
                    if c != i {
                        assert(self.txs@[c].id != self.txs@[i as int].id);
                    }
                }
                if self.txs[i].status != TxStatus::Pending {
                    return false;
                }
                let mut row = self.txs[i].duplicate();
                row.status = TxStatus::Failed;
                row.updated_at = now;
                self.txs[i] = row;
                return true;
            }
            i += 1;
        }
        false
    }
}

/// The row a forced failure leaves behind.
pub open spec fn spec_failed_row(t: Transaction, now: u64) -> Transaction {
    Transaction { status: TxStatus::Failed, updated_at: now, ..t }
}

} // verus!

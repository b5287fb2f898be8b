//! Partition manager: keeps a partition available for the write horizon
//! ahead of need and prunes partitions past the retention horizon, rows
//! included — retired data is gone by design.

use vstd::prelude::*;
use vstd::arithmetic::div_mod::{
    lemma_div_is_ordered, lemma_fundamental_div_mod, lemma_multiply_divide_lt,
};

use crate::store::{Partition, Store, Transaction};

verus! {

/// Rows kept by a pruning pass, in store order.
pub open spec fn spec_rows_kept(txs: Seq<Transaction>, keep: spec_fn(Transaction) -> bool) -> Seq<
    Transaction,
>
    decreases txs.len(),
{
    if txs.len() == 0 {
        Seq::empty()
    } else {
        let rest = spec_rows_kept(txs.drop_last(), keep);
        if keep(txs.last()) {
            rest.push(txs.last())
        } else {
            rest
        }
    }
}

/// Partitions kept by a pruning pass, in store order.
pub open spec fn spec_parts_kept(ps: Seq<Partition>, keep: spec_fn(Partition) -> bool) -> Seq<
    Partition,
>
    decreases ps.len(),
{
    if ps.len() == 0 {
        Seq::empty()
    } else {
        let rest = spec_parts_kept(ps.drop_last(), keep);
        if keep(ps.last()) {
            rest.push(ps.last())
        } else {
            rest
        }
    }
}

/// A pruning pass keeps exactly the rows its predicate admits, and keeps
/// identifiers and anchor keys pairwise distinct.
pub proof fn lemma_rows_kept_props(txs: Seq<Transaction>, keep: spec_fn(Transaction) -> bool)
    requires
        forall|i: int, j: int|
            0 <= i < j < txs.len() ==> txs[i].id != txs[j].id && txs[i].anchor_transaction_id@
                != txs[j].anchor_transaction_id@,
    ensures
        forall|k: int|
            0 <= k < spec_rows_kept(txs, keep).len() ==> txs.contains(
                #[trigger] spec_rows_kept(txs, keep)[k],
            ) && keep(spec_rows_kept(txs, keep)[k]),
        forall|i: int|
            0 <= i < txs.len() && keep(#[trigger] txs[i]) ==> spec_rows_kept(txs, keep).contains(
                txs[i],
            ),
        forall|k1: int, k2: int|
            0 <= k1 < k2 < spec_rows_kept(txs, keep).len() ==> spec_rows_kept(txs, keep)[k1].id
                != spec_rows_kept(txs, keep)[k2].id && spec_rows_kept(
                txs,
                keep,
            )[k1].anchor_transaction_id@ != spec_rows_kept(txs, keep)[k2].anchor_transaction_id@,
    decreases txs.len(),
{
    if txs.len() == 0 {
    } else {
        let pre = txs.drop_last();
        lemma_rows_kept_props(pre, keep);
        let rest = spec_rows_kept(pre, keep);
        let kept = spec_rows_kept(txs, keep);
        assert forall|k: int| 0 <= k < rest.len() implies txs.contains(#[trigger] rest[k]) by {
            let i = choose|i: int| 0 <= i < pre.len() && pre[i] == rest[k];
            assert(txs[i] == rest[k]);
        }
        assert forall|i: int| 0 <= i < txs.len() && keep(#[trigger] txs[i]) implies kept.contains(
            txs[i],
        ) by {
            if i == txs.len() - 1 {
                assert(kept[kept.len() - 1] == txs[i]);
            } else {
                assert(pre[i] == txs[i]);
                assert(rest.contains(txs[i]));
                let m = choose|m: int| 0 <= m < rest.len() && rest[m] == txs[i];
                assert(kept[m] == txs[i]);
            }
        }
        if kept.len() == rest.len() + 1 {
            assert forall|k1: int| 0 <= k1 < rest.len() implies rest[k1].id != txs.last().id
                && rest[k1].anchor_transaction_id@ != txs.last().anchor_transaction_id@ by {
                let i = choose|i: int| 0 <= i < pre.len() && pre[i] == rest[k1];
                assert(txs[i] == rest[k1]);
                assert(txs[i].id != txs[txs.len() - 1].id);
            }
        }
    }
}

/// The partition counterpart: kept exactly per the predicate, ranges still
/// pairwise distinct.
pub proof fn lemma_parts_kept_props(ps: Seq<Partition>, keep: spec_fn(Partition) -> bool)
    requires
        forall|i: int, j: int|
            0 <= i < j < ps.len() ==> !(ps[i].range_start == ps[j].range_start && ps[i].range_end
                == ps[j].range_end),
    ensures
        forall|k: int|
            0 <= k < spec_parts_kept(ps, keep).len() ==> ps.contains(
                #[trigger] spec_parts_kept(ps, keep)[k],
            ) && keep(spec_parts_kept(ps, keep)[k]),
        forall|i: int|
            0 <= i < ps.len() && keep(#[trigger] ps[i]) ==> spec_parts_kept(ps, keep).contains(
                ps[i],
            ),
        forall|k1: int, k2: int|
            0 <= k1 < k2 < spec_parts_kept(ps, keep).len() ==> !(spec_parts_kept(
                ps,
                keep,
            )[k1].range_start == spec_parts_kept(ps, keep)[k2].range_start && spec_parts_kept(
                ps,
                keep,
            )[k1].range_end == spec_parts_kept(ps, keep)[k2].range_end),
    decreases ps.len(),
{
    if ps.len() == 0 {
    } else {
        let pre = ps.drop_last();
        lemma_parts_kept_props(pre, keep);
        let rest = spec_parts_kept(pre, keep);
        let kept = spec_parts_kept(ps, keep);
        assert forall|k: int| 0 <= k < rest.len() implies ps.contains(#[trigger] rest[k]) by {
            let i = choose|i: int| 0 <= i < pre.len() && pre[i] == rest[k];
            assert(ps[i] == rest[k]);
        }
        assert forall|i: int| 0 <= i < ps.len() && keep(#[trigger] ps[i]) implies kept.contains(
            ps[i],
        ) by {
            if i == ps.len() - 1 {
                assert(kept[kept.len() - 1] == ps[i]);
            } else {
                assert(pre[i] == ps[i]);
                assert(rest.contains(ps[i]));
                let m = choose|m: int| 0 <= m < rest.len() && rest[m] == ps[i];
                assert(kept[m] == ps[i]);
            }
        }
        if kept.len() == rest.len() + 1 {
            assert forall|k1: int| 0 <= k1 < rest.len() implies !(rest[k1].range_start
                == ps.last().range_start && rest[k1].range_end == ps.last().range_end) by {
                let i = choose|i: int| 0 <= i < pre.len() && pre[i] == rest[k1];
                assert(ps[i] == rest[k1]);
            }
        }
    }
}

/// Removing rows and partitions — nothing else — preserves the store
/// invariant, provided what stays keeps its pairwise distinctness.
pub proof fn lemma_subset_store_wf(pre: Store, post: Store)
    requires
        pre.wf(),
        post.batches@ == pre.batches@,
        post.next_tx_id == pre.next_tx_id,
        post.next_batch_id == pre.next_batch_id,
        post.max_attempts == pre.max_attempts,
        forall|i: int| 0 <= i < post.txs@.len() ==> pre.txs@.contains(#[trigger] post.txs@[i]),
        forall|i: int, j: int|
            0 <= i < j < post.txs@.len() ==> post.txs@[i].id != post.txs@[j].id
                && post.txs@[i].anchor_transaction_id@ != post.txs@[j].anchor_transaction_id@,
        forall|i: int|
            0 <= i < post.partitions@.len() ==> pre.partitions@.contains(
                #[trigger] post.partitions@[i],
            ),
        forall|i: int, j: int|
            0 <= i < j < post.partitions@.len() ==> !(post.partitions@[i].range_start
                == post.partitions@[j].range_start && post.partitions@[i].range_end
                == post.partitions@[j].range_end),
    ensures
        post.wf(),
{
    assert forall|i: int| 0 <= i < post.txs@.len() implies #[trigger] post.txs@[i].id
        < post.next_tx_id && post.txs@[i].settlement_attempts <= post.max_attempts && (
    post.txs@[i].status == crate::store::TxStatus::Pending ==> post.txs@[i].settlement_attempts
        < post.max_attempts) && (post.txs@[i].status == crate::store::TxStatus::Settled
        <==> post.txs@[i].batch_id is Some) by {
        let m = choose|m: int| 0 <= m < pre.txs@.len() && pre.txs@[m] == post.txs@[i];
        assert(pre.txs@[m].id < pre.next_tx_id);
    }
    assert forall|i: int|
        0 <= i < post.txs@.len() && #[trigger] post.txs@[i].status
            == crate::store::TxStatus::Settled implies exists|j: int|
        0 <= j < post.batches@.len() && #[trigger] post.batches@[j].id == post.txs@[i].batch_id->0
            && post.batches@[j].transaction_ids@.contains(post.txs@[i].id) by {
        let m = choose|m: int| 0 <= m < pre.txs@.len() && pre.txs@[m] == post.txs@[i];
        let j = choose|j: int|
            0 <= j < pre.batches@.len() && #[trigger] pre.batches@[j].id
                == pre.txs@[m].batch_id->0 && pre.batches@[j].transaction_ids@.contains(
                pre.txs@[m].id,
            );
        assert(post.batches@[j].id == post.txs@[i].batch_id->0);
    }
    assert forall|j: int, k: int, i: int|
        0 <= j < post.batches@.len() && 0 <= k < post.batches@[j].transaction_ids@.len() && 0 <= i
            < post.txs@.len() && #[trigger] post.batches@[j].transaction_ids@[k]
            == #[trigger] post.txs@[i].id implies post.txs@[i].status
        == crate::store::TxStatus::Settled && post.txs@[i].batch_id == Some(
        post.batches@[j].id,
    ) by {
        let m = choose|m: int| 0 <= m < pre.txs@.len() && pre.txs@[m] == post.txs@[i];
        assert(pre.batches@[j].transaction_ids@[k] == pre.txs@[m].id);
    }
    assert forall|i: int| 0 <= i < post.partitions@.len() implies #[trigger] post.partitions@[i].range_start
        < post.partitions@[i].range_end by {
        let m = choose|m: int|
            0 <= m < pre.partitions@.len() && pre.partitions@[m] == post.partitions@[i];
        assert(pre.partitions@[m].range_start < pre.partitions@[m].range_end);
    }
}

/// Whether some partition past the retention cutoff covers instant `t`.
pub open spec fn spec_expired_covers(ps: Seq<Partition>, t: u64, cutoff: u64) -> bool {
    exists|i: int|
        0 <= i < ps.len() && #[trigger] ps[i].range_end < cutoff && ps[i].range_start <= t && t
            < ps[i].range_end
}

fn expired_covers(ps: &Vec<Partition>, t: u64, cutoff: u64) -> (r: bool)
    ensures
        r == spec_expired_covers(ps@, t, cutoff),
{
    let mut i: usize = 0;
    while i < ps.len()
        invariant
            i <= ps@.len(),
            forall|k: int|
                0 <= k < i ==> !(#[trigger] ps@[k].range_end < cutoff && ps@[k].range_start <= t
                    && t < ps@[k].range_end),
        decreases ps@.len() - i,
    {
        if ps[i].range_end < cutoff && ps[i].range_start <= t && t < ps[i].range_end {
            return true;
        }
        i += 1;
    }
    false
}

impl Store {
    /// Drop the partition with exactly this range, and with it every row
    /// whose creation time falls inside the range: retirement is data loss
    /// by design.
    #[verifier::loop_isolation(false)]
    pub fn drop_partition(&mut self, range_start: u64, range_end: u64)
        requires
            old(self).wf(),
        ensures
            final(self).wf(),
            final(self).batches@ == old(self).batches@,
            final(self).next_tx_id == old(self).next_tx_id,
            final(self).next_batch_id == old(self).next_batch_id,
            final(self).max_attempts == old(self).max_attempts,
            forall|i: int|
                0 <= i < final(self).txs@.len() ==> old(self).txs@.contains(
                    #[trigger] final(self).txs@[i],
                ) && !(range_start <= final(self).txs@[i].created_at < range_end),
            forall|i: int|
                0 <= i < old(self).txs@.len() && !(range_start <= old(self).txs@[i].created_at
                    < range_end) ==> final(self).txs@.contains(#[trigger] old(self).txs@[i]),
            forall|i: int|
                0 <= i < final(self).partitions@.len() ==> old(self).partitions@.contains(
                    #[trigger] final(self).partitions@[i],
                ) && !(final(self).partitions@[i].range_start == range_start
                    && final(self).partitions@[i].range_end == range_end),
            forall|i: int|
                0 <= i < old(self).partitions@.len() && !(old(self).partitions@[i].range_start
                    == range_start && old(self).partitions@[i].range_end == range_end)
                    ==> final(self).partitions@.contains(#[trigger] old(self).partitions@[i]),
            !final(self).spec_has_partition(range_start, range_end),
    {
        let ghost keep_row = |t: Transaction|
            !(range_start <= t.created_at && t.created_at < range_end);
        let ghost keep_part = |p: Partition|
            !(p.range_start == range_start && p.range_end == range_end);
        let mut rows: Vec<Transaction> = Vec::new();
        let mut i: usize = 0;
        while i < self.txs.len()
            invariant
                i <= self.txs@.len(),
                *self == *old(self),
                rows@ == spec_rows_kept(self.txs@.take(i as int), keep_row),
            decreases self.txs@.len() - i,
        {
            proof {
                assert(self.txs@.take(i + 1).drop_last() =~= self.txs@.take(i as int));
                assert(self.txs@.take(i + 1).last() == self.txs@[i as int]);
            }
            if !(range_start <= self.txs[i].created_at && self.txs[i].created_at < range_end) {
                rows.push(self.txs[i].duplicate());
            }
            i += 1;
        }
        let mut parts: Vec<Partition> = Vec::new();
        let mut j: usize = 0;
        while j < self.partitions.len()
            invariant
                j <= self.partitions@.len(),
                *self == *old(self),
                parts@ == spec_parts_kept(self.partitions@.take(j as int), keep_part),
            decreases self.partitions@.len() - j,
        {
            proof {
                assert(self.partitions@.take(j + 1).drop_last() =~= self.partitions@.take(
                    j as int,
                ));
                assert(self.partitions@.take(j + 1).last() == self.partitions@[j as int]);
            }
            if !(self.partitions[j].range_start == range_start && self.partitions[j].range_end
                == range_end) {
                parts.push(self.partitions[j]);
            }
            j += 1;
        }
        proof {
            assert(self.txs@.take(self.txs@.len() as int) =~= self.txs@);
            assert(self.partitions@.take(self.partitions@.len() as int) =~= self.partitions@);
        }
        self.txs = rows;
        self.partitions = parts;
        proof {
            lemma_rows_kept_props(old(self).txs@, keep_row);
            lemma_parts_kept_props(old(self).partitions@, keep_part);
            lemma_subset_store_wf(*old(self), *self);
            if self.spec_has_partition(range_start, range_end) {
                let p = choose|p: int|
                    0 <= p < self.partitions@.len() && #[trigger] self.partitions@[p].range_start
                        == range_start && self.partitions@[p].range_end == range_end;
                assert(keep_part(self.partitions@[p]));
                assert(false);
            }
        }
    }
}

/// Tuning of the partition manager.
#[derive(Clone, Copy, PartialEq, Eq, Structural, Debug)]
pub struct PartitionConfig {
    /// Length of one partition window, in the store's time unit.
    pub window_len: u64,
    /// How many whole windows beyond the current one to keep ready.
    pub lookahead_windows: u64,
    /// How far behind `now` a partition's end may lie before it is pruned.
    pub retention: u64,
}

/// The retention cutoff at instant `now`: partitions ending before it go.
pub open spec fn spec_retention_cutoff(now: u64, retention: u64) -> u64 {
    if now >= retention {
        (now - retention) as u64
    } else {
        0
    }
}

/// The start of aligned window `base + w`, as an unbounded integer.
pub open spec fn spec_window_bound(base: u64, w: u64, wl: u64) -> int {
    (base as int + w as int) * wl as int
}

/// One partition-manager pass: prune partitions (and their rows) past the
/// retention horizon, then make sure an aligned window exists covering
/// `now` through the look-ahead horizon, create-if-absent, so repeated
/// passes and racing writers never contend on partition existence.
#[verifier::loop_isolation(false)]
#[verifier::rlimit(100)]
pub fn partition_tick(store: &mut Store, now: u64, cfg: &PartitionConfig)
    requires
        old(store).wf(),
        cfg.window_len >= 1,
        (now as int / cfg.window_len as int + cfg.lookahead_windows as int + 2)
            * cfg.window_len as int <= u64::MAX as int,
    ensures
        final(store).wf(),
        final(store).batches@ == old(store).batches@,
        final(store).next_tx_id == old(store).next_tx_id,
        final(store).next_batch_id == old(store).next_batch_id,
        final(store).max_attempts == old(store).max_attempts,
        forall|i: int|
            0 <= i < final(store).txs@.len() ==> old(store).txs@.contains(
                #[trigger] final(store).txs@[i],
            ) && !spec_expired_covers(
                old(store).partitions@,
                final(store).txs@[i].created_at,
                spec_retention_cutoff(now, cfg.retention),
            ),
        forall|i: int|
            0 <= i < old(store).txs@.len() && !spec_expired_covers(
                old(store).partitions@,
                old(store).txs@[i].created_at,
                spec_retention_cutoff(now, cfg.retention),
            ) ==> final(store).txs@.contains(#[trigger] old(store).txs@[i]),
        forall|i: int|
            0 <= i < final(store).partitions@.len() ==> (old(store).partitions@.contains(
                #[trigger] final(store).partitions@[i],
            ) || final(store).partitions@[i].created_at == now)
                && final(store).partitions@[i].range_end >= spec_retention_cutoff(
                now,
                cfg.retention,
            ),
        forall|i: int|
            0 <= i < old(store).partitions@.len() && old(store).partitions@[i].range_end
                >= spec_retention_cutoff(now, cfg.retention) ==> final(store).partitions@.contains(
                #[trigger] old(store).partitions@[i],
            ),
        forall|t: u64|
            now <= t && t as int <= now as int + cfg.lookahead_windows as int
                * cfg.window_len as int ==> final(store).spec_covers(t),
{
    let cutoff = if now >= cfg.retention {
        now - cfg.retention
    } else {
        0
    };
    let ghost ps0 = store.partitions@;
    let ghost keep_row = |t: Transaction| !spec_expired_covers(ps0, t.created_at, cutoff);
    let ghost keep_part = |p: Partition| p.range_end >= cutoff;

    let mut rows: Vec<Transaction> = Vec::new();
    let mut i: usize = 0;
    while i < store.txs.len()
        invariant
            i <= store.txs@.len(),
            *store == *old(store),
            ps0 == store.partitions@,
            rows@ == spec_rows_kept(store.txs@.take(i as int), keep_row),
        decreases store.txs@.len() - i,
    {
        proof {
            assert(store.txs@.take(i + 1).drop_last() =~= store.txs@.take(i as int));
            assert(store.txs@.take(i + 1).last() == store.txs@[i as int]);
        }
        if !expired_covers(&store.partitions, store.txs[i].created_at, cutoff) {
            rows.push(store.txs[i].duplicate());
        }
        i += 1;
    }
    let mut parts: Vec<Partition> = Vec::new();
    let mut j: usize = 0;
    while j < store.partitions.len()
        invariant
            j <= store.partitions@.len(),
            *store == *old(store),
            parts@ == spec_parts_kept(store.partitions@.take(j as int), keep_part),
        decreases store.partitions@.len() - j,
    {
        proof {
            assert(store.partitions@.take(j + 1).drop_last() =~= store.partitions@.take(j as int));
            assert(store.partitions@.take(j + 1).last() == store.partitions@[j as int]);
        }
        if store.partitions[j].range_end >= cutoff {
            parts.push(store.partitions[j]);
        }
        j += 1;
    }
    proof {
        assert(store.txs@.take(store.txs@.len() as int) =~= store.txs@);
        assert(store.partitions@.take(store.partitions@.len() as int) =~= store.partitions@);
    }
    store.txs = rows;
    store.partitions = parts;
    proof {
        lemma_rows_kept_props(old(store).txs@, keep_row);
        lemma_parts_kept_props(old(store).partitions@, keep_part);
        lemma_subset_store_wf(*old(store), *store);
    }
    let ghost mid = *store;

    let wl = cfg.window_len;
    let base = now / wl;
    let mut w: u64 = 0;
    while w <= cfg.lookahead_windows
        invariant
            w <= cfg.lookahead_windows + 1,
            store.wf(),
            base == now as int / wl as int,
            store.txs@ == mid.txs@,
            store.batches@ == mid.batches@,
            store.next_tx_id == mid.next_tx_id,
            store.next_batch_id == mid.next_batch_id,
            store.max_attempts == mid.max_attempts,
            forall|i: int|
                0 <= i < store.partitions@.len() ==> (mid.partitions@.contains(
                    #[trigger] store.partitions@[i],
                ) || (store.partitions@[i].created_at == now && store.partitions@[i].range_end
                    > now)),
            forall|i: int|
                0 <= i < mid.partitions@.len() ==> store.partitions@.contains(
                    #[trigger] mid.partitions@[i],
                ),
            forall|w2: u64|
                w2 < w ==> store.spec_has_partition(
                    spec_window_bound(base, w2, wl) as u64,
                    (spec_window_bound(base, w2, wl) + wl as int) as u64,
                ),
        decreases cfg.lookahead_windows + 1 - w,
    {
        proof {
            lemma_fundamental_div_mod(now as int, wl as int);
            assert(base as int + w as int + 1 <= u64::MAX as int && (base as int + w as int)
                * wl as int + wl as int <= u64::MAX as int && (base as int + w as int)
                * wl as int + wl as int > now as int) by (nonlinear_arith)
                requires
                    w as int <= cfg.lookahead_windows as int,
                    (base as int + cfg.lookahead_windows as int + 2) * wl as int
                        <= u64::MAX as int,
                    wl as int >= 1,
                    now as int == wl as int * (now as int / wl as int) + now as int % wl as int,
                    base as int == now as int / wl as int,
                    0 <= now as int % wl as int,
                    (now as int % wl as int) < wl as int;
        }
        let start = (base + w) * wl;
        let end = start + wl;
        proof {
            assert(start as int == spec_window_bound(base, w, wl));
            assert(end as int == spec_window_bound(base, w, wl) + wl as int);
            assert(end > now);
        }
        let ghost before = *store;
        store.ensure_partition(start, end, now);
        proof {
            assert forall|i: int| 0 <= i < mid.partitions@.len() implies store.partitions@.contains(
                #[trigger] mid.partitions@[i],
            ) by {
                let m = choose|m: int|
                    0 <= m < before.partitions@.len() && before.partitions@[m]
                        == mid.partitions@[i];
                assert(store.partitions@[m] == mid.partitions@[i]);
            }
            assert forall|w2: u64| w2 < w + 1 implies store.spec_has_partition(
                spec_window_bound(base, w2, wl) as u64,
                (spec_window_bound(base, w2, wl) + wl as int) as u64,
            ) by {
                if w2 < w {
                    let p = choose|p: int|
                        0 <= p < before.partitions@.len()
                            && #[trigger] before.partitions@[p].range_start == spec_window_bound(
                            base,
                            w2,
                            wl,
                        ) as u64 && before.partitions@[p].range_end == (spec_window_bound(
                            base,
                            w2,
                            wl,
                        ) + wl as int) as u64;
                    assert(store.partitions@[p] == before.partitions@[p]);
                }
            }
        }
        w += 1;
    }

    proof {
        let cut = spec_retention_cutoff(now, cfg.retention);
        assert forall|i: int| 0 <= i < store.partitions@.len() implies (old(store)
            .partitions@.contains(#[trigger] store.partitions@[i]) || store.partitions@[i].created_at
            == now) && store.partitions@[i].range_end >= cut by {
            if mid.partitions@.contains(store.partitions@[i]) {
                let m = choose|m: int|
                    0 <= m < mid.partitions@.len() && mid.partitions@[m] == store.partitions@[i];
                assert(old(store).partitions@.contains(mid.partitions@[m]));
                assert(keep_part(mid.partitions@[m]));
            }
        }
        assert forall|i: int|
            0 <= i < old(store).partitions@.len() && old(store).partitions@[i].range_end
                >= cut implies store.partitions@.contains(#[trigger] old(store).partitions@[i]) by {
            assert(keep_part(old(store).partitions@[i]));
            assert(mid.partitions@.contains(old(store).partitions@[i]));
            let m = choose|m: int|
                0 <= m < mid.partitions@.len() && mid.partitions@[m] == old(store).partitions@[i];
        }
        let wli = wl as int;
        let ni = now as int;
        let li = cfg.lookahead_windows as int;
        assert forall|t: u64| now <= t && t as int <= ni + li * wli implies store.spec_covers(
            t,
        ) by {
            let ti = t as int;
            lemma_fundamental_div_mod(ti, wli);
            lemma_fundamental_div_mod(ni, wli);
            lemma_div_is_ordered(ni, ti, wli);
            let q: int = ti / wli;
            assert(0 <= ti % wli && ti % wli < wli) by (nonlinear_arith)
                requires
                    wli >= 1;
            assert(0 <= ni % wli && ni % wli < wli) by (nonlinear_arith)
                requires
                    wli >= 1;
            assert(ti < wli * (base as int + li + 1)) by (nonlinear_arith)
                requires
                    ti <= ni + li * wli,
                    ni == wli * (ni / wli) + ni % wli,
                    base as int == ni / wli,
                    0 <= ni % wli,
                    ni % wli < wli,
                    wli >= 1;
            lemma_multiply_divide_lt(ti, wli, base as int + li + 1);
            assert(base as int <= q < base as int + li + 1);
            let w2 = (q - base as int) as u64;
            assert(w2 as int == q - base as int);
            assert(w2 < cfg.lookahead_windows + 1);
            assert(store.spec_has_partition(
                spec_window_bound(base, w2, wl) as u64,
                (spec_window_bound(base, w2, wl) + wl as int) as u64,
            ));
            assert(spec_window_bound(base, w2, wl) == q * wli);
            assert(q * wli <= ti && ti < q * wli + wli) by (nonlinear_arith)
                requires
                    ti == wli * q + ti % wli,
                    0 <= ti % wli,
                    ti % wli < wli;
            assert(q * wli >= 0);
            assert(q * wli + wli <= u64::MAX as int) by (nonlinear_arith)
                requires
                    q < base as int + li + 1,
                    q >= 0,
                    (base as int + li + 2) * wli <= u64::MAX as int,
                    wli >= 1;
            let p = choose|p: int|
                0 <= p < store.partitions@.len() && #[trigger] store.partitions@[p].range_start
                    == spec_window_bound(base, w2, wl) as u64 && store.partitions@[p].range_end == (
                spec_window_bound(base, w2, wl) + wl as int) as u64;
            assert(store.partitions@[p].range_start <= t && t < store.partitions@[p].range_end);
        }
    }
}

} // verus!

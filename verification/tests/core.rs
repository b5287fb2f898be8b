use anchor_settlement::config::{AllowedIps, ConfigError, LogFormat, parse_allowed_ips, parse_log_format};
use anchor_settlement::ingest::{IngestError, handle_callback};
use anchor_settlement::partition::{PartitionConfig, partition_tick};
use anchor_settlement::payload::{
    AmountClass, CallbackPayload, ValidationError, WebhookPayload, classify_amount, handle_webhook,
    validate_payload,
};
use anchor_settlement::settlement::{
    Decision, LedgerOp, LedgerReply, SettlementConfig, TickGuard, decide, settlement_tick,
    tick_due,
};
use anchor_settlement::store::{StorageError, Store, TxStatus};

fn account() -> String {
    let mut s = String::from("G");
    s.push_str(&"A".repeat(55));
    s
}

fn payload(id: &str, amount: &str) -> CallbackPayload {
    CallbackPayload {
        id: id.to_string(),
        amount_in: amount.to_string(),
        stellar_account: account(),
        asset_code: "USDC".to_string(),
        callback_type: None,
        status: None,
    }
}

fn store_with_partition(max_attempts: u32) -> Store {
    let mut s = Store::new(max_attempts);
    // one wide partition covering the test timestamps
    assert!(s.ensure_partition(0, 1_000_000, 0));
    s
}

fn settle_cfg() -> SettlementConfig {
    SettlementConfig { safety_lag: 10, batch_limit: 100, match_tolerance: 1000 }
}

#[test]
fn ingest_creates_pending_row() {
    let mut s = store_with_partition(3);
    let r = handle_callback(&mut s, payload("cb-1", "10.50"), 100).unwrap();
    assert_eq!(r.status, TxStatus::Pending);
    assert_eq!(s.txs.len(), 1);
    assert_eq!(s.txs[0].anchor_transaction_id, "cb-1");
    assert_eq!(s.txs[0].amount, "10.50");
    assert_eq!(s.txs[0].settlement_attempts, 0);
}

#[test]
fn ingest_twice_same_id_is_idempotent() {
    let mut s = store_with_partition(3);
    let r1 = handle_callback(&mut s, payload("cb-1", "10.50"), 100).unwrap();
    let r2 = handle_callback(&mut s, payload("cb-1", "10.50"), 200).unwrap();
    assert_eq!(r1.transaction_id, r2.transaction_id);
    assert_eq!(r2.status, TxStatus::Pending);
    assert_eq!(s.txs.len(), 1, "replay must not store a second row");
}

#[test]
fn ingest_distinct_ids_get_distinct_rows() {
    let mut s = store_with_partition(3);
    let r1 = handle_callback(&mut s, payload("cb-1", "1"), 100).unwrap();
    let r2 = handle_callback(&mut s, payload("cb-2", "2"), 101).unwrap();
    assert_ne!(r1.transaction_id, r2.transaction_id);
    assert_eq!(s.txs.len(), 2);
}

#[test]
fn ingest_rejects_zero_amount() {
    let mut s = store_with_partition(3);
    let r = handle_callback(&mut s, payload("cb-1", "0"), 100);
    assert_eq!(r, Err(IngestError::Validation(ValidationError::AmountNotPositive)));
    assert_eq!(s.txs.len(), 0, "a rejected payload must not store a row");
}

#[test]
fn ingest_rejects_negative_amount() {
    let mut s = store_with_partition(3);
    let r = handle_callback(&mut s, payload("cb-1", "-5.00"), 100);
    assert_eq!(r, Err(IngestError::Validation(ValidationError::AmountNotPositive)));
    assert_eq!(s.txs.len(), 0);
}

#[test]
fn ingest_rejects_malformed_amount() {
    let mut s = store_with_partition(3);
    let r = handle_callback(&mut s, payload("cb-1", "ten"), 100);
    assert_eq!(r, Err(IngestError::Validation(ValidationError::AmountFormat)));
    assert_eq!(s.txs.len(), 0);
}

#[test]
fn ingest_rejects_short_account() {
    let mut s = store_with_partition(3);
    let mut p = payload("cb-1", "1.5");
    p.stellar_account = "GSHORT".to_string();
    let r = handle_callback(&mut s, p, 100);
    assert_eq!(r, Err(IngestError::Validation(ValidationError::AccountLength)));
}

#[test]
fn ingest_rejects_account_without_g_prefix() {
    let mut s = store_with_partition(3);
    let mut p = payload("cb-1", "1.5");
    p.stellar_account = "X".repeat(56);
    let r = handle_callback(&mut s, p, 100);
    assert_eq!(r, Err(IngestError::Validation(ValidationError::AccountPrefix)));
}

#[test]
fn ingest_rejects_bad_asset_code() {
    let mut s = store_with_partition(3);
    let mut p = payload("cb-1", "1.5");
    p.asset_code = String::new();
    assert_eq!(
        handle_callback(&mut s, p, 100),
        Err(IngestError::Validation(ValidationError::AssetCodeLength))
    );
    let mut p2 = payload("cb-2", "1.5");
    p2.asset_code = "A".repeat(13);
    assert_eq!(
        handle_callback(&mut s, p2, 100),
        Err(IngestError::Validation(ValidationError::AssetCodeLength))
    );
}

#[test]
fn ingest_without_covering_partition_is_storage_error() {
    let mut s = Store::new(3);
    let r = handle_callback(&mut s, payload("cb-1", "1"), 100);
    assert_eq!(r, Err(IngestError::Storage(StorageError::PartitionMissing)));
    assert_eq!(s.txs.len(), 0);
}

#[test]
fn classify_amount_exact_values() {
    assert_eq!(classify_amount("10.50"), AmountClass::Positive);
    assert_eq!(classify_amount("+0.001"), AmountClass::Positive);
    assert_eq!(classify_amount(".5"), AmountClass::Positive);
    assert_eq!(classify_amount("0.00"), AmountClass::NonPositive);
    assert_eq!(classify_amount("-3"), AmountClass::NonPositive);
    assert_eq!(classify_amount(""), AmountClass::Malformed);
    assert_eq!(classify_amount("."), AmountClass::Malformed);
    assert_eq!(classify_amount("1.2.3"), AmountClass::Malformed);
    assert_eq!(classify_amount("1e5"), AmountClass::Malformed);
}

#[test]
fn validate_payload_accepts_good_payload() {
    assert!(validate_payload(&payload("cb-1", "10.50")).is_ok());
}

#[test]
fn ensure_partition_is_idempotent() {
    let mut s = Store::new(3);
    assert!(s.ensure_partition(0, 100, 5));
    assert!(!s.ensure_partition(0, 100, 6), "second call must not create");
    assert_eq!(s.list_partitions().len(), 1);
}

#[test]
fn partition_tick_covers_now_and_lookahead() {
    let mut s = Store::new(3);
    let cfg = PartitionConfig { window_len: 100, lookahead_windows: 1, retention: 500 };
    partition_tick(&mut s, 250, &cfg);
    // current window [200,300) and the next [300,400)
    assert!(s.covers(250));
    assert!(s.covers(399));
    assert_eq!(s.list_partitions().len(), 2);
    // a second tick changes nothing
    partition_tick(&mut s, 250, &cfg);
    assert_eq!(s.list_partitions().len(), 2);
}

#[test]
fn partition_tick_prunes_expired_partitions_and_rows() {
    let mut s = Store::new(3);
    let cfg = PartitionConfig { window_len: 100, lookahead_windows: 1, retention: 300 };
    partition_tick(&mut s, 50, &cfg);
    handle_callback(&mut s, payload("cb-old", "1"), 60).unwrap();
    assert_eq!(s.txs.len(), 1);
    // much later, the window [0,100) ends before now - retention and goes
    partition_tick(&mut s, 900, &cfg);
    assert_eq!(s.txs.len(), 0, "rows of a retired partition go with it");
    assert!(s.covers(900));
    for p in s.list_partitions() {
        assert!(p.range_end >= 600);
    }
}

#[test]
fn settlement_tick_disabled_changes_nothing() {
    let mut s = store_with_partition(3);
    handle_callback(&mut s, payload("cb-1", "1"), 100).unwrap();
    let r = settlement_tick(&mut s, false, &vec![], 5000, &settle_cfg());
    assert!(r.is_none());
    assert_eq!(s.txs[0].status, TxStatus::Pending);
    assert_eq!(s.txs[0].settlement_attempts, 0);
}

#[test]
fn settlement_no_match_increments_then_fails() {
    let mut s = store_with_partition(2);
    handle_callback(&mut s, payload("cb-1", "10.50"), 100).unwrap();
    // first pass: no match, one attempt left afterwards
    let r1 = settlement_tick(&mut s, true, &vec![LedgerReply::Ops(vec![])], 5000, &settle_cfg());
    assert!(r1.is_none(), "no batch when nothing settled");
    assert_eq!(s.txs[0].status, TxStatus::Pending);
    assert_eq!(s.txs[0].settlement_attempts, 1);
    // second pass: still no match, budget exhausted
    let r2 = settlement_tick(&mut s, true, &vec![LedgerReply::Ops(vec![])], 6000, &settle_cfg());
    assert!(r2.is_none());
    assert_eq!(s.txs[0].status, TxStatus::Failed);
    assert_eq!(s.txs[0].settlement_attempts, 2);
    assert_eq!(s.batches.len(), 0);
}

#[test]
fn settlement_match_settles_into_exactly_one_batch() {
    let mut s = store_with_partition(3);
    let r = handle_callback(&mut s, payload("cb-1", "10.50"), 100).unwrap();
    let op = LedgerOp {
        account: account(),
        asset_code: "USDC".to_string(),
        amount: "10.50".to_string(),
        ledger_at: 150,
    };
    let batch = settlement_tick(&mut s, true, &vec![LedgerReply::Ops(vec![op])], 5000, &settle_cfg());
    let batch_id = batch.expect("a settled row needs its batch");
    assert_eq!(s.txs[0].status, TxStatus::Settled);
    assert_eq!(s.txs[0].batch_id, Some(batch_id));
    assert_eq!(s.batches.len(), 1);
    assert_eq!(s.batches[0].id, batch_id);
    let listed: Vec<&u64> = s.batches[0]
        .transaction_ids
        .iter()
        .filter(|id| **id == r.transaction_id)
        .collect();
    assert_eq!(listed.len(), 1, "exactly one batch entry for the transaction");
}

#[test]
fn settlement_transient_error_does_not_count_an_attempt() {
    let mut s = store_with_partition(2);
    handle_callback(&mut s, payload("cb-1", "1"), 100).unwrap();
    settlement_tick(&mut s, true, &vec![LedgerReply::NetworkError], 5000, &settle_cfg());
    assert_eq!(s.txs[0].status, TxStatus::Pending);
    assert_eq!(s.txs[0].settlement_attempts, 0, "a ledger failure is not a poll attempt");
    settlement_tick(&mut s, true, &vec![LedgerReply::RateLimited(30)], 6000, &settle_cfg());
    assert_eq!(s.txs[0].settlement_attempts, 0);
}

#[test]
fn settlement_respects_safety_lag() {
    let mut s = store_with_partition(3);
    handle_callback(&mut s, payload("cb-1", "1"), 100).unwrap();
    // now - lag <= created_at: the row is too young to scan
    let cfg = SettlementConfig { safety_lag: 50, batch_limit: 100, match_tolerance: 1000 };
    assert_eq!(s.list_pending(100, 100).len(), 0);
    let r = settlement_tick(&mut s, true, &vec![], 150, &cfg);
    assert!(r.is_none());
    assert_eq!(s.txs[0].settlement_attempts, 0);
}

#[test]
fn decide_matches_policy() {
    let mut s = store_with_partition(5);
    handle_callback(&mut s, payload("cb-1", "2.00"), 100).unwrap();
    let tx = s.get(0).unwrap();
    assert_eq!(decide(tx, &LedgerReply::NetworkError, 1000, 5), Decision::Defer);
    assert_eq!(decide(tx, &LedgerReply::Ops(vec![]), 1000, 5), Decision::Retry);
    assert_eq!(decide(tx, &LedgerReply::Ops(vec![]), 1000, 1), Decision::Fail);
    let op = LedgerOp {
        account: account(),
        asset_code: "USDC".to_string(),
        amount: "2.00".to_string(),
        ledger_at: 150,
    };
    assert_eq!(decide(tx, &LedgerReply::Ops(vec![op]), 1000, 5), Decision::Settle);
    // outside the tolerance window: no match
    let late = LedgerOp {
        account: account(),
        asset_code: "USDC".to_string(),
        amount: "2.00".to_string(),
        ledger_at: 5000,
    };
    assert_eq!(decide(tx, &LedgerReply::Ops(vec![late]), 1000, 5), Decision::Retry);
}

#[test]
fn update_status_fails_only_pending_rows() {
    let mut s = store_with_partition(3);
    handle_callback(&mut s, payload("cb-1", "1"), 100).unwrap();
    assert!(s.update_status(0, TxStatus::Failed, None, 200));
    assert_eq!(s.txs[0].status, TxStatus::Failed);
    assert!(!s.update_status(0, TxStatus::Failed, None, 300), "already terminal");
    assert!(!s.update_status(99, TxStatus::Failed, None, 300), "unknown id");
}

#[test]
fn drop_partition_removes_its_rows() {
    let mut s = Store::new(3);
    s.ensure_partition(0, 100, 0);
    s.ensure_partition(100, 200, 0);
    handle_callback(&mut s, payload("cb-a", "1"), 50).unwrap();
    handle_callback(&mut s, payload("cb-b", "1"), 150).unwrap();
    s.drop_partition(0, 100);
    assert_eq!(s.txs.len(), 1, "rows in the dropped range go with it");
    assert_eq!(s.txs[0].anchor_transaction_id, "cb-b");
    assert_eq!(s.list_partitions().len(), 1);
    assert!(!s.covers(50));
}

#[test]
fn get_finds_rows_by_id() {
    let mut s = store_with_partition(3);
    let r = handle_callback(&mut s, payload("cb-1", "1"), 100).unwrap();
    assert_eq!(s.get(r.transaction_id).unwrap().anchor_transaction_id, "cb-1");
    assert!(s.get(77).is_none());
}

#[test]
fn list_pending_honors_limit_and_age() {
    let mut s = store_with_partition(3);
    for k in 0..5u32 {
        handle_callback(&mut s, payload(&format!("cb-{k}"), "1"), 100 + k as u64).unwrap();
    }
    assert_eq!(s.list_pending(1000, 3).len(), 3);
    assert_eq!(s.list_pending(102, 10).len(), 2);
    assert_eq!(s.list_pending(1000, 10).len(), 5);
}

#[test]
fn tick_guard_skips_overlapping_runs() {
    let mut g = TickGuard::new();
    assert!(g.try_begin());
    assert!(!g.try_begin(), "a running tick is never overlapped");
    g.end_tick();
    assert!(g.try_begin());
    g.end_tick();
    g.request_shutdown();
    assert!(!g.try_begin(), "no tick after shutdown");
}

#[test]
fn tick_due_compares_elapsed_time() {
    assert!(tick_due(100, 50, 150));
    assert!(!tick_due(100, 50, 149));
    assert!(!tick_due(200, 50, 100));
}

#[test]
fn webhook_reply_names_the_delivery() {
    let r = handle_webhook(&WebhookPayload {
        id: "evt-9".to_string(),
        anchor_transaction_id: "cb-9".to_string(),
    });
    assert!(r.success);
    assert_eq!(r.message, "Webhook evt-9 processed successfully");
}

#[test]
fn parse_log_format_accepts_both_forms() {
    assert_eq!(parse_log_format("text"), Ok(LogFormat::Text));
    assert_eq!(parse_log_format("  JSON\n"), Ok(LogFormat::Json));
    assert_eq!(parse_log_format("Text"), Ok(LogFormat::Text));
    assert_eq!(parse_log_format("xml"), Err(ConfigError::InvalidLogFormat));
    assert_eq!(parse_log_format(""), Err(ConfigError::InvalidLogFormat));
}

#[test]
fn parse_allowed_ips_star_means_any() {
    match parse_allowed_ips(" * ") {
        Ok(AllowedIps::Any) => {},
        other => panic!("expected Any, got {other:?}"),
    }
}

#[test]
fn parse_allowed_ips_reads_cidr_list() {
    match parse_allowed_ips("10.0.0.0/8, 192.168.0.0/16") {
        Ok(AllowedIps::Cidrs(v)) => assert_eq!(v.len(), 2),
        other => panic!("expected two networks, got {other:?}"),
    }
    match parse_allowed_ips(" 10.0.0.0/8 ,, ") {
        Ok(AllowedIps::Cidrs(v)) => assert_eq!(v.len(), 1),
        other => panic!("expected one network, got {other:?}"),
    }
}

#[test]
fn parse_allowed_ips_rejects_bad_input() {
    assert!(matches!(parse_allowed_ips("not-a-cidr"), Err(ConfigError::InvalidAllowedIps)));
    assert!(matches!(parse_allowed_ips(""), Err(ConfigError::InvalidAllowedIps)));
    assert!(matches!(parse_allowed_ips(" , "), Err(ConfigError::InvalidAllowedIps)));
    assert!(matches!(
        parse_allowed_ips("10.0.0.0/8, nope"),
        Err(ConfigError::InvalidAllowedIps)
    ));
}

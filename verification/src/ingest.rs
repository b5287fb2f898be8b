//! Ingestion gateway: validates inbound callbacks and persists them
//! idempotently, keyed by the anchor's transaction identifier.

use vstd::prelude::*;

use crate::payload::{
    CallbackPayload, CallbackResponse, ValidationError, spec_valid_payload, spec_validation_error,
    validate_payload,
};
use crate::store::{
    NewTransaction, StorageError, Store, TxStatus, insert_created, insert_replay_result,
};

verus! {

/// Failure of the ingestion gateway.
#[derive(Clone, Copy, PartialEq, Eq, Structural, Debug)]
pub enum IngestError {
    /// Malformed payload; user-visible, never retried.
    Validation(ValidationError),
    /// The store could not persist the row; retried by the caller out of
    /// band.
    Storage(StorageError),
}

/// The row fields the gateway persists for payload `p`.
pub open spec fn spec_new_transaction(p: CallbackPayload) -> NewTransaction {
    NewTransaction {
        anchor_transaction_id: p.id,
        stellar_account: p.stellar_account,
        amount: p.amount_in,
        asset_code: p.asset_code,
        callback_type: p.callback_type,
        callback_status: p.status,
    }
}

/// Accept one deposit callback: reject an invalid payload with the first
/// failing rule, hand a known anchor key back untouched as a success, and
/// otherwise persist one new `Pending` row.  Exactly one row ever exists
/// per anchor key.
pub fn handle_callback(store: &mut Store, payload: CallbackPayload, now: u64) -> (r: Result<
    CallbackResponse,
    IngestError,
>)
    requires
        old(store).wf(),
        old(store).next_tx_id < u64::MAX,
    ensures
        final(store).wf(),
        !spec_valid_payload(payload) ==> *final(store) == *old(store) && r == Err::<
            CallbackResponse,
            IngestError,
        >(IngestError::Validation(spec_validation_error(payload))),
        spec_valid_payload(payload) && old(store).spec_has_anchor(payload.id@) ==> *final(store)
            == *old(store) && r == Ok::<CallbackResponse, IngestError>(
            (CallbackResponse {
                transaction_id: insert_replay_result(*old(store), payload.id@).0,
                status: insert_replay_result(*old(store), payload.id@).1,
            }),
        ),
        spec_valid_payload(payload) && !old(store).spec_has_anchor(payload.id@) && old(
            store,
        ).spec_covers(now) ==> insert_created(
            *old(store),
            *final(store),
            spec_new_transaction(payload),
            now,
        ) && r == Ok::<CallbackResponse, IngestError>(
            (CallbackResponse { transaction_id: old(store).next_tx_id, status: TxStatus::Pending }),
        ),
        spec_valid_payload(payload) && !old(store).spec_has_anchor(payload.id@) && !old(
            store,
        ).spec_covers(now) ==> *final(store) == *old(store) && r == Err::<
            CallbackResponse,
            IngestError,
        >(IngestError::Storage(StorageError::PartitionMissing)),
{
    if let Err(e) = validate_payload(&payload) {
        return Err(IngestError::Validation(e));
    }
    let row = NewTransaction {
        anchor_transaction_id: payload.id,
        stellar_account: payload.stellar_account,
        amount: payload.amount_in,
        asset_code: payload.asset_code,
        callback_type: payload.callback_type,
        callback_status: payload.status,
    };
    match store.insert_if_absent(row, now) {
        Ok((transaction_id, status)) => Ok(CallbackResponse { transaction_id, status }),
        Err(e) => Err(IngestError::Storage(e)),
    }
}

} // verus!

//! Ingestion, partitioned storage, and settlement reconciliation for
//! deposit callbacks from a Stellar anchor platform.
//!
//! Inbound callbacks are validated and recorded idempotently, keyed by the
//! anchor's transaction identifier.  Stored transactions live in rolling
//! time partitions that a periodic manager creates ahead of need and prunes
//! on a retention horizon.  A settlement engine periodically reconciles
//! pending transactions against ledger state and commits each outcome
//! together with its settlement batch as one atomic unit.

pub mod config;
pub mod ingest;
pub mod laws;
pub mod partition;
pub mod payload;
pub mod settlement;
pub mod store;
pub mod text;

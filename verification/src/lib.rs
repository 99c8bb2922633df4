//! An event-sourced credit ledger: a per-account balance with two-phase
//! spending (reserve, then allocate/spend or cancel). The authoritative state
//! of an account is derived by replaying an append-only event log, accelerated
//! by snapshots and protected against concurrent writers by an optimistic
//! version check.

pub mod contract;
pub mod eventstore;
pub mod laws;
pub mod service;

pub use contract::{Contract, CreditCommand, CreditError, CreditEvent, CreditReservation};
pub use eventstore::{
    get_events, init, load, load_into, load_snapshot, run_and_store, run_and_store_batch, run_cmd,
    save_events, EventStore,
};
pub use service::{
    create_credits, AccountStatus, AccountStatusRequest, AddCreditsCommand, AddCreditsResponse,
    Credits, CreditsClient,
};

//! Replays an ordered stream of ledger events (deposits, withdrawals,
//! disputes, resolves, chargebacks) against per-client accounts and
//! reports the final balances.

pub mod account;
pub mod accounts;
pub mod engine;
pub mod libs;
pub mod transaction;
pub mod transaction_logs;

pub use libs::Amount;

//! Checkpointed balance and total-supply tracker.
//!
//! A host ledger calls into this crate on every movement of a designated
//! token. The crate keeps, per account and for the total supply, a
//! time-indexed history of values ("checkpoints") and answers queries at
//! arbitrary past timestamps. The update engine classifies each movement as
//! a mint, a burn or an ordinary transfer relative to a configured sink
//! address, and applies checked debits and credits so that at every
//! timestamp the sum of all account balances equals the total supply.

pub mod history;
pub mod probe;
pub mod store;
pub mod tracker;

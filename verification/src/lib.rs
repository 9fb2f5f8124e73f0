//! A personal double-entry ledger: the journal codec, the balancing engine,
//! the account existence gate and the reconciliation of account totals.

pub mod account;
pub mod args;
pub mod balance;
pub mod date;
pub mod decimal;
pub mod entry;
pub mod error;
pub mod id;
pub mod journal;
pub mod ledger;
pub mod opts;
pub mod store;
pub mod text;
pub mod transaction;
pub mod validate;

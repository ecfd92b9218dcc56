//! Index-based pro-rata reward accrual with an admin-gated proxy.
//!
//! The library keeps the accounting core free of chain I/O: callers hand it
//! the balances, shares and stored index values they observed, and it returns
//! the new state together with the transfers to make.

pub mod admin;
pub mod asset;
pub mod decimal;
pub mod error;
pub mod info;
pub mod ledger;
pub mod rewards;
pub mod laws;

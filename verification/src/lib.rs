//! A verified transaction ledger: per-client accounts that apply deposits,
//! withdrawals and the dispute lifecycle (dispute, resolve, chargeback) under
//! strict validation rules, and a processor that routes a stream of events to
//! the right account and answers snapshot queries.

pub mod account;
pub mod amount;
pub mod processor;

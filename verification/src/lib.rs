//! A verified ledger that converts native-currency payments into per-identifier
//! "credited request" counts at an owner-configurable exchange rate.
//!
//! `bignum` provides the arbitrary-precision unsigned arithmetic the accounting
//! needs; `ledger` holds the contract state machine itself, and `laws` states
//! the cross-call guarantees as proved lemmas.

pub mod bignum;
pub mod laws;
pub mod ledger;

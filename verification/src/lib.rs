//! A single-pass ledger simulator: an ordered stream of transaction records
//! (deposit, withdrawal, dispute, resolve, chargeback) is replayed into a set
//! of per-client accounts, and the final balances are rendered for output.
//!
//! Monetary amounts are fixed-point decimals with four fractional digits,
//! stored as a signed 64-bit count of ten-thousandths.

pub mod amount;
pub mod laws;
pub mod ledger;
pub mod replay;

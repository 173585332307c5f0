//! A tax-lot ledger for fungible holdings on a blockchain network.
//!
//! Accounts own ordered sets of dated, priced tax lots.  Value moves between
//! accounts through a transfer lifecycle (record, then confirm or cancel)
//! that keeps the lot ledger consistent with what actually lands on-chain,
//! and a gain aggregator classifies realised gains by holding period.

pub mod date;
pub mod lot;
pub mod select;
pub mod ledger;
pub mod gains;
pub mod view;
pub mod engine;

use vstd::prelude::*;

verus! {

/// Capital-gain tax rates in basis points, one per holding-period class.
#[derive(Clone, Copy, PartialEq, Eq, Structural, Debug)]
pub struct TaxRates {
    pub short_term_bp: u32,
    pub long_term_bp: u32,
}

/// The error kinds surfaced by ledger and engine operations.
#[derive(Clone, Copy, PartialEq, Eq, Structural, Debug)]
pub enum LedgerError {
    /// The dry run of a transaction reported an execution error.
    SimulationRejected,
    /// Lot selection cannot satisfy the requested amount.
    InsufficientLots,
    /// No transfer is recorded under the given signature.
    UnknownSignature,
    /// The transfer under the given signature is already confirmed or cancelled.
    AlreadyFinalized,
    /// The submission window closed without a confirmation.
    BlockhashExpired,
    /// The network could not be reached.
    NetworkUnavailable,
    /// The ledger contradicts what an operation is entitled to assume; fatal.
    LedgerInvariantViolation,
    /// No account is tracked under the given address and token.
    UnknownAccount,
    /// A transfer is already recorded under the given signature.
    DuplicateSignature,
    /// The account still holds live lots and cannot be removed.
    AccountNotEmpty,
    /// A replacement account state is malformed (unsorted or non-positive lots).
    InvalidAccount,
}

impl LedgerError {
    /// A short human-readable description of the error.
    pub fn describe(&self) -> &'static str {
        match self {
            LedgerError::SimulationRejected => "transaction simulation reported an error",
            LedgerError::InsufficientLots => "live lots do not cover the requested amount",
            LedgerError::UnknownSignature => "no transfer recorded under this signature",
            LedgerError::AlreadyFinalized => "transfer already confirmed or cancelled",
            LedgerError::BlockhashExpired => "submission window expired without confirmation",
            LedgerError::NetworkUnavailable => "network unavailable",
            LedgerError::LedgerInvariantViolation => "ledger invariant violation",
            LedgerError::UnknownAccount => "no account tracked under this address and token",
            LedgerError::DuplicateSignature => "a transfer with this signature already exists",
            LedgerError::AccountNotEmpty => "account still holds live lots",
            LedgerError::InvalidAccount => "malformed account state",
        }
    }
}

} // verus!

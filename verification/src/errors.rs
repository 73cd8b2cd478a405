//! Error taxonomy of the batch engine.

use vstd::prelude::*;

verus! {

/// Everything that can abort a batch run.
///
/// Accounting and structural failures (`InsufficientFunds`,
/// `Deserialization`) are detected locally at the point of contribution and
/// abort the whole batch; a duplicate input is prevented structurally by the
/// dedup guard and never surfaces as an error.  `Signing` and
/// `RejectedByNetwork` are raised by the signer and broadcast collaborators
/// outside this library and are carried here so that callers can tell the
/// failure classes apart.
#[derive(Clone, Copy, Debug, PartialEq, Eq, Structural)]
pub enum BatchError {
    /// A payer-role contribution gathered less value than the fee it owes,
    /// or a uniform-output contribution could not cover the fixed amount.
    InsufficientFunds,
    /// A transiting byte or hex payload does not parse as an accumulator.
    Deserialization,
    /// The signer collaborator could not satisfy an owned input.
    Signing,
    /// The broadcast collaborator's backend refused the final transaction.
    RejectedByNetwork,
}

} // verus!

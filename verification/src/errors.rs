//! Why an escrow operation was refused.
use vstd::prelude::*;

verus! {

/// Every operation either commits whole or fails with one of these and
/// leaves the ledger untouched.
#[derive(Clone, Copy, Debug, PartialEq, Eq, Structural)]
pub enum EscrowError {
    /// The signer does not hold the role the operation demands
    /// (only the recorded maker may cancel).
    AuthorizationError,
    /// The initiator lacks the funds the operation moves
    /// (the maker at `make`, the taker at `take`).
    InsufficientBalanceError,
    /// The operation targets a record address that does not exist:
    /// already settled, already cancelled, or never opened.
    StateNotFoundError,
    /// `make` targets a `(maker, seed)` pair already in use, or one whose
    /// derivation space is exhausted, so that no address can be formed.
    AddressCollisionError,
}

} // verus!

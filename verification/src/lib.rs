//! A two-party conditional asset swap: a maker locks an amount of one asset
//! into a custodial holding account and names the amount of another asset it
//! wants in return; a taker completes the swap by paying the maker, which
//! releases the held asset to the taker; or the maker cancels and reclaims
//! the locked asset. The three operations — `make`, `refund`, `take` — are
//! atomic transitions of a ledger holding balances, holding accounts and
//! escrow records. Record and holding addresses are derived deterministically
//! from the maker's identity and a seed.

pub mod addr;
pub mod errors;
pub mod record;
pub mod ledger;
pub mod laws;

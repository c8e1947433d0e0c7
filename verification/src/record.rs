//! The escrow record: the terms of one swap offer.
use vstd::prelude::*;
use crate::addr::Address;

verus! {

/// The persistent record of one escrow's terms and identity. Immutable once
/// created; destroyed whole by `refund` or `take`.
#[derive(Clone, Copy)]
pub struct EscrowRecord {
    /// The maker's discriminator: together with `maker` it derives this
    /// record's address, so one maker can run several escrows at once.
    pub seed: u64,
    /// Identity of the party that opened the escrow; the only identity
    /// authorized to cancel it.
    pub maker: Address,
    /// The asset type the maker locked.
    pub asset_a: u64,
    /// The asset type the maker wants in return.
    pub asset_b: u64,
    /// How much of `asset_b` the taker must pay to complete the swap.
    pub receive: u64,
    /// The derivation bump recorded at creation, so the record's address
    /// can be re-derived without ambiguity.
    pub bump: u8,
}

/// What an escrow record looks like in specifications.
pub ghost struct RecordView {
    pub seed: u64,
    pub maker: Seq<u8>,
    pub asset_a: u64,
    pub asset_b: u64,
    pub receive: u64,
    pub bump: u8,
}

impl View for EscrowRecord {
    type V = RecordView;

    open spec fn view(&self) -> RecordView {
        RecordView {
            seed: self.seed,
            maker: self.maker@,
            asset_a: self.asset_a,
            asset_b: self.asset_b,
            receive: self.receive,
            bump: self.bump,
        }
    }
}

} // verus!

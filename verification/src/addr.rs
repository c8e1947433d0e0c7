//! Addresses and their deterministic derivation.
//!
//! Party identities, escrow record addresses and holding account addresses
//! all live in one 32-byte address space. The record address is derived from
//! `(maker, seed)`, and the holding account address from the record address,
//! so that any party can recompute and check both without a registry.
use vstd::prelude::*;
use vstd::bytes::lemma_auto_spec_u64_to_from_le_bytes;
use vstd::bytes::spec_u64_from_le_bytes;
use vstd::bytes::spec_u64_to_le_bytes;
use vstd::bytes::u64_to_le_bytes;

verus! {

/// A 32-byte ledger address.
#[derive(Clone, Copy, Debug)]
pub struct Address {
    pub bytes: [u8; 32],
}

impl View for Address {
    type V = Seq<u8>;

    open spec fn view(&self) -> Seq<u8> {
        self.bytes@
    }
}

impl Address {
    /// Wraps 32 raw bytes as an address.
    pub fn new(bytes: [u8; 32]) -> (r: Address)
        ensures
            r@ == bytes@,
    {
        Address { bytes }
    }

    /// Byte-for-byte equality of two addresses.
    pub fn same_as(&self, other: &Address) -> (r: bool)
        ensures
            r == (self@ == other@),
    {
        let mut i: usize = 0;
        while i < 32
            invariant
                i <= 32,
                forall|j: int| 0 <= j < i ==> self@[j] == other@[j],
            decreases 32 - i,
        {
            if self.bytes[i] != other.bytes[i] {
                return false;
            }
            i += 1;
        }
        proof {
            assert(self@ =~= other@);
        }
        true
    }
}

/// What `Pubkey::try_find_program_address` returns for a program id and a
/// seed list: a 32-byte derived address and its bump seed, or `None` when
/// the derivation space is exhausted for these seeds.
pub uninterp spec fn derived_of(program: Seq<u8>, seeds: Seq<Seq<u8>>) -> Option<(Seq<u8>, u8)>;

/// Relies on solana-program's `Pubkey::try_find_program_address`
/// (re-exported by anchor_lang): a deterministic search, over the seed
/// slices and the program id alone, for a 32-byte program-derived address
/// and its bump seed; it returns `None` when no bump yields an address.
#[verifier::external_body]
fn try_derive(program: &Vec<u8>, seeds: &Vec<Vec<u8>>) -> (r: Option<([u8; 32], u8)>)
    requires
        program@.len() == 32,
    ensures
        ({
            let d = derived_of(program@, seeds@.map_values(|s: Vec<u8>| s@));
            match r {
                Some(p) => d == Some((p.0@, p.1)),
                None => d is None,
            }
        }),
{
    let arr: [u8; 32] = program.as_slice().try_into().unwrap();
    let pk = anchor_lang::prelude::Pubkey::new_from_array(arr);
    let refs: Vec<&[u8]> = seeds.iter().map(|s| s.as_slice()).collect();
    match anchor_lang::prelude::Pubkey::try_find_program_address(&refs, &pk) {
        Some((addr, bump)) => Some((addr.to_bytes(), bump)),
        None => None,
    }
}

/// The fixed program id under which this library derives its addresses.
pub open spec fn program_id() -> Seq<u8> {
    Seq::new(32, |i: int| 11u8)
}

fn program_id_bytes() -> (r: Vec<u8>)
    ensures
        r@ == program_id(),
{
    let mut v: Vec<u8> = Vec::new();
    let mut i: usize = 0;
    while i < 32
        invariant
            i <= 32,
            v@.len() == i,
            forall|j: int| 0 <= j < i ==> v@[j] == 11u8,
        decreases 32 - i,
    {
        v.push(11u8);
        i += 1;
    }
    proof {
        assert(v@ =~= program_id());
    }
    v
}

/// The seed tag of escrow record addresses: the bytes of "escrow".
pub open spec fn record_tag() -> Seq<u8> {
    seq![101u8, 115u8, 99u8, 114u8, 111u8, 119u8]
}

fn record_tag_bytes() -> (r: Vec<u8>)
    ensures
        r@ == record_tag(),
{
    let mut v: Vec<u8> = Vec::new();
    v.push(101);
    v.push(115);
    v.push(99);
    v.push(114);
    v.push(111);
    v.push(119);
    proof {
        assert(v@ =~= record_tag());
    }
    v
}

/// The seed tag of holding account addresses: the bytes of "holding".
pub open spec fn holding_tag() -> Seq<u8> {
    seq![104u8, 111u8, 108u8, 100u8, 105u8, 110u8, 103u8]
}

fn holding_tag_bytes() -> (r: Vec<u8>)
    ensures
        r@ == holding_tag(),
{
    let mut v: Vec<u8> = Vec::new();
    v.push(104);
    v.push(111);
    v.push(108);
    v.push(100);
    v.push(105);
    v.push(110);
    v.push(103);
    proof {
        assert(v@ =~= holding_tag());
    }
    v
}

fn address_bytes_vec(a: &Address) -> (r: Vec<u8>)
    ensures
        r@ == a@,
{
    let mut v: Vec<u8> = Vec::new();
    let mut i: usize = 0;
    while i < 32
        invariant
            i <= 32,
            v@.len() == i,
            forall|j: int| 0 <= j < i ==> v@[j] == a@[j],
        decreases 32 - i,
    {
        v.push(a.bytes[i]);
        i += 1;
    }
    proof {
        assert(v@ =~= a@);
    }
    v
}

/// The seed list from which a record address is derived.
pub open spec fn record_seeds(maker: Seq<u8>, seed: u64) -> Seq<Seq<u8>> {
    seq![record_tag(), maker, spec_u64_to_le_bytes(seed)]
}

/// The seed list from which a holding account address is derived.
pub open spec fn holding_seeds(record: Seq<u8>) -> Seq<Seq<u8>> {
    seq![holding_tag(), record]
}

/// The derived record address and bump of a `(maker, seed)` pair.
pub open spec fn record_derivation(maker: Seq<u8>, seed: u64) -> Option<(Seq<u8>, u8)> {
    derived_of(program_id(), record_seeds(maker, seed))
}

/// The derived holding account address of an escrow record address.
pub open spec fn holding_derivation(record: Seq<u8>) -> Option<Seq<u8>> {
    match derived_of(program_id(), holding_seeds(record)) {
        Some(p) => Some(p.0),
        None => None,
    }
}

/// Derives the escrow record address and bump of `(maker, seed)`.
///
/// Deterministic: the result is fixed by `(maker, seed)` alone, as the
/// contract pins it to `record_derivation`. `None` only when the derivation
/// space of this pair is exhausted; the maker then picks a new seed.
pub fn derive_record(maker: &Address, seed: u64) -> (r: Option<(Address, u8)>)
    ensures
        match r {
            Some(p) => record_derivation(maker@, seed) == Some((p.0@, p.1)),
            None => record_derivation(maker@, seed) is None,
        },
{
    let pid = program_id_bytes();
    let mut seeds: Vec<Vec<u8>> = Vec::new();
    seeds.push(record_tag_bytes());
    seeds.push(address_bytes_vec(maker));
    seeds.push(u64_to_le_bytes(seed));
    proof {
        assert(seeds@.map_values(|s: Vec<u8>| s@) =~= record_seeds(maker@, seed));
    }
    match try_derive(&pid, &seeds) {
        Some(p) => Some((Address { bytes: p.0 }, p.1)),
        None => None,
    }
}

/// Derives the address of the holding account owned by the escrow record
/// at `record`. Deterministic in the same way as `derive_record`.
pub fn derive_holding(record: &Address) -> (r: Option<Address>)
    ensures
        match r {
            Some(a) => holding_derivation(record@) == Some(a@),
            None => holding_derivation(record@) is None,
        },
{
    let pid = program_id_bytes();
    let mut seeds: Vec<Vec<u8>> = Vec::new();
    seeds.push(holding_tag_bytes());
    seeds.push(address_bytes_vec(record));
    proof {
        assert(seeds@.map_values(|s: Vec<u8>| s@) =~= holding_seeds(record@));
    }
    match try_derive(&pid, &seeds) {
        Some(p) => Some(Address { bytes: p.0 }),
        None => None,
    }
}

/// Distinct `(maker, seed)` pairs build distinct derivation seed lists:
/// the seed list determines the maker and the seed.
pub proof fn lemma_record_seeds_injective(m1: Seq<u8>, s1: u64, m2: Seq<u8>, s2: u64)
    requires
        record_seeds(m1, s1) == record_seeds(m2, s2),
    ensures
        m1 == m2,
        s1 == s2,
{
    assert(record_seeds(m1, s1)[1] == m1);
    assert(record_seeds(m2, s2)[1] == m2);
    assert(record_seeds(m1, s1)[2] == spec_u64_to_le_bytes(s1));
    assert(record_seeds(m2, s2)[2] == spec_u64_to_le_bytes(s2));
    lemma_auto_spec_u64_to_from_le_bytes();
    assert(s1 == spec_u64_from_le_bytes(spec_u64_to_le_bytes(s1)));
    assert(s2 == spec_u64_from_le_bytes(spec_u64_to_le_bytes(s2)));
}

} // verus!

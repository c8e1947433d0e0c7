//! Laws relating the escrow operations to one another.
use vstd::prelude::*;
use crate::addr::record_derivation;
use crate::ledger::Ledger;
use crate::ledger::make_ok;
use crate::ledger::refund_ok;
use crate::ledger::take_ok;

verus! {

/// Opening an escrow and then completing it settles the swap: the taker
/// pays exactly `receive` of `asset_b` to the maker, the taker gains
/// exactly the `deposit` of `asset_a` that the maker locked, and neither
/// the record nor its holding account exists afterwards. Stated for a
/// taker distinct from the maker and two distinct assets, so that the
/// three balance movements touch three distinct accounts.
pub proof fn lemma_make_then_take(
    l0: Ledger,
    l1: Ledger,
    l2: Ledger,
    maker: Seq<u8>,
    taker: Seq<u8>,
    seed: u64,
    asset_a: u64,
    asset_b: u64,
    deposit: u64,
    receive: u64,
    raddr: Seq<u8>,
)
    requires
        make_ok(l0, l1, maker, seed, asset_a, asset_b, deposit, receive),
        match record_derivation(maker, seed) {
            Some(p) => raddr == p.0,
            None => false,
        },
        take_ok(l1, l2, taker, raddr),
        maker != taker,
        asset_a != asset_b,
    ensures
        l2.balance(taker, asset_b) as int == l0.balance(taker, asset_b) as int - receive,
        l2.balance(maker, asset_b) as int == l0.balance(maker, asset_b) as int + receive,
        l2.balance(taker, asset_a) as int == l0.balance(taker, asset_a) as int + deposit,
        l2.record(raddr) is None,
        l2.holding(raddr) is None,
{
    match (l1.record(raddr), l1.holding(raddr)) {
        (Some(r), Some(h)) => {
            assert(r.maker == maker && r.asset_a == asset_a && r.asset_b == asset_b && r.receive
                == receive);
            assert(h.amount == deposit);
            assert(l1.balance(taker, asset_b) == l0.balance(taker, asset_b));
            assert(l1.balance(maker, asset_b) == l0.balance(maker, asset_b));
            assert(l1.balance(taker, asset_a) == l0.balance(taker, asset_a));
            assert(l2.balance(taker, asset_b) as int == l1.balance(taker, asset_b) as int
                - receive);
            assert(l2.balance(maker, asset_b) as int == l1.balance(maker, asset_b) as int
                + receive);
            assert(l2.balance(taker, asset_a) as int == l1.balance(taker, asset_a) as int
                + deposit);
        },
        _ => {
            assert(false);
        },
    }
}

/// Opening an escrow and then cancelling it makes the maker whole: every
/// balance in the ledger, the maker's `asset_a` included, is exactly what
/// it was before the escrow was opened, and neither the record nor its
/// holding account exists afterwards.
pub proof fn lemma_make_then_refund(
    l0: Ledger,
    l1: Ledger,
    l2: Ledger,
    maker: Seq<u8>,
    seed: u64,
    asset_a: u64,
    asset_b: u64,
    deposit: u64,
    receive: u64,
    raddr: Seq<u8>,
)
    requires
        l0.wf(),
        make_ok(l0, l1, maker, seed, asset_a, asset_b, deposit, receive),
        match record_derivation(maker, seed) {
            Some(p) => raddr == p.0,
            None => false,
        },
        refund_ok(l1, l2, maker, raddr),
    ensures
        forall|o: Seq<u8>, a: u64| #[trigger] l2.balance(o, a) == l0.balance(o, a),
        forall|k: Seq<u8>| #[trigger] l2.record(k) == l0.record(k),
        forall|k: Seq<u8>| #[trigger] l2.holding(k) == l0.holding(k),
        l2.record(raddr) is None,
        l2.holding(raddr) is None,
{
    match (l1.record(raddr), l1.holding(raddr)) {
        (Some(r), Some(h)) => {
            assert(r.maker == maker && r.asset_a == asset_a);
            assert(h.amount == deposit);
            assert(l0.balance(maker, asset_a) >= deposit);
            assert(l0.record(raddr) is None);
            assert(l0.holding(raddr) is None);
            assert forall|o: Seq<u8>, a: u64| #[trigger] l2.balance(o, a) == l0.balance(
                o,
                a,
            ) by {
                assert(l1.balance(o, a) == (if o == maker && a == asset_a {
                    (l0.balance(o, a) - deposit) as u64
                } else {
                    l0.balance(o, a)
                }));
            }
            assert forall|k: Seq<u8>| #[trigger] l2.record(k) == l0.record(k) by {
                assert(l1.record(k) == (if k == raddr {
                    l1.record(raddr)
                } else {
                    l0.record(k)
                }));
            }
            assert forall|k: Seq<u8>| #[trigger] l2.holding(k) == l0.holding(k) by {
                assert(l1.holding(k) == (if k == raddr {
                    l1.holding(raddr)
                } else {
                    l0.holding(k)
                }));
            }
        },
        _ => {
            assert(false);
        },
    }
}

/// Exactly one of cancel and complete can ever settle a record: both
/// terminal transitions destroy the record and its holding account, so a
/// later `refund` or `take` aimed at the same address finds no record —
/// by those operations' contracts it then fails with
/// `StateNotFoundError` and changes nothing.
pub proof fn lemma_terminal_removes_record(
    l1: Ledger,
    l2: Ledger,
    party: Seq<u8>,
    raddr: Seq<u8>,
)
    requires
        take_ok(l1, l2, party, raddr) || refund_ok(l1, l2, party, raddr),
    ensures
        l2.record(raddr) is None,
        l2.holding(raddr) is None,
{
    if take_ok(l1, l2, party, raddr) {
        assert(l2.record(raddr) is None);
    } else {
        assert(l2.record(raddr) is None);
    }
}

} // verus!

//! The ledger model: balances, holding accounts and escrow records, and the
//! three escrow operations as atomic transitions over them.
use vstd::prelude::*;
use vstd::pervasive::VecAdditionalExecFns;
use vstd::pervasive::unreached;
use crate::addr::Address;
use crate::addr::derive_holding;
use crate::addr::derive_record;
use crate::addr::holding_derivation;
use crate::addr::record_derivation;
use crate::errors::EscrowError;
use crate::record::EscrowRecord;
use crate::record::RecordView;

verus! {

/// One party's balance of one asset.
pub struct BalanceEntry {
    pub owner: Address,
    pub asset: u64,
    pub amount: u64,
}

/// The custodial holding account of one escrow record. It is controlled
/// only by the escrow itself: no operation but `refund` and `take` moves
/// funds out of it.
pub struct HoldingEntry {
    /// Address of the escrow record this holding account belongs to.
    pub record: Address,
    /// The holding account's own derived address.
    pub addr: Address,
    /// The asset it holds (the record's `asset_a`).
    pub asset: u64,
    /// Its balance.
    pub amount: u64,
}

/// One live escrow record, stored at its derived address.
pub struct RecordEntry {
    pub addr: Address,
    pub record: EscrowRecord,
}

/// What a holding account looks like in specifications.
pub ghost struct HoldingView {
    pub record: Seq<u8>,
    pub addr: Seq<u8>,
    pub asset: u64,
    pub amount: u64,
}

impl View for HoldingEntry {
    type V = HoldingView;

    open spec fn view(&self) -> HoldingView {
        HoldingView {
            record: self.record@,
            addr: self.addr@,
            asset: self.asset,
            amount: self.amount,
        }
    }
}

/// The balance entry found for `(owner, asset)`, scanning front to back.
pub open spec fn bal_at(s: Seq<BalanceEntry>, o: Seq<u8>, a: u64) -> Option<u64>
    decreases s.len(),
{
    if s.len() == 0 {
        None
    } else if s[0].owner@ == o && s[0].asset == a {
        Some(s[0].amount)
    } else {
        bal_at(s.drop_first(), o, a)
    }
}

/// The balance of `(owner, asset)`, zero when no entry exists.
pub open spec fn bal_of(s: Seq<BalanceEntry>, o: Seq<u8>, a: u64) -> u64 {
    match bal_at(s, o, a) {
        Some(v) => v,
        None => 0,
    }
}

proof fn lemma_bal_update(s: Seq<BalanceEntry>, i: int, e: BalanceEntry, o: Seq<u8>, a: u64)
    requires
        0 <= i < s.len(),
        forall|j: int| 0 <= j < i ==> !(s[j].owner@ == s[i].owner@ && s[j].asset == s[i].asset),
        e.owner@ == s[i].owner@,
        e.asset == s[i].asset,
    ensures
        bal_at(s.update(i, e), o, a) == (if o == s[i].owner@ && a == s[i].asset {
            Some(e.amount)
        } else {
            bal_at(s, o, a)
        }),
    decreases s.len(),
{
    let s2 = s.update(i, e);
    if i == 0 {
        assert(s2[0] == e);
        assert(s2.drop_first() =~= s.drop_first());
    } else {
        assert(s2[0] == s[0]);
        if s[0].owner@ == o && s[0].asset == a {
        } else {
            let t = s.drop_first();
            assert(s2.drop_first() =~= t.update(i - 1, e));
            assert(t[i - 1] == s[i]);
            assert forall|j: int| 0 <= j < i - 1 implies !((#[trigger] t[j]).owner@ == t[i - 1].owner@
                && t[j].asset == t[i - 1].asset) by {
                assert(t[j] == s[j + 1]);
            }
            lemma_bal_update(t, i - 1, e, o, a);
        }
    }
}

proof fn lemma_bal_push(s: Seq<BalanceEntry>, e: BalanceEntry, o: Seq<u8>, a: u64)
    requires
        bal_at(s, e.owner@, e.asset) is None,
    ensures
        bal_at(s.push(e), o, a) == (if o == e.owner@ && a == e.asset {
            Some(e.amount)
        } else {
            bal_at(s, o, a)
        }),
    decreases s.len(),
{
    if s.len() == 0 {
        assert(s.push(e)[0] == e);
        assert(s.push(e).drop_first() =~= Seq::<BalanceEntry>::empty());
        assert(bal_at(s.push(e).drop_first(), o, a) is None);
        assert(bal_at(s, o, a) is None);
        if o == e.owner@ && a == e.asset {
            assert(bal_at(s.push(e), o, a) == Some(e.amount));
        } else {
            assert(bal_at(s.push(e), o, a) is None);
        }
    } else {
        assert(s.push(e)[0] == s[0]);
        if s[0].owner@ == o && s[0].asset == a {
            assert(bal_at(s, o, a) == Some(s[0].amount));
            assert(bal_at(s.push(e), o, a) == Some(s[0].amount));
        } else {
            assert(s.push(e).drop_first() =~= s.drop_first().push(e));
            lemma_bal_push(s.drop_first(), e, o, a);
            assert(bal_at(s.push(e), o, a) == bal_at(s.drop_first().push(e), o, a));
            assert(bal_at(s, o, a) == bal_at(s.drop_first(), o, a));
        }
    }
}

/// The escrow record found at address `k`, scanning front to back.
pub open spec fn rec_at(s: Seq<RecordEntry>, k: Seq<u8>) -> Option<RecordView>
    decreases s.len(),
{
    if s.len() == 0 {
        None
    } else if s[0].addr@ == k {
        Some(s[0].record@)
    } else {
        rec_at(s.drop_first(), k)
    }
}

/// No two records share an address.
pub open spec fn rec_unique(s: Seq<RecordEntry>) -> bool {
    forall|i: int, j: int| 0 <= i < j < s.len() ==> s[i].addr@ != s[j].addr@
}

proof fn lemma_rec_at_when_absent(s: Seq<RecordEntry>, k: Seq<u8>)
    requires
        forall|j: int| 0 <= j < s.len() ==> s[j].addr@ != k,
    ensures
        rec_at(s, k) is None,
    decreases s.len(),
{
    if s.len() == 0 {
    } else {
        assert forall|j: int| 0 <= j < s.drop_first().len() implies s.drop_first()[j].addr@ != k by {
            assert(s.drop_first()[j] == s[j + 1]);
        }
        lemma_rec_at_when_absent(s.drop_first(), k);
    }
}

proof fn lemma_rec_absent_when_none(s: Seq<RecordEntry>, k: Seq<u8>)
    requires
        rec_at(s, k) is None,
    ensures
        forall|j: int| 0 <= j < s.len() ==> s[j].addr@ != k,
    decreases s.len(),
{
    if s.len() == 0 {
    } else {
        lemma_rec_absent_when_none(s.drop_first(), k);
        assert forall|j: int| 0 <= j < s.len() implies s[j].addr@ != k by {
            if j > 0 {
                assert(s.drop_first()[j - 1] == s[j]);
            }
        }
    }
}

proof fn lemma_rec_push(s: Seq<RecordEntry>, e: RecordEntry, k: Seq<u8>)
    requires
        rec_at(s, e.addr@) is None,
    ensures
        rec_at(s.push(e), k) == (if k == e.addr@ {
            Some(e.record@)
        } else {
            rec_at(s, k)
        }),
    decreases s.len(),
{
    if s.len() == 0 {
        assert(s.push(e)[0] == e);
        assert(s.push(e).drop_first() =~= Seq::<RecordEntry>::empty());
        assert(rec_at(s.push(e).drop_first(), k) is None);
        assert(rec_at(s, k) is None);
        if k == e.addr@ {
            assert(rec_at(s.push(e), k) == Some(e.record@));
        } else {
            assert(rec_at(s.push(e), k) is None);
        }
    } else {
        assert(s.push(e)[0] == s[0]);
        if s[0].addr@ == k {
            assert(rec_at(s, k) == Some(s[0].record@));
            assert(rec_at(s.push(e), k) == Some(s[0].record@));
        } else {
            assert(s.push(e).drop_first() =~= s.drop_first().push(e));
            lemma_rec_push(s.drop_first(), e, k);
            assert(rec_at(s.push(e), k) == rec_at(s.drop_first().push(e), k));
            assert(rec_at(s, k) == rec_at(s.drop_first(), k));
        }
    }
}

proof fn lemma_rec_unique_push(s: Seq<RecordEntry>, e: RecordEntry)
    requires
        rec_unique(s),
        rec_at(s, e.addr@) is None,
    ensures
        rec_unique(s.push(e)),
{
    lemma_rec_absent_when_none(s, e.addr@);
    assert forall|i: int, j: int| 0 <= i < j < s.push(e).len() implies s.push(e)[i].addr@
        != s.push(e)[j].addr@ by {
        assert(s.push(e)[i] == s[i]);
        if j == s.len() {
            assert(s.push(e)[j] == e);
        } else {
            assert(s.push(e)[j] == s[j]);
        }
    }
}

proof fn lemma_rec_remove(s: Seq<RecordEntry>, i: int, k: Seq<u8>)
    requires
        0 <= i < s.len(),
        rec_unique(s),
    ensures
        rec_at(s.remove(i), k) == (if k == s[i].addr@ {
            None::<RecordView>
        } else {
            rec_at(s, k)
        }),
    decreases s.len(),
{
    if i == 0 {
        assert(s.remove(0) =~= s.drop_first());
        if k == s[0].addr@ {
            assert forall|j: int| 0 <= j < s.drop_first().len() implies s.drop_first()[j].addr@
                != k by {
                assert(s.drop_first()[j] == s[j + 1]);
            }
            lemma_rec_at_when_absent(s.drop_first(), k);
        }
    } else {
        assert(s.remove(i)[0] == s[0]);
        if s[0].addr@ == k {
        } else {
            let t = s.drop_first();
            assert(s.remove(i).drop_first() =~= t.remove(i - 1));
            assert forall|p: int, q: int| 0 <= p < q < t.len() implies t[p].addr@ != t[q].addr@ by {
                assert(t[p] == s[p + 1]);
                assert(t[q] == s[q + 1]);
            }
            assert(t[i - 1] == s[i]);
            lemma_rec_remove(t, i - 1, k);
        }
    }
}

proof fn lemma_rec_unique_remove(s: Seq<RecordEntry>, i: int)
    requires
        rec_unique(s),
        0 <= i < s.len(),
    ensures
        rec_unique(s.remove(i)),
{
    assert forall|p: int, q: int| 0 <= p < q < s.remove(i).len() implies s.remove(i)[p].addr@
        != s.remove(i)[q].addr@ by {
        let p0: int = if p < i { p } else { p + 1 };
        let q0: int = if q < i { q } else { q + 1 };
        assert(s.remove(i)[p] == s[p0]);
        assert(s.remove(i)[q] == s[q0]);
    }
}

/// The holding account owned by the record at address `k`.
pub open spec fn hold_at(s: Seq<HoldingEntry>, k: Seq<u8>) -> Option<HoldingView>
    decreases s.len(),
{
    if s.len() == 0 {
        None
    } else if s[0].record@ == k {
        Some(s[0]@)
    } else {
        hold_at(s.drop_first(), k)
    }
}

/// No two holding accounts serve the same record.
pub open spec fn hold_unique(s: Seq<HoldingEntry>) -> bool {
    forall|i: int, j: int| 0 <= i < j < s.len() ==> s[i].record@ != s[j].record@
}

proof fn lemma_hold_at_when_absent(s: Seq<HoldingEntry>, k: Seq<u8>)
    requires
        forall|j: int| 0 <= j < s.len() ==> s[j].record@ != k,
    ensures
        hold_at(s, k) is None,
    decreases s.len(),
{
    if s.len() == 0 {
    } else {
        assert forall|j: int| 0 <= j < s.drop_first().len() implies s.drop_first()[j].record@
            != k by {
            assert(s.drop_first()[j] == s[j + 1]);
        }
        lemma_hold_at_when_absent(s.drop_first(), k);
    }
}

proof fn lemma_hold_absent_when_none(s: Seq<HoldingEntry>, k: Seq<u8>)
    requires
        hold_at(s, k) is None,
    ensures
        forall|j: int| 0 <= j < s.len() ==> s[j].record@ != k,
    decreases s.len(),
{
    if s.len() == 0 {
    } else {
        lemma_hold_absent_when_none(s.drop_first(), k);
        assert forall|j: int| 0 <= j < s.len() implies s[j].record@ != k by {
            if j > 0 {
                assert(s.drop_first()[j - 1] == s[j]);
            }
        }
    }
}

proof fn lemma_hold_push(s: Seq<HoldingEntry>, e: HoldingEntry, k: Seq<u8>)
    requires
        hold_at(s, e.record@) is None,
    ensures
        hold_at(s.push(e), k) == (if k == e.record@ {
            Some(e@)
        } else {
            hold_at(s, k)
        }),
    decreases s.len(),
{
    if s.len() == 0 {
        assert(s.push(e)[0] == e);
        assert(s.push(e).drop_first() =~= Seq::<HoldingEntry>::empty());
        assert(hold_at(s.push(e).drop_first(), k) is None);
        assert(hold_at(s, k) is None);
        if k == e.record@ {
            assert(hold_at(s.push(e), k) == Some(e@));
        } else {
            assert(hold_at(s.push(e), k) is None);
        }
    } else {
        assert(s.push(e)[0] == s[0]);
        if s[0].record@ == k {
            assert(hold_at(s, k) == Some(s[0]@));
            assert(hold_at(s.push(e), k) == Some(s[0]@));
        } else {
            assert(s.push(e).drop_first() =~= s.drop_first().push(e));
            lemma_hold_push(s.drop_first(), e, k);
            assert(hold_at(s.push(e), k) == hold_at(s.drop_first().push(e), k));
            assert(hold_at(s, k) == hold_at(s.drop_first(), k));
        }
    }
}

proof fn lemma_hold_unique_push(s: Seq<HoldingEntry>, e: HoldingEntry)
    requires
        hold_unique(s),
        hold_at(s, e.record@) is None,
    ensures
        hold_unique(s.push(e)),
{
    lemma_hold_absent_when_none(s, e.record@);
    assert forall|i: int, j: int| 0 <= i < j < s.push(e).len() implies s.push(e)[i].record@
        != s.push(e)[j].record@ by {
        assert(s.push(e)[i] == s[i]);
        if j == s.len() {
            assert(s.push(e)[j] == e);
        } else {
            assert(s.push(e)[j] == s[j]);
        }
    }
}

proof fn lemma_hold_remove(s: Seq<HoldingEntry>, i: int, k: Seq<u8>)
    requires
        0 <= i < s.len(),
        hold_unique(s),
    ensures
        hold_at(s.remove(i), k) == (if k == s[i].record@ {
            None::<HoldingView>
        } else {
            hold_at(s, k)
        }),
    decreases s.len(),
{
    if i == 0 {
        assert(s.remove(0) =~= s.drop_first());
        if k == s[0].record@ {
            assert forall|j: int| 0 <= j < s.drop_first().len() implies s.drop_first()[j].record@
                != k by {
                assert(s.drop_first()[j] == s[j + 1]);
            }
            lemma_hold_at_when_absent(s.drop_first(), k);
        }
    } else {
        assert(s.remove(i)[0] == s[0]);
        if s[0].record@ == k {
        } else {
            let t = s.drop_first();
            assert(s.remove(i).drop_first() =~= t.remove(i - 1));
            assert forall|p: int, q: int| 0 <= p < q < t.len() implies t[p].record@
                != t[q].record@ by {
                assert(t[p] == s[p + 1]);
                assert(t[q] == s[q + 1]);
            }
            assert(t[i - 1] == s[i]);
            lemma_hold_remove(t, i - 1, k);
        }
    }
}

fn find_balance_idx(v: &Vec<BalanceEntry>, o: &Address, a: u64) -> (r: Option<usize>)
    ensures
        match r {
            Some(i) => i < v@.len() && v@[i as int].owner@ == o@ && v@[i as int].asset == a
                && (forall|j: int| 0 <= j < i ==> !((#[trigger] v@[j]).owner@ == o@ && v@[j].asset == a))
                && bal_at(v@, o@, a) == Some(v@[i as int].amount),
            None => bal_at(v@, o@, a) is None,
        },
{
    let n = v.len();
    let mut i: usize = 0;
    proof {
        assert(v@.skip(0) =~= v@);
    }
    while i < n
        invariant
            i <= n,
            n == v@.len(),
            forall|j: int| 0 <= j < i ==> !((#[trigger] v@[j]).owner@ == o@ && v@[j].asset == a),
            bal_at(v@, o@, a) == bal_at(v@.skip(i as int), o@, a),
        decreases n - i,
    {
        proof {
            assert(v@.skip(i as int)[0] == v@[i as int]);
        }
        if v[i].owner.same_as(o) && v[i].asset == a {
            proof {
                assert(bal_at(v@.skip(i as int), o@, a) == Some(v@[i as int].amount));
            }
            return Some(i);
        }
        proof {
            assert(v@.skip(i as int).drop_first() =~= v@.skip(i + 1));
            assert(bal_at(v@.skip(i as int), o@, a) == bal_at(v@.skip(i + 1), o@, a));
        }
        i += 1;
    }
    proof {
        assert(v@.skip(n as int) =~= Seq::<BalanceEntry>::empty());
        assert(bal_at(v@.skip(n as int), o@, a) is None);
    }
    None
}

fn find_record_idx(v: &Vec<RecordEntry>, k: &Address) -> (r: Option<usize>)
    ensures
        match r {
            Some(i) => i < v@.len() && v@[i as int].addr@ == k@
                && rec_at(v@, k@) == Some(v@[i as int].record@),
            None => rec_at(v@, k@) is None,
        },
{
    let n = v.len();
    let mut i: usize = 0;
    proof {
        assert(v@.skip(0) =~= v@);
    }
    while i < n
        invariant
            i <= n,
            n == v@.len(),
            rec_at(v@, k@) == rec_at(v@.skip(i as int), k@),
        decreases n - i,
    {
        proof {
            assert(v@.skip(i as int)[0] == v@[i as int]);
        }
        if v[i].addr.same_as(k) {
            proof {
                assert(rec_at(v@.skip(i as int), k@) == Some(v@[i as int].record@));
            }
            return Some(i);
        }
        proof {
            assert(v@.skip(i as int).drop_first() =~= v@.skip(i + 1));
            assert(rec_at(v@.skip(i as int), k@) == rec_at(v@.skip(i + 1), k@));
        }
        i += 1;
    }
    proof {
        assert(v@.skip(n as int) =~= Seq::<RecordEntry>::empty());
        assert(rec_at(v@.skip(n as int), k@) is None);
    }
    None
}

fn find_holding_idx(v: &Vec<HoldingEntry>, k: &Address) -> (r: Option<usize>)
    ensures
        match r {
            Some(i) => i < v@.len() && v@[i as int].record@ == k@
                && hold_at(v@, k@) == Some(v@[i as int]@),
            None => hold_at(v@, k@) is None,
        },
{
    let n = v.len();
    let mut i: usize = 0;
    proof {
        assert(v@.skip(0) =~= v@);
    }
    while i < n
        invariant
            i <= n,
            n == v@.len(),
            hold_at(v@, k@) == hold_at(v@.skip(i as int), k@),
        decreases n - i,
    {
        proof {
            assert(v@.skip(i as int)[0] == v@[i as int]);
        }
        if v[i].record.same_as(k) {
            proof {
                assert(hold_at(v@.skip(i as int), k@) == Some(v@[i as int]@));
            }
            return Some(i);
        }
        proof {
            assert(v@.skip(i as int).drop_first() =~= v@.skip(i + 1));
            assert(hold_at(v@.skip(i as int), k@) == hold_at(v@.skip(i + 1), k@));
        }
        i += 1;
    }
    proof {
        assert(v@.skip(n as int) =~= Seq::<HoldingEntry>::empty());
        assert(hold_at(v@.skip(n as int), k@) is None);
    }
    None
}

fn credit_balance(v: &mut Vec<BalanceEntry>, o: &Address, a: u64, amt: u64)
    requires
        bal_of(old(v)@, o@, a) + amt <= u64::MAX,
    ensures
        forall|o2: Seq<u8>, a2: u64| #[trigger] bal_of(final(v)@, o2, a2) == (if o2 == o@ && a2
            == a {
            (bal_of(old(v)@, o2, a2) + amt) as u64
        } else {
            bal_of(old(v)@, o2, a2)
        }),
{
    let ghost s0 = v@;
    match find_balance_idx(v, o, a) {
        Some(i) => {
            let updated = BalanceEntry { owner: *o, asset: a, amount: v[i].amount + amt };
            v.set(i, updated);
            proof {
                assert forall|o2: Seq<u8>, a2: u64| #[trigger] bal_of(v@, o2, a2) == (if o2 == o@
                    && a2 == a {
                    (bal_of(s0, o2, a2) + amt) as u64
                } else {
                    bal_of(s0, o2, a2)
                }) by {
                    lemma_bal_update(s0, i as int, updated, o2, a2);
                }
            }
        },
        None => {
            let fresh = BalanceEntry { owner: *o, asset: a, amount: amt };
            v.push(fresh);
            proof {
                assert(v@ == s0.push(fresh));
                assert forall|o2: Seq<u8>, a2: u64| #[trigger] bal_of(v@, o2, a2) == (if o2 == o@
                    && a2 == a {
                    (bal_of(s0, o2, a2) + amt) as u64
                } else {
                    bal_of(s0, o2, a2)
                }) by {
                    lemma_bal_push(s0, fresh, o2, a2);
                }
            }
        },
    }
}

fn debit_balance(v: &mut Vec<BalanceEntry>, o: &Address, a: u64, amt: u64)
    requires
        bal_of(old(v)@, o@, a) >= amt,
    ensures
        forall|o2: Seq<u8>, a2: u64| #[trigger] bal_of(final(v)@, o2, a2) == (if o2 == o@ && a2
            == a {
            (bal_of(old(v)@, o2, a2) - amt) as u64
        } else {
            bal_of(old(v)@, o2, a2)
        }),
{
    let ghost s0 = v@;
    match find_balance_idx(v, o, a) {
        Some(i) => {
            let updated = BalanceEntry { owner: *o, asset: a, amount: v[i].amount - amt };
            v.set(i, updated);
            proof {
                assert forall|o2: Seq<u8>, a2: u64| #[trigger] bal_of(v@, o2, a2) == (if o2 == o@
                    && a2 == a {
                    (bal_of(s0, o2, a2) - amt) as u64
                } else {
                    bal_of(s0, o2, a2)
                }) by {
                    lemma_bal_update(s0, i as int, updated, o2, a2);
                }
            }
        },
        None => {
            proof {
                assert(bal_of(s0, o@, a) == 0);
                assert(amt == 0);
            }
        },
    }
}

proof fn lemma_hold_unique_remove(s: Seq<HoldingEntry>, i: int)
    requires
        hold_unique(s),
        0 <= i < s.len(),
    ensures
        hold_unique(s.remove(i)),
{
    assert forall|p: int, q: int| 0 <= p < q < s.remove(i).len() implies s.remove(i)[p].record@
        != s.remove(i)[q].record@ by {
        let p0: int = if p < i { p } else { p + 1 };
        let q0: int = if q < i { q } else { q + 1 };
        assert(s.remove(i)[p] == s[p0]);
        assert(s.remove(i)[q] == s[q0]);
    }
}

/// The shared ledger: party balances, custodial holding accounts, and live
/// escrow records. The three escrow operations are its only transitions
/// besides `mint`; each commits whole or returns an error and changes
/// nothing.
pub struct Ledger {
    pub balances: Vec<BalanceEntry>,
    pub holdings: Vec<HoldingEntry>,
    pub records: Vec<RecordEntry>,
}

impl Ledger {
    /// The balance of `(owner, asset)`; zero when no entry exists.
    pub open spec fn balance(self, o: Seq<u8>, a: u64) -> u64 {
        bal_of(self.balances@, o, a)
    }

    /// The escrow record at address `k`.
    pub open spec fn record(self, k: Seq<u8>) -> Option<RecordView> {
        rec_at(self.records@, k)
    }

    /// The holding account owned by the record at `k`.
    pub open spec fn holding(self, k: Seq<u8>) -> Option<HoldingView> {
        hold_at(self.holdings@, k)
    }

    /// Well-formedness: record and holding addresses are unique, and a
    /// holding account exists exactly when its owning record does and
    /// holds the record's `asset_a`.
    pub open spec fn wf(self) -> bool {
        &&& rec_unique(self.records@)
        &&& hold_unique(self.holdings@)
        &&& forall|k: Seq<u8>|
            (#[trigger] rec_at(self.records@, k)) is Some <==> hold_at(self.holdings@, k) is Some
        &&& forall|k: Seq<u8>|
            match (#[trigger] rec_at(self.records@, k), hold_at(self.holdings@, k)) {
                (Some(r), Some(h)) => h.asset == r.asset_a,
                _ => true,
            }
    }

    /// An empty ledger: no balances, no holding accounts, no records.
    pub fn new() -> (r: Ledger)
        ensures
            r.wf(),
            forall|o: Seq<u8>, a: u64| #[trigger] r.balance(o, a) == 0u64,
            forall|k: Seq<u8>| #[trigger] r.record(k) is None,
            forall|k: Seq<u8>| #[trigger] r.holding(k) is None,
    {
        let l = Ledger { balances: Vec::new(), holdings: Vec::new(), records: Vec::new() };
        proof {
            assert forall|o: Seq<u8>, a: u64| #[trigger] bal_at(l.balances@, o, a) is None by {}
            assert forall|k: Seq<u8>| (#[trigger] rec_at(l.records@, k)) is None by {}
            assert forall|k: Seq<u8>| (#[trigger] hold_at(l.holdings@, k)) is None by {}
        }
        l
    }

    /// Creates `amount` of `asset` for `owner`: the stand-in for funds
    /// arriving from outside the escrow.
    pub fn mint(&mut self, owner: &Address, asset: u64, amount: u64)
        requires
            old(self).balance(owner@, asset) + amount <= u64::MAX,
        ensures
            forall|o: Seq<u8>, a: u64| #[trigger] final(self).balance(o, a) == (if o == owner@
                && a == asset {
                (old(self).balance(o, a) + amount) as u64
            } else {
                old(self).balance(o, a)
            }),
            final(self).records@ == old(self).records@,
            final(self).holdings@ == old(self).holdings@,
            old(self).wf() ==> final(self).wf(),
    {
        credit_balance(&mut self.balances, owner, asset, amount);
    }

    /// The balance of `(owner, asset)`; zero when no entry exists.
    pub fn balance_of(&self, owner: &Address, asset: u64) -> (r: u64)
        ensures
            r == self.balance(owner@, asset),
    {
        match find_balance_idx(&self.balances, owner, asset) {
            Some(i) => self.balances[i].amount,
            None => 0,
        }
    }

    /// Whether an escrow record lives at `record_addr`.
    pub fn has_record(&self, record_addr: &Address) -> (r: bool)
        ensures
            r == (self.record(record_addr@) is Some),
    {
        match find_record_idx(&self.records, record_addr) {
            Some(_) => true,
            None => false,
        }
    }

    /// Whether the record at `record_addr` still owns a holding account.
    pub fn has_holding(&self, record_addr: &Address) -> (r: bool)
        ensures
            r == (self.holding(record_addr@) is Some),
    {
        match find_holding_idx(&self.holdings, record_addr) {
            Some(_) => true,
            None => false,
        }
    }

    /// The balance held for the record at `record_addr`; zero when the
    /// record owns no holding account.
    pub fn holding_amount(&self, record_addr: &Address) -> (r: u64)
        ensures
            r == (match self.holding(record_addr@) {
                Some(h) => h.amount,
                None => 0u64,
            }),
    {
        match find_holding_idx(&self.holdings, record_addr) {
            Some(i) => self.holdings[i].amount,
            None => 0,
        }
    }
}

/// `make` cannot go through: no record address can be formed for
/// `(maker, seed)`, no holding address for the record address, or the
/// record address is already in use.
pub open spec fn make_collides(pre: Ledger, maker: Seq<u8>, seed: u64) -> bool {
    match record_derivation(maker, seed) {
        None => true,
        Some(p) => holding_derivation(p.0) is None || pre.record(p.0) is Some,
    }
}

/// The successful `make` transition from `pre` to `post`: the record is
/// fresh, the maker can pay, the deposit moves into a new holding account,
/// and a new record holds the terms. Nothing else changes.
pub open spec fn make_ok(
    pre: Ledger,
    post: Ledger,
    maker: Seq<u8>,
    seed: u64,
    asset_a: u64,
    asset_b: u64,
    deposit: u64,
    receive: u64,
) -> bool {
    match record_derivation(maker, seed) {
        None => false,
        Some(p) => {
            let raddr = p.0;
            let bump = p.1;
            match holding_derivation(raddr) {
                None => false,
                Some(haddr) => {
                    &&& pre.record(raddr) is None
                    &&& pre.balance(maker, asset_a) >= deposit
                    &&& forall|o: Seq<u8>, a: u64|
                        #[trigger] post.balance(o, a) == (if o == maker && a == asset_a {
                            (pre.balance(o, a) - deposit) as u64
                        } else {
                            pre.balance(o, a)
                        })
                    &&& forall|k: Seq<u8>|
                        #[trigger] post.record(k) == (if k == raddr {
                            Some(
                                RecordView {
                                    seed,
                                    maker,
                                    asset_a,
                                    asset_b,
                                    receive,
                                    bump,
                                },
                            )
                        } else {
                            pre.record(k)
                        })
                    &&& forall|k: Seq<u8>|
                        #[trigger] post.holding(k) == (if k == raddr {
                            Some(
                                HoldingView {
                                    record: raddr,
                                    addr: haddr,
                                    asset: asset_a,
                                    amount: deposit,
                                },
                            )
                        } else {
                            pre.holding(k)
                        })
                },
            }
        },
    }
}

/// The successful `refund` transition: the signer is the recorded maker,
/// the whole held balance returns to the maker, and the record and its
/// holding account cease to exist. Nothing else changes.
pub open spec fn refund_ok(pre: Ledger, post: Ledger, signer: Seq<u8>, raddr: Seq<u8>) -> bool {
    match (pre.record(raddr), pre.holding(raddr)) {
        (Some(r), Some(h)) => {
            &&& r.maker == signer
            &&& forall|o: Seq<u8>, a: u64|
                #[trigger] post.balance(o, a) == (if o == r.maker && a == r.asset_a {
                    (pre.balance(o, a) + h.amount) as u64
                } else {
                    pre.balance(o, a)
                })
            &&& forall|k: Seq<u8>|
                #[trigger] post.record(k) == (if k == raddr {
                    None::<RecordView>
                } else {
                    pre.record(k)
                })
            &&& forall|k: Seq<u8>|
                #[trigger] post.holding(k) == (if k == raddr {
                    None::<HoldingView>
                } else {
                    pre.holding(k)
                })
        },
        _ => false,
    }
}

/// The machine-limit precondition of `refund`: returning the held balance
/// to the maker must not overflow the maker's account.
pub open spec fn refund_fits(pre: Ledger, signer: Seq<u8>, raddr: Seq<u8>) -> bool {
    match (pre.record(raddr), pre.holding(raddr)) {
        (Some(r), Some(h)) => r.maker == signer ==> pre.balance(r.maker, r.asset_a) + h.amount
            <= u64::MAX,
        _ => true,
    }
}

/// The successful `take` transition: the taker pays `receive` of `asset_b`
/// to the maker, the whole held balance of `asset_a` goes to the taker,
/// and the record and its holding account cease to exist. Nothing else
/// changes.
pub open spec fn take_ok(pre: Ledger, post: Ledger, taker: Seq<u8>, raddr: Seq<u8>) -> bool {
    match (pre.record(raddr), pre.holding(raddr)) {
        (Some(r), Some(h)) => {
            &&& pre.balance(taker, r.asset_b) >= r.receive
            &&& forall|o: Seq<u8>, a: u64|
                #[trigger] post.balance(o, a) as int == pre.balance(o, a) as int - (if o == taker
                    && a == r.asset_b {
                    r.receive as int
                } else {
                    0
                }) + (if o == r.maker && a == r.asset_b {
                    r.receive as int
                } else {
                    0
                }) + (if o == taker && a == r.asset_a {
                    h.amount as int
                } else {
                    0
                })
            &&& forall|k: Seq<u8>|
                #[trigger] post.record(k) == (if k == raddr {
                    None::<RecordView>
                } else {
                    pre.record(k)
                })
            &&& forall|k: Seq<u8>|
                #[trigger] post.holding(k) == (if k == raddr {
                    None::<HoldingView>
                } else {
                    pre.holding(k)
                })
        },
        _ => false,
    }
}

/// The machine-limit precondition of `take`: neither credit in the swap
/// may overflow its account. `mb1` is the maker's `asset_b` balance after
/// the taker's payment leaves, `ta2` the taker's `asset_a` balance after
/// the payment settles; each credit must keep its account within `u64`.
pub open spec fn take_fits(pre: Ledger, taker: Seq<u8>, raddr: Seq<u8>) -> bool {
    match (pre.record(raddr), pre.holding(raddr)) {
        (Some(r), Some(h)) => pre.balance(taker, r.asset_b) >= r.receive ==> {
            let mb1 = pre.balance(r.maker, r.asset_b) as int - (if r.maker == taker {
                r.receive as int
            } else {
                0
            });
            let ta2 = pre.balance(taker, r.asset_a) as int - (if r.asset_a == r.asset_b {
                r.receive as int
            } else {
                0
            }) + (if r.maker == taker && r.asset_a == r.asset_b {
                r.receive as int
            } else {
                0
            });
            &&& mb1 + r.receive <= u64::MAX
            &&& ta2 + h.amount <= u64::MAX
        },
        _ => true,
    }
}

impl Ledger {
    /// Opens an escrow: derives the record and holding addresses for
    /// `(maker, seed)`, moves `deposit` of `asset_a` from the maker into
    /// the new holding account, and creates the record demanding `receive`
    /// of `asset_b`. Atomic: on any error the ledger is unchanged.
    pub fn make(
        &mut self,
        maker: &Address,
        seed: u64,
        asset_a: u64,
        asset_b: u64,
        deposit: u64,
        receive: u64,
    ) -> (r: Result<Address, EscrowError>)
        requires
            old(self).wf(),
        ensures
            final(self).wf(),
            match r {
                Ok(record_addr) => {
                    &&& (match record_derivation(maker@, seed) {
                        Some(p) => record_addr@ == p.0,
                        None => false,
                    })
                    &&& make_ok(
                        *old(self),
                        *final(self),
                        maker@,
                        seed,
                        asset_a,
                        asset_b,
                        deposit,
                        receive,
                    )
                },
                Err(e) => {
                    &&& *final(self) == *old(self)
                    &&& (e == EscrowError::AddressCollisionError && make_collides(
                        *old(self),
                        maker@,
                        seed,
                    )) || (e == EscrowError::InsufficientBalanceError && !make_collides(
                        *old(self),
                        maker@,
                        seed,
                    ) && old(self).balance(maker@, asset_a) < deposit)
                },
            },
    {
        let derived = match derive_record(maker, seed) {
            Some(p) => p,
            None => {
                return Err(EscrowError::AddressCollisionError);
            },
        };
        let record_addr = derived.0;
        let bump = derived.1;
        let holding_addr = match derive_holding(&record_addr) {
            Some(a) => a,
            None => {
                return Err(EscrowError::AddressCollisionError);
            },
        };
        if self.has_record(&record_addr) {
            return Err(EscrowError::AddressCollisionError);
        }
        if self.balance_of(maker, asset_a) < deposit {
            return Err(EscrowError::InsufficientBalanceError);
        }
        debit_balance(&mut self.balances, maker, asset_a, deposit);
        let ghost h0 = self.holdings@;
        let holding_entry = HoldingEntry {
            record: record_addr,
            addr: holding_addr,
            asset: asset_a,
            amount: deposit,
        };
        proof {
            assert(hold_at(h0, record_addr@) is None);
        }
        self.holdings.push(holding_entry);
        proof {
            assert(self.holdings@ == h0.push(holding_entry));
            lemma_hold_unique_push(h0, holding_entry);
            assert forall|k: Seq<u8>| #[trigger] hold_at(self.holdings@, k) == (if k
                == record_addr@ {
                Some(holding_entry@)
            } else {
                hold_at(h0, k)
            }) by {
                lemma_hold_push(h0, holding_entry, k);
            }
        }
        let ghost r0 = self.records@;
        let record_entry = RecordEntry {
            addr: record_addr,
            record: EscrowRecord { seed, maker: *maker, asset_a, asset_b, receive, bump },
        };
        self.records.push(record_entry);
        proof {
            assert(self.records@ == r0.push(record_entry));
            lemma_rec_unique_push(r0, record_entry);
            assert forall|k: Seq<u8>| #[trigger] rec_at(self.records@, k) == (if k
                == record_addr@ {
                Some(record_entry.record@)
            } else {
                rec_at(r0, k)
            }) by {
                lemma_rec_push(r0, record_entry, k);
            }
            assert forall|k: Seq<u8>|
                ((#[trigger] rec_at(self.records@, k)) is Some <==> hold_at(self.holdings@, k)
                    is Some) && (match (rec_at(self.records@, k), hold_at(self.holdings@, k)) {
                    (Some(r2), Some(h2)) => h2.asset == r2.asset_a,
                    _ => true,
                }) by {
                assert(rec_at(old(self).records@, k) == rec_at(r0, k));
                assert(hold_at(old(self).holdings@, k) == hold_at(h0, k));
            }
        }
        Ok(record_addr)
    }

    /// Cancels an escrow: only the recorded maker may do so. The whole
    /// held balance returns to the maker, and the record and holding
    /// account are destroyed. Atomic: on any error the ledger is
    /// unchanged.
    pub fn refund(&mut self, signer: &Address, record_addr: &Address) -> (r: Result<
        (),
        EscrowError,
    >)
        requires
            old(self).wf(),
            refund_fits(*old(self), signer@, record_addr@),
        ensures
            final(self).wf(),
            match r {
                Ok(_) => refund_ok(*old(self), *final(self), signer@, record_addr@),
                Err(e) => {
                    &&& *final(self) == *old(self)
                    &&& (e == EscrowError::StateNotFoundError && old(self).record(record_addr@)
                        is None) || (e == EscrowError::AuthorizationError && (match old(
                        self,
                    ).record(record_addr@) {
                        Some(r2) => r2.maker != signer@,
                        None => false,
                    }))
                },
            },
    {
        let i = match find_record_idx(&self.records, record_addr) {
            Some(i) => i,
            None => {
                return Err(EscrowError::StateNotFoundError);
            },
        };
        let rec = self.records[i].record;
        if !signer.same_as(&rec.maker) {
            return Err(EscrowError::AuthorizationError);
        }
        let j = match find_holding_idx(&self.holdings, record_addr) {
            Some(j) => j,
            None => unreached(),
        };
        let amount = self.holdings[j].amount;
        credit_balance(&mut self.balances, &rec.maker, rec.asset_a, amount);
        let ghost h0 = self.holdings@;
        self.holdings.remove(j);
        proof {
            lemma_hold_unique_remove(h0, j as int);
            assert forall|k: Seq<u8>| #[trigger] hold_at(self.holdings@, k) == (if k
                == record_addr@ {
                None::<HoldingView>
            } else {
                hold_at(h0, k)
            }) by {
                lemma_hold_remove(h0, j as int, k);
            }
        }
        let ghost r0 = self.records@;
        self.records.remove(i);
        proof {
            lemma_rec_unique_remove(r0, i as int);
            assert forall|k: Seq<u8>| #[trigger] rec_at(self.records@, k) == (if k
                == record_addr@ {
                None::<RecordView>
            } else {
                rec_at(r0, k)
            }) by {
                lemma_rec_remove(r0, i as int, k);
            }
            assert forall|k: Seq<u8>|
                ((#[trigger] rec_at(self.records@, k)) is Some <==> hold_at(self.holdings@, k)
                    is Some) && (match (rec_at(self.records@, k), hold_at(self.holdings@, k)) {
                    (Some(r2), Some(h2)) => h2.asset == r2.asset_a,
                    _ => true,
                }) by {
                assert(rec_at(old(self).records@, k) == rec_at(r0, k));
                assert(hold_at(old(self).holdings@, k) == hold_at(h0, k));
            }
        }
        Ok(())
    }

    /// Completes an escrow: any taker holding `receive` of `asset_b` pays
    /// the maker and gets the whole held balance of `asset_a`; the record
    /// and holding account are destroyed. The maker need not act: the
    /// escrow itself releases the held funds. Atomic: on any error the
    /// ledger is unchanged.
    pub fn take(&mut self, taker: &Address, record_addr: &Address) -> (r: Result<
        (),
        EscrowError,
    >)
        requires
            old(self).wf(),
            take_fits(*old(self), taker@, record_addr@),
        ensures
            final(self).wf(),
            match r {
                Ok(_) => take_ok(*old(self), *final(self), taker@, record_addr@),
                Err(e) => {
                    &&& *final(self) == *old(self)
                    &&& (e == EscrowError::StateNotFoundError && old(self).record(record_addr@)
                        is None) || (e == EscrowError::InsufficientBalanceError && (match old(
                        self,
                    ).record(record_addr@) {
                        Some(r2) => old(self).balance(taker@, r2.asset_b) < r2.receive,
                        None => false,
                    }))
                },
            },
    {
        let i = match find_record_idx(&self.records, record_addr) {
            Some(i) => i,
            None => {
                return Err(EscrowError::StateNotFoundError);
            },
        };
        let rec = self.records[i].record;
        if self.balance_of(taker, rec.asset_b) < rec.receive {
            return Err(EscrowError::InsufficientBalanceError);
        }
        let j = match find_holding_idx(&self.holdings, record_addr) {
            Some(j) => j,
            None => unreached(),
        };
        let amount = self.holdings[j].amount;
        let ghost bs0 = self.balances@;
        debit_balance(&mut self.balances, taker, rec.asset_b, rec.receive);
        let ghost bs1 = self.balances@;
        credit_balance(&mut self.balances, &rec.maker, rec.asset_b, rec.receive);
        let ghost bs2 = self.balances@;
        credit_balance(&mut self.balances, taker, rec.asset_a, amount);
        proof {
            assert forall|o: Seq<u8>, a: u64|
                #[trigger] bal_of(self.balances@, o, a) as int == bal_of(bs0, o, a) as int - (if o
                    == taker@ && a == rec.asset_b {
                    rec.receive as int
                } else {
                    0
                }) + (if o == rec.maker@ && a == rec.asset_b {
                    rec.receive as int
                } else {
                    0
                }) + (if o == taker@ && a == rec.asset_a {
                    amount as int
                } else {
                    0
                }) by {
                assert(bal_of(bs1, o, a) == (if o == taker@ && a == rec.asset_b {
                    (bal_of(bs0, o, a) - rec.receive) as u64
                } else {
                    bal_of(bs0, o, a)
                }));
                assert(bal_of(bs2, o, a) == (if o == rec.maker@ && a == rec.asset_b {
                    (bal_of(bs1, o, a) + rec.receive) as u64
                } else {
                    bal_of(bs1, o, a)
                }));
            }
        }
        let ghost h0 = self.holdings@;
        self.holdings.remove(j);
        proof {
            lemma_hold_unique_remove(h0, j as int);
            assert forall|k: Seq<u8>| #[trigger] hold_at(self.holdings@, k) == (if k
                == record_addr@ {
                None::<HoldingView>
            } else {
                hold_at(h0, k)
            }) by {
                lemma_hold_remove(h0, j as int, k);
            }
        }
        let ghost r0 = self.records@;
        self.records.remove(i);
        proof {
            lemma_rec_unique_remove(r0, i as int);
            assert forall|k: Seq<u8>| #[trigger] rec_at(self.records@, k) == (if k
                == record_addr@ {
                None::<RecordView>
            } else {
                rec_at(r0, k)
            }) by {
                lemma_rec_remove(r0, i as int, k);
            }
            assert forall|k: Seq<u8>|
                ((#[trigger] rec_at(self.records@, k)) is Some <==> hold_at(self.holdings@, k)
                    is Some) && (match (rec_at(self.records@, k), hold_at(self.holdings@, k)) {
                    (Some(r2), Some(h2)) => h2.asset == r2.asset_a,
                    _ => true,
                }) by {
                assert(rec_at(old(self).records@, k) == rec_at(r0, k));
                assert(hold_at(old(self).holdings@, k) == hold_at(h0, k));
            }
        }
        Ok(())
    }
}

} // verus!

//! The unsettled blob transactions of the node, in the order they arrived.
//!
//! For each contract, the transaction to settle next is the earliest one
//! still unsettled that has a blob for that contract; a transaction is next
//! to settle when it is that transaction for each of its contracts.

use crate::model::{ContractName, TxHash};
use crate::node_state::settlement::BlobMeta;
use crate::node_state::verify_output::{TxV, UnsettledBlobTransaction};
use vstd::prelude::*;

verus! {

/// Transactions, as plain values.
pub open spec fn txs_view(v: Seq<UnsettledBlobTransaction>) -> Seq<TxV> {
    v.map_values(|t: UnsettledBlobTransaction| t@)
}

/// No two transactions share a hash.
pub open spec fn distinct_hashes(s: Seq<TxV>) -> bool {
    forall|i: int, j: int| 0 <= i < s.len() && 0 <= j < s.len() && i != j ==> (#[trigger] s[i]).hash != (#[trigger] s[j]).hash
}

/// `s` holds a transaction of hash `h`.
pub open spec fn holds(s: Seq<TxV>, h: Seq<char>) -> bool {
    exists|i: int| 0 <= i < s.len() && (#[trigger] s[i]).hash == h
}

/// The position of the transaction of hash `h` (meaningful when `s` holds
/// it).
pub open spec fn pos_of(s: Seq<TxV>, h: Seq<char>) -> int {
    choose|i: int| 0 <= i < s.len() && (#[trigger] s[i]).hash == h
}

/// Transaction `t` has a blob for contract `c`.
pub open spec fn has_contract(t: TxV, c: Seq<char>) -> bool {
    exists|k: int| 0 <= k < t.blobs.len() && (#[trigger] t.blobs[k]).blob.contract_name@ == c
}

/// The hash of the earliest transaction of `s` with a blob for `c`, if any.
pub open spec fn next_of(s: Seq<TxV>, c: Seq<char>) -> Option<Seq<char>>
    decreases s.len(),
{
    if s.len() == 0 {
        None
    } else if has_contract(s[0], c) {
        Some(s[0].hash)
    } else {
        next_of(s.drop_first(), c)
    }
}

/// The transaction of hash `h` is next to settle for each of its contracts.
pub open spec fn is_next(s: Seq<TxV>, h: Seq<char>) -> bool {
    &&& holds(s, h)
    &&& forall|k: int| 0 <= k < s[pos_of(s, h)].blobs.len()
        ==> next_of(s, (#[trigger] s[pos_of(s, h)].blobs[k]).blob.contract_name@) == Some(h)
}

/// `s` without the transaction at `i`.
pub open spec fn without_at(s: Seq<TxV>, i: int) -> Seq<TxV> {
    s.remove(i)
}

/// In a sequence of distinct hashes, a position holding `h` is its
/// position.
pub proof fn lemma_pos_of(s: Seq<TxV>, h: Seq<char>, i: int)
    requires
        distinct_hashes(s),
        0 <= i < s.len(),
        s[i].hash == h,
    ensures
        holds(s, h),
        pos_of(s, h) == i,
{
    assert(holds(s, h));
    let p = pos_of(s, h);
    if p != i {
        assert(s[p].hash != s[i].hash);
    }
}

/// The position of the transaction of hash `h` in `v`, if any.
pub fn find_tx(v: &Vec<UnsettledBlobTransaction>, h: &TxHash) -> (res: Option<usize>)
    requires
        distinct_hashes(txs_view(v@)),
    ensures
        match res {
            Some(i) => i < v.len() && holds(txs_view(v@), h@) && pos_of(txs_view(v@), h@) == i,
            None => !holds(txs_view(v@), h@),
        },
{
    let ghost s = txs_view(v@);
    let mut i: usize = 0;
    while i < v.len()
        invariant
            s == txs_view(v@),
            distinct_hashes(s),
            i <= v@.len(),
            forall|j: int| 0 <= j < i ==> s[j].hash != h@,
        decreases v@.len() - i,
    {
        assert(s[i as int] == v@[i as int]@);
        if v[i].hash.0 == h.0 {
            proof {
                lemma_pos_of(s, h@, i as int);
            }
            return Some(i);
        }
        i = i + 1;
    }
    None
}

/// Whether `t` has a blob for contract `c`.
fn tx_has_contract(t: &UnsettledBlobTransaction, c: &ContractName) -> (res: bool)
    ensures
        res == has_contract(t@, c@),
{
    let mut k: usize = 0;
    while k < t.blobs.len()
        invariant
            k <= t.blobs@.len(),
            forall|j: int| 0 <= j < k ==> t@.blobs[j].blob.contract_name@ != c@,
        decreases t.blobs@.len() - k,
    {
        assert(t@.blobs[k as int] == t.blobs@[k as int]@);
        if t.blobs[k].blob.contract_name.0 == c.0 {
            return true;
        }
        k = k + 1;
    }
    false
}

/// The hash of the earliest transaction of `v` with a blob for `c`, if any.
pub fn next_unsettled_of(v: &Vec<UnsettledBlobTransaction>, c: &ContractName) -> (res: Option<TxHash>)
    ensures
        match res {
            Some(h) => next_of(txs_view(v@), c@) == Some(h@),
            None => next_of(txs_view(v@), c@) is None,
        },
{
    let ghost s = txs_view(v@);
    let mut i: usize = 0;
    assert(s.skip(0) =~= s);
    while i < v.len()
        invariant
            s == txs_view(v@),
            i <= v@.len(),
            next_of(s, c@) == next_of(s.skip(i as int), c@),
        decreases v@.len() - i,
    {
        proof {
            assert(s.skip(i as int)[0] == s[i as int]);
            assert(s.skip(i as int).drop_first() =~= s.skip(i + 1));
        }
        assert(s[i as int] == v@[i as int]@);
        if tx_has_contract(&v[i], c) {
            return Some(v[i].hash.copy());
        }
        i = i + 1;
    }
    proof {
        assert(s.skip(v@.len() as int) =~= Seq::<TxV>::empty());
    }
    None
}

/// Whether the transaction of hash `h` is next to settle.
pub fn is_next_to_settle(v: &Vec<UnsettledBlobTransaction>, h: &TxHash) -> (res: bool)
    requires
        distinct_hashes(txs_view(v@)),
    ensures
        res == is_next(txs_view(v@), h@),
{
    let ghost s = txs_view(v@);
    match find_tx(v, h) {
        None => false,
        Some(i) => {
            let t = &v[i];
            assert(s[i as int] == t@);
            let mut k: usize = 0;
            while k < t.blobs.len()
                invariant
                    s == txs_view(v@),
                    i < v@.len(),
                    pos_of(s, h@) == i,
                    t == &v@[i as int],
                    s[i as int] == t@,
                    k <= t.blobs@.len(),
                    forall|j: int| 0 <= j < k ==> next_of(s, (#[trigger] s[pos_of(s, h@)].blobs[j]).blob.contract_name@) == Some(h@),
                decreases t.blobs@.len() - k,
            {
                assert(t@.blobs[k as int] == t.blobs@[k as int]@);
                match next_unsettled_of(v, &t.blobs[k].blob.contract_name) {
                    Some(n) => {
                        if n.0 != h.0 {
                            return false;
                        }
                    },
                    None => {
                        return false;
                    },
                }
                k = k + 1;
            }
            true
        },
    }
}

} // verus!

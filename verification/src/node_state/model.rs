//! Unsettled transactions and the first form of transaction timeouts.

use crate::model::{BlobIndex, BlobsHash, BlockHeight, ContractName, Identity, StateDigest, TxHash};
use crate::node_state::timeouts::{contains_tx, hashes_view, lists_view};
use crate::str_map::StrMap;
use std::collections::HashMap;
use vstd::prelude::*;
use vstd::std_specs::hash::group_hash_axioms;

verus! {

broadcast use group_hash_axioms;

#[derive(Debug, Clone, Default)]
pub struct Contract {
    pub name: ContractName,
    pub program_id: Vec<u8>,
    pub state: StateDigest,
}

/// A blob transaction waiting for proofs.
#[derive(Debug, Clone, Default, PartialEq, Eq)]
pub struct UnsettledTransaction {
    pub identity: Identity,
    pub tx_hash: TxHash,
    pub blobs_hash: BlobsHash,
    pub blobs: Vec<UnsettledBlobMetadata>,
}

/// A blob of an unsettled transaction, with the proof outputs seen for it.
#[derive(Debug, Clone, Default, PartialEq, Eq)]
pub struct UnsettledBlobMetadata {
    pub contract_name: ContractName,
    pub metadata: Vec<HyleOutput>,
}

/// What a proof states about one blob.
#[derive(Debug, Clone, Default, PartialEq, Eq)]
pub struct HyleOutput {
    pub version: u32,
    pub initial_state: StateDigest,
    pub next_state: StateDigest,
    pub identity: Identity,
    pub tx_hash: TxHash,
    pub index: BlobIndex,
    pub blobs: Vec<u8>,
    pub success: bool,
}

/// `list` without any occurrence of `tx`, order kept.
pub open spec fn without(list: Seq<Seq<char>>, tx: Seq<char>) -> Seq<Seq<char>> {
    list.filter(|h: Seq<char>| h != tx)
}

/// Copy of `list` without the hashes equal to `tx`.
pub fn remove_tx(list: &Vec<TxHash>, tx: &TxHash) -> (res: Vec<TxHash>)
    ensures
        hashes_view(res@) == without(hashes_view(list@), tx@),
{
    let mut res: Vec<TxHash> = Vec::new();
    let mut i: usize = 0;
    while i < list.len()
        invariant
            i <= list@.len(),
            hashes_view(res@) == without(hashes_view(list@).take(i as int), tx@),
        decreases list@.len() - i,
    {
        let ghost before = res@;
        let ghost prefix = hashes_view(list@).take(i as int);
        let ghost next = hashes_view(list@).take(i + 1);
        proof {
            assert(next.drop_last() =~= prefix);
            assert(next.last() == list@[i as int]@);
            reveal(Seq::filter);
        }
        if list[i].0 != tx.0 {
            res.push(list[i].copy());
            proof {
                assert(hashes_view(res@) =~= hashes_view(before).push(list@[i as int]@));
            }
        }
        i = i + 1;
    }
    proof {
        assert(hashes_view(list@).take(list@.len() as int) =~= hashes_view(list@));
    }
    res
}

/// Timeouts indexed both by transaction and by block.
#[derive(Debug, Clone)]
pub struct Timeouts {
    by_tx_hash: StrMap<BlockHeight>,
    by_block: HashMap<u64, Vec<TxHash>>,
}

impl Timeouts {
    /// For each transaction, the block at which it times out.
    pub closed spec fn by_tx(&self) -> Map<Seq<char>, u64> {
        self.by_tx_hash.view().map_values(|h: BlockHeight| h.0)
    }

    /// For each block, the transactions that time out there.
    pub closed spec fn by_block(&self) -> Map<u64, Seq<Seq<char>>> {
        lists_view(self.by_block@)
    }

    pub closed spec fn wf(&self) -> bool {
        self.by_tx_hash.wf()
    }

    pub fn default() -> (res: Timeouts)
        ensures
            res.wf(),
            res.by_tx() == Map::<Seq<char>, u64>::empty(),
            res.by_block() == Map::<u64, Seq<Seq<char>>>::empty(),
    {
        let res = Timeouts { by_tx_hash: StrMap::new(), by_block: HashMap::new() };
        assert(res.by_tx() =~= Map::<Seq<char>, u64>::empty());
        assert(res.by_block() =~= Map::<u64, Seq<Seq<char>>>::empty());
        res
    }

    /// Removes the transactions timing out at `at` and returns them; the
    /// transactions indexed at `at` are forgotten too.
    pub fn drop(&mut self, at: &BlockHeight) -> (res: Vec<TxHash>)
        requires
            old(self).wf(),
        ensures
            final(self).wf(),
            final(self).by_block() == old(self).by_block().remove(at.0),
            final(self).by_tx() == if old(self).by_block().contains_key(at.0) {
                old(self).by_tx().restrict(old(self).by_tx().dom().filter(|k: Seq<char>| old(self).by_tx()[k] != at.0))
            } else {
                old(self).by_tx()
            },
            hashes_view(res@) == if old(self).by_block().contains_key(at.0) {
                old(self).by_block()[at.0]
            } else {
                Seq::<Seq<char>>::empty()
            },
    {
        let ghost before = self.by_block@;
        match self.by_block.remove(&at.0) {
            Some(v) => {
                proof {
                    assert(lists_view(self.by_block@) =~= lists_view(before).remove(at.0));
                }
                let ghost old_tx = self.by_tx();
                self.by_tx_hash = keep_other_heights(&self.by_tx_hash, at.0);
                proof {
                    assert(self.by_tx() =~= old_tx.restrict(old_tx.dom().filter(|k: Seq<char>| old_tx[k] != at.0)));
                }
                v
            },
            None => {
                proof {
                    assert(lists_view(self.by_block@) =~= lists_view(before).remove(at.0));
                    assert(hashes_view(Seq::<TxHash>::empty()) =~= Seq::<Seq<char>>::empty());
                }
                Vec::new()
            },
        }
    }

    /// The transactions timing out at `at`, if any.
    pub fn list_timeouts(&self, at: &BlockHeight) -> (res: Option<&Vec<TxHash>>)
        ensures
            match res {
                Some(v) => self.by_block().contains_key(at.0) && hashes_view(v@) == self.by_block()[at.0],
                None => !self.by_block().contains_key(at.0),
            },
    {
        self.by_block.get(&at.0)
    }

    /// The block at which `tx` times out, if any.
    pub fn get(&self, tx: &TxHash) -> (res: Option<&BlockHeight>)
        requires
            self.wf(),
        ensures
            match res {
                Some(h) => self.by_tx().contains_key(tx@) && h.0 == self.by_tx()[tx@],
                None => !self.by_tx().contains_key(tx@),
            },
    {
        self.by_tx_hash.get(&tx.0)
    }

    /// Sets `tx` to time out at `at`, replacing the timeout it had before.
    pub fn set(&mut self, tx: TxHash, at: BlockHeight)
        requires
            old(self).wf(),
        ensures
            final(self).wf(),
            final(self).by_tx() == old(self).by_tx().insert(tx@, at.0),
            final(self).by_block() == set_block_lists(old(self).by_block(), old(self).by_tx(), tx@, at.0),
    {
        let ghost b0 = self.by_block();
        let ghost t0 = self.by_tx();
        let ghost txv = tx@;
        let existing = match self.get(&tx) {
            Some(h) => Some(*h),
            None => None,
        };
        if let Some(e) = existing {
            let ghost before = self.by_block@;
            if let Some(list) = self.by_block.remove(&e.0) {
                let kept = remove_tx(&list, &tx);
                self.by_block.insert(e.0, kept);
            }
            proof {
                assert(lists_view(self.by_block@) =~= without_at(b0, e.0, txv));
            }
        } else {
            proof {
                assert(self.by_block() =~= b0);
            }
        }
        let ghost b1 = self.by_block();
        self.by_tx_hash.insert(copy_hash(&tx), at);
        proof {
            assert(self.by_tx() =~= t0.insert(txv, at.0));
        }
        let ghost before = self.by_block@;
        let mut list = match self.by_block.remove(&at.0) {
            Some(v) => v,
            None => Vec::new(),
        };
        let ghost old_list = list@;
        list.push(tx);
        proof {
            assert(hashes_view(list@) =~= hashes_view(old_list).push(txv));
            if !before.contains_key(at.0) {
                assert(hashes_view(old_list) =~= Seq::<Seq<char>>::empty());
            }
        }
        self.by_block.insert(at.0, list);
        proof {
            assert(self.by_block() =~= push_at(b1, at.0, txv));
        }
    }
}

/// `lists` where the list at `at` no longer holds `tx`.
pub open spec fn without_at(lists: Map<u64, Seq<Seq<char>>>, at: u64, tx: Seq<char>) -> Map<u64, Seq<Seq<char>>> {
    if lists.contains_key(at) {
        lists.insert(at, without(lists[at], tx))
    } else {
        lists
    }
}

/// `lists` where `tx` is appended to the list at `at` (an empty list if there was none).
pub open spec fn push_at(lists: Map<u64, Seq<Seq<char>>>, at: u64, tx: Seq<char>) -> Map<u64, Seq<Seq<char>>> {
    lists.insert(at, if lists.contains_key(at) { lists[at] } else { Seq::<Seq<char>>::empty() }.push(tx))
}

/// The block lists after setting `tx` to time out at `at`: it leaves the list
/// of its former timeout, if any, and joins the list at `at`.
pub open spec fn set_block_lists(
    lists: Map<u64, Seq<Seq<char>>>,
    by_tx: Map<Seq<char>, u64>,
    tx: Seq<char>,
    at: u64,
) -> Map<u64, Seq<Seq<char>>> {
    let cleared = if by_tx.contains_key(tx) { without_at(lists, by_tx[tx], tx) } else { lists };
    push_at(cleared, at, tx)
}

/// The elements of `s.push(x)` are those of `s` and `x`.
pub proof fn lemma_push_to_set<A>(s: Seq<A>, x: A)
    ensures
        s.push(x).to_set() == s.to_set().insert(x),
{
    assert forall|y: A| #[trigger] s.push(x).to_set().contains(y) == s.to_set().insert(x).contains(y) by {
        if s.to_set().contains(y) {
            let j = choose|j: int| 0 <= j < s.len() && s[j] == y;
            assert(s.push(x)[j] == y);
        }
        if y == x {
            assert(s.push(x)[s.len() as int] == y);
        }
        if s.push(x).to_set().contains(y) && y != x {
            let j = choose|j: int| 0 <= j < s.push(x).len() && s.push(x)[j] == y;
            assert(s[j] == y);
        }
    }
    assert(s.push(x).to_set() =~= s.to_set().insert(x));
}

fn copy_hash(tx: &TxHash) -> (res: String)
    ensures
        res@ == tx@,
{
    crate::model::copy_string(&tx.0)
}

/// The entries of `m` whose height is not `at`.
fn keep_other_heights(m: &StrMap<BlockHeight>, at: u64) -> (res: StrMap<BlockHeight>)
    requires
        m.wf(),
    ensures
        res.wf(),
        res.view() == m.view().restrict(m.view().dom().filter(|k: Seq<char>| m.view()[k].0 != at)),
{
    let mut res: StrMap<BlockHeight> = StrMap::new();
    let n = m.len();
    proof {
        m.lemma_dom();
    }
    let mut i: usize = 0;
    while i < n
        invariant
            m.wf(),
            res.wf(),
            n == m.key_seq().len(),
            i <= n,
            res.view() == m.view().restrict(
                m.key_seq().take(i as int).to_set().filter(|k: Seq<char>| m.view()[k].0 != at),
            ),
        decreases n - i,
    {
        let k = m.key_at(i);
        let v = m.val_at(i);
        proof {
            m.lemma_view_at(i as int);
        }
        let ghost before = res.view();
        let ghost kv = k@;
        if v.0 != at {
            res.insert(crate::model::copy_string(k), *v);
        }
        proof {
            assert(m.key_seq().take(i + 1) =~= m.key_seq().take(i as int).push(kv));
            lemma_push_to_set(m.key_seq().take(i as int), kv);
            assert(res.view() =~= m.view().restrict(
                m.key_seq().take(i + 1).to_set().filter(|k: Seq<char>| m.view()[k].0 != at),
            ));
        }
        i = i + 1;
    }
    proof {
        assert(m.key_seq().take(n as int) =~= m.key_seq());
        assert(m.key_seq().to_set() =~= m.view().dom());
    }
    res
}

} // verus!

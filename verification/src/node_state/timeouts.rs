//! Timeouts of unsettled transactions, grouped by the block at which they fire.

use crate::model::{BlockHeight, TxHash};
use std::collections::HashMap;
use vstd::prelude::*;
use vstd::std_specs::hash::group_hash_axioms;

verus! {

broadcast use group_hash_axioms;

/// The characters of each hash of a sequence.
pub open spec fn hashes_view(v: Seq<TxHash>) -> Seq<Seq<char>> {
    v.map_values(|h: TxHash| h@)
}

/// Each list of a map of lists, as its hashes.
pub open spec fn lists_view(m: Map<u64, Vec<TxHash>>) -> Map<u64, Seq<Seq<char>>> {
    m.map_values(|v: Vec<TxHash>| hashes_view(v@))
}

/// The transactions of `m` that time out at `at`, in the order their
/// timeouts were set.
pub open spec fn timeouts_at(m: Map<u64, Seq<Seq<char>>>, at: u64) -> Seq<Seq<char>> {
    if m.contains_key(at) {
        m[at]
    } else {
        Seq::empty()
    }
}

/// `m` once `tx` is also set to time out at `at`.
pub open spec fn with_timeout(m: Map<u64, Seq<Seq<char>>>, at: u64, tx: Seq<char>) -> Map<u64, Seq<Seq<char>>> {
    m.insert(at, timeouts_at(m, at).push(tx))
}

/// A transaction set to time out at `at` is among those dropped at `at`,
/// after those set there before it.
pub proof fn lemma_set_then_drop(m: Map<u64, Seq<Seq<char>>>, at: u64, tx: Seq<char>)
    ensures
        timeouts_at(with_timeout(m, at, tx), at) == timeouts_at(m, at).push(tx),
        timeouts_at(with_timeout(m, at, tx), at).contains(tx),
{
    assert(timeouts_at(m, at).push(tx)[timeouts_at(m, at).len() as int] == tx);
}

/// Setting a timeout at one height leaves the other heights as they were.
pub proof fn lemma_set_elsewhere(m: Map<u64, Seq<Seq<char>>>, at: u64, other: u64, tx: Seq<char>)
    requires
        at != other,
    ensures
        timeouts_at(with_timeout(m, at, tx), other) == timeouts_at(m, other),
{
}

/// Once the timeouts of a height are dropped, none is left there.
pub proof fn lemma_drop_clears(m: Map<u64, Seq<Seq<char>>>, at: u64)
    ensures
        timeouts_at(m.remove(at), at) == Seq::<Seq<char>>::empty(),
{
}

/// The number of blocks a transaction waits before it times out.
pub open spec fn default_timeout_window() -> u64 {
    100
}

#[derive(Debug, Clone)]
pub struct Timeouts {
    timeout_window: BlockHeight,
    by_block: HashMap<u64, Vec<TxHash>>,
}

impl Timeouts {
    /// Number of blocks after which a transaction times out.
    pub closed spec fn window(&self) -> u64 {
        self.timeout_window.0
    }

    /// For each block height, the transactions that time out there, in the
    /// order their timeouts were set.
    pub closed spec fn by_block(&self) -> Map<u64, Seq<Seq<char>>> {
        lists_view(self.by_block@)
    }

    pub fn default() -> (res: Timeouts)
        ensures
            res.window() == default_timeout_window(),
            res.by_block() == Map::<u64, Seq<Seq<char>>>::empty(),
    {
        let res = Timeouts { timeout_window: BlockHeight(100), by_block: HashMap::new() };
        assert(res.by_block() =~= Map::<u64, Seq<Seq<char>>>::empty());
        res
    }

    /// Removes and returns the transactions that time out at `at`.
    pub fn drop(&mut self, at: &BlockHeight) -> (res: Vec<TxHash>)
        ensures
            final(self).window() == old(self).window(),
            final(self).by_block() == old(self).by_block().remove(at.0),
            hashes_view(res@) == timeouts_at(old(self).by_block(), at.0),
    {
        let ghost before = self.by_block@;
        let res = match self.by_block.remove(&at.0) {
            Some(v) => v,
            None => Vec::new(),
        };
        proof {
            assert(lists_view(self.by_block@) =~= lists_view(before).remove(at.0));
            assert(hashes_view(Seq::<TxHash>::empty()) =~= Seq::<Seq<char>>::empty());
        }
        res
    }

    /// Sets `tx` to time out `window()` blocks after `block_height`. A
    /// timeout already set for `tx` elsewhere is left in place.
    pub fn set(&mut self, tx: TxHash, block_height: BlockHeight)
        requires
            block_height.0 + old(self).window() <= u64::MAX,
        ensures
            final(self).window() == old(self).window(),
            final(self).by_block() == with_timeout(old(self).by_block(), (block_height.0 + old(self).window()) as u64, tx@),
    {
        let at = block_height.0 + self.timeout_window.0;
        let ghost before = self.by_block@;
        let ghost txv = tx@;
        let mut list = match self.by_block.remove(&at) {
            Some(v) => v,
            None => Vec::new(),
        };
        let ghost old_list = list@;
        list.push(tx);
        proof {
            assert(hashes_view(list@) =~= hashes_view(old_list).push(txv));
            if !before.contains_key(at) {
                assert(hashes_view(old_list) =~= Seq::<Seq<char>>::empty());
            }
        }
        self.by_block.insert(at, list);
        proof {
            assert(lists_view(self.by_block@) =~= lists_view(before).insert(
                at,
                if lists_view(before).contains_key(at) {
                    lists_view(before)[at]
                } else {
                    Seq::<Seq<char>>::empty()
                }.push(txv),
            ));
        }
    }

    /// Sets `tx` to time out at height `at`. A timeout already set for `tx`
    /// elsewhere is left in place.
    pub fn set_at(&mut self, tx: TxHash, at: u64)
        ensures
            final(self).window() == old(self).window(),
            final(self).by_block() == with_timeout(old(self).by_block(), at, tx@),
    {
        let ghost before = self.by_block@;
        let ghost txv = tx@;
        let mut list = match self.by_block.remove(&at) {
            Some(v) => v,
            None => Vec::new(),
        };
        let ghost old_list = list@;
        list.push(tx);
        proof {
            assert(hashes_view(list@) =~= hashes_view(old_list).push(txv));
            if !before.contains_key(at) {
                assert(hashes_view(old_list) =~= Seq::<Seq<char>>::empty());
            }
        }
        self.by_block.insert(at, list);
        proof {
            assert(lists_view(self.by_block@) =~= lists_view(before).insert(
                at,
                if lists_view(before).contains_key(at) {
                    lists_view(before)[at]
                } else {
                    Seq::<Seq<char>>::empty()
                }.push(txv),
            ));
        }
    }

    /// The transactions that time out at `at`, if any.
    pub fn list_timeouts(&self, at: BlockHeight) -> (res: Option<&Vec<TxHash>>)
        ensures
            match res {
                Some(v) => self.by_block().contains_key(at.0) && hashes_view(v@) == self.by_block()[at.0],
                None => !self.by_block().contains_key(at.0),
            },
    {
        self.by_block.get(&at.0)
    }

    /// A block at which `tx` times out, if there is one.
    pub fn find(&self, tx: &TxHash) -> (res: Option<BlockHeight>)
        ensures
            match res {
                Some(h) => self.by_block().contains_key(h.0) && self.by_block()[h.0].contains(tx@),
                None => forall|k: u64| #[trigger] self.by_block().contains_key(k) ==> !self.by_block()[k].contains(tx@),
            },
    {
        let ghost m = self.by_block@;
        for entry in it: self.by_block.iter()
            invariant
                m == self.by_block@,
                it.seq().len() == m.dom().len(),
                forall|j: int| 0 <= j < it.seq().len() ==> m.contains_key(*it.seq()[j].0) && m[*it.seq()[j].0] == *it.seq()[j].1,
                forall|k: u64| #[trigger] m.contains_key(k) ==> exists|j: int| 0 <= j < it.seq().len() && *it.seq()[j].0 == k
                    && (j >= it.index() || !hashes_view(m[k]@).contains(tx@)),
        {
            let (k, v) = entry;
            if contains_tx(v, tx) {
                return Some(BlockHeight(*k));
            }
        }
        proof {
            assert forall|k: u64| #[trigger] self.by_block().contains_key(k) implies !self.by_block()[k].contains(tx@) by {
                assert(m.contains_key(k));
            }
        }
        None
    }

    /// The number of blocks after which a transaction times out.
    pub fn get_timeout_window(&self) -> (res: BlockHeight)
        ensures
            res.0 == self.window(),
    {
        self.timeout_window
    }
}

/// Whether `list` holds `tx`.
pub fn contains_tx(list: &Vec<TxHash>, tx: &TxHash) -> (res: bool)
    ensures
        res == hashes_view(list@).contains(tx@),
{
    let mut i: usize = 0;
    while i < list.len()
        invariant
            i <= list@.len(),
            forall|j: int| 0 <= j < i ==> hashes_view(list@)[j] != tx@,
        decreases list@.len() - i,
    {
        if list[i].0 == tx.0 {
            assert(hashes_view(list@)[i as int] == tx@);
            return true;
        }
        i = i + 1;
    }
    false
}

} // verus!

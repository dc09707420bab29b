//! Unsettled transactions, with for each contract the order in which its
//! transactions must settle.

use crate::model::{BlobsHash, ContractName, TxHash};
use crate::node_state::model::{without, UnsettledBlobMetadata, UnsettledTransaction};
use crate::str_map::StrMap;
use vstd::prelude::*;

verus! {

/// The characters of each blobs hash of a sequence.
pub open spec fn blobs_hashes_view(v: Seq<BlobsHash>) -> Seq<Seq<char>> {
    v.map_values(|h: BlobsHash| h@)
}

/// The contract of each blob, in blob order.
pub open spec fn blob_contracts(blobs: Seq<UnsettledBlobMetadata>) -> Seq<Seq<char>> {
    blobs.map_values(|b: UnsettledBlobMetadata| b.contract_name@)
}

/// The queue of contract `c`, empty when it has none.
pub open spec fn queue_of(order: Map<Seq<char>, Seq<Seq<char>>>, c: Seq<char>) -> Seq<Seq<char>> {
    if order.contains_key(c) {
        order[c]
    } else {
        Seq::empty()
    }
}

/// Appends `h` to the queue of each contract of `names`, in turn.
pub open spec fn append_to_queues(
    order: Map<Seq<char>, Seq<Seq<char>>>,
    names: Seq<Seq<char>>,
    h: Seq<char>,
) -> Map<Seq<char>, Seq<Seq<char>>>
    decreases names.len(),
{
    if names.len() == 0 {
        order
    } else {
        let o = append_to_queues(order, names.drop_last(), h);
        o.insert(names.last(), queue_of(o, names.last()).push(h))
    }
}

/// Removes `h` from the existing queue of each contract of `names`.
pub open spec fn drop_from_queues(
    order: Map<Seq<char>, Seq<Seq<char>>>,
    names: Seq<Seq<char>>,
    h: Seq<char>,
) -> Map<Seq<char>, Seq<Seq<char>>>
    decreases names.len(),
{
    if names.len() == 0 {
        order
    } else {
        let o = drop_from_queues(order, names.drop_last(), h);
        if o.contains_key(names.last()) {
            o.insert(names.last(), without(o[names.last()], h))
        } else {
            o
        }
    }
}

/// A transaction is next to settle when it is first in the queue of each
/// of its contracts that has a non-empty queue.
pub open spec fn next_to_settle(
    txs: Map<Seq<char>, UnsettledTransaction>,
    order: Map<Seq<char>, Seq<Seq<char>>>,
    h: Seq<char>,
) -> bool {
    &&& txs.contains_key(h)
    &&& forall|i: int| 0 <= i < txs[h].blobs@.len() ==> {
        let c = #[trigger] txs[h].blobs@[i].contract_name@;
        order.contains_key(c) && order[c].len() > 0 ==> order[c][0] == h
    }
}

/// Copy of `list` without the hashes equal to `h`.
fn remove_blobs_hash(list: &Vec<BlobsHash>, h: &BlobsHash) -> (res: Vec<BlobsHash>)
    ensures
        blobs_hashes_view(res@) == without(blobs_hashes_view(list@), h@),
{
    let mut res: Vec<BlobsHash> = Vec::new();
    let mut i: usize = 0;
    while i < list.len()
        invariant
            i <= list@.len(),
            blobs_hashes_view(res@) == without(blobs_hashes_view(list@).take(i as int), h@),
        decreases list@.len() - i,
    {
        let ghost before = res@;
        let ghost prefix = blobs_hashes_view(list@).take(i as int);
        let ghost next = blobs_hashes_view(list@).take(i + 1);
        proof {
            assert(next.drop_last() =~= prefix);
            assert(next.last() == list@[i as int]@);
            reveal(Seq::filter);
        }
        if list[i].0 != h.0 {
            res.push(list[i].copy());
            proof {
                assert(blobs_hashes_view(res@) =~= blobs_hashes_view(before).push(list@[i as int]@));
            }
        }
        i = i + 1;
    }
    proof {
        assert(blobs_hashes_view(list@).take(list@.len() as int) =~= blobs_hashes_view(list@));
    }
    res
}

/// Unsettled transactions by blobs hash, the blobs hash of each transaction
/// hash (separately for fee-paying and regular transactions), and for each
/// contract the queue of transactions that must settle in order.
#[derive(Debug, Clone)]
pub struct OrderedTxMap {
    map: StrMap<UnsettledTransaction>,
    blobs_hash_for_fees: StrMap<BlobsHash>,
    blobs_hash_for_blobs: StrMap<BlobsHash>,
    tx_order: StrMap<Vec<BlobsHash>>,
}

impl OrderedTxMap {
    pub closed spec fn wf(&self) -> bool {
        &&& self.map.wf()
        &&& self.blobs_hash_for_fees.wf()
        &&& self.blobs_hash_for_blobs.wf()
        &&& self.tx_order.wf()
    }

    /// Unsettled transactions by blobs hash.
    pub closed spec fn txs(&self) -> Map<Seq<char>, UnsettledTransaction> {
        self.map.view()
    }

    /// Blobs hash of each fee-paying transaction, by transaction hash.
    pub closed spec fn fees_index(&self) -> Map<Seq<char>, Seq<char>> {
        self.blobs_hash_for_fees.view().map_values(|h: BlobsHash| h@)
    }

    /// Blobs hash of each regular transaction, by transaction hash.
    pub closed spec fn blobs_index(&self) -> Map<Seq<char>, Seq<char>> {
        self.blobs_hash_for_blobs.view().map_values(|h: BlobsHash| h@)
    }

    /// For each contract, the blobs hashes of its transactions in arrival order.
    pub closed spec fn order(&self) -> Map<Seq<char>, Seq<Seq<char>>> {
        self.tx_order.view().map_values(|v: Vec<BlobsHash>| blobs_hashes_view(v@))
    }

    pub fn default() -> (res: OrderedTxMap)
        ensures
            res.wf(),
            res.txs() == Map::<Seq<char>, UnsettledTransaction>::empty(),
            res.fees_index() == Map::<Seq<char>, Seq<char>>::empty(),
            res.blobs_index() == Map::<Seq<char>, Seq<char>>::empty(),
            res.order() == Map::<Seq<char>, Seq<Seq<char>>>::empty(),
    {
        let res = OrderedTxMap {
            map: StrMap::new(),
            blobs_hash_for_fees: StrMap::new(),
            blobs_hash_for_blobs: StrMap::new(),
            tx_order: StrMap::new(),
        };
        assert(res.fees_index() =~= Map::<Seq<char>, Seq<char>>::empty());
        assert(res.blobs_index() =~= Map::<Seq<char>, Seq<char>>::empty());
        assert(res.order() =~= Map::<Seq<char>, Seq<Seq<char>>>::empty());
        res
    }

    pub fn get(&self, hash: &BlobsHash) -> (res: Option<&UnsettledTransaction>)
        requires
            self.wf(),
        ensures
            match res {
                Some(tx) => self.txs().contains_key(hash@) && *tx == self.txs()[hash@],
                None => !self.txs().contains_key(hash@),
            },
    {
        self.map.get(&hash.0)
    }

    pub fn get_for(&self, hash: &TxHash, fees: bool) -> (res: Option<&UnsettledTransaction>)
        requires
            self.wf(),
        ensures
            res == if fees { self.spec_get_via(self.fees_index(), hash@) } else { self.spec_get_via(self.blobs_index(), hash@) },
    {
        if fees {
            self.get_for_fees(hash)
        } else {
            self.get_for_blobs(hash)
        }
    }

    /// The transaction found through `index` from transaction hash `h`.
    pub open spec fn spec_get_via(&self, index: Map<Seq<char>, Seq<char>>, h: Seq<char>) -> Option<&UnsettledTransaction> {
        if index.contains_key(h) && self.txs().contains_key(index[h]) {
            Some(&self.txs()[index[h]])
        } else {
            None
        }
    }

    pub fn get_for_blobs(&self, hash: &TxHash) -> (res: Option<&UnsettledTransaction>)
        requires
            self.wf(),
        ensures
            res == self.spec_get_via(self.blobs_index(), hash@),
    {
        match self.blobs_hash_for_blobs.get(&hash.0) {
            Some(h) => self.map.get(&h.0),
            None => None,
        }
    }

    pub fn get_for_fees(&self, hash: &TxHash) -> (res: Option<&UnsettledTransaction>)
        requires
            self.wf(),
        ensures
            res == self.spec_get_via(self.fees_index(), hash@),
    {
        match self.blobs_hash_for_fees.get(&hash.0) {
            Some(h) => self.map.get(&h.0),
            None => None,
        }
    }

    pub fn len(&self) -> (res: usize)
        requires
            self.wf(),
        ensures
            res == self.txs().len(),
    {
        self.map.len()
    }

    /// Number of contracts that have a queue.
    pub fn order_count(&self) -> (res: usize)
        requires
            self.wf(),
        ensures
            res == self.order().len(),
    {
        proof {
            assert(self.order().dom() =~= self.tx_order.view().dom());
        }
        self.tx_order.len()
    }

    /// The queue of `contract`, if it has one.
    pub fn order_of(&self, contract: &ContractName) -> (res: Option<&Vec<BlobsHash>>)
        requires
            self.wf(),
        ensures
            match res {
                Some(q) => self.order().contains_key(contract@) && blobs_hashes_view(q@) == self.order()[contract@],
                None => !self.order().contains_key(contract@),
            },
    {
        self.tx_order.get(&contract.0)
    }

    /// Appends `h` to the queue of `contract`.
    fn push_to_queue(&mut self, contract: &ContractName, h: &BlobsHash)
        requires
            old(self).wf(),
        ensures
            final(self).wf(),
            final(self).txs() == old(self).txs(),
            final(self).fees_index() == old(self).fees_index(),
            final(self).blobs_index() == old(self).blobs_index(),
            final(self).order() == old(self).order().insert(contract@, queue_of(old(self).order(), contract@).push(h@)),
    {
        let ghost o = self.order();
        let mut q = match self.tx_order.remove(&contract.0) {
            Some(q) => q,
            None => Vec::new(),
        };
        let ghost q0 = q@;
        q.push(h.copy());
        proof {
            assert(blobs_hashes_view(q@) =~= blobs_hashes_view(q0).push(h@));
            if !o.contains_key(contract@) {
                assert(blobs_hashes_view(q0) =~= Seq::<Seq<char>>::empty());
            }
        }
        self.tx_order.insert(contract.copy().0, q);
        proof {
            assert(self.order() =~= o.insert(contract@, queue_of(o, contract@).push(h@)));
        }
    }

    /// Removes `h` from the queue of `contract`, if it has one.
    fn drop_from_queue(&mut self, contract: &ContractName, h: &BlobsHash)
        requires
            old(self).wf(),
        ensures
            final(self).wf(),
            final(self).txs() == old(self).txs(),
            final(self).fees_index() == old(self).fees_index(),
            final(self).blobs_index() == old(self).blobs_index(),
            final(self).order() == if old(self).order().contains_key(contract@) {
                old(self).order().insert(contract@, without(old(self).order()[contract@], h@))
            } else {
                old(self).order()
            },
    {
        let ghost o = self.order();
        match self.tx_order.remove(&contract.0) {
            Some(q) => {
                let kept = remove_blobs_hash(&q, h);
                self.tx_order.insert(contract.copy().0, kept);
                proof {
                    assert(self.order() =~= o.insert(contract@, without(o[contract@], h@)));
                }
            },
            None => {
                proof {
                    assert(self.order() =~= o);
                }
            },
        }
    }

    /// Adds `tx` unless a transaction with the same blobs hash is present.
    /// Its blobs hash joins the queue of the contract of each of its blobs.
    pub fn add(&mut self, tx: UnsettledTransaction, fees: bool)
        requires
            old(self).wf(),
        ensures
            final(self).wf(),
            old(self).txs().contains_key(tx.blobs_hash@) ==> final(self).txs() == old(self).txs()
                && final(self).fees_index() == old(self).fees_index()
                && final(self).blobs_index() == old(self).blobs_index()
                && final(self).order() == old(self).order(),
            !old(self).txs().contains_key(tx.blobs_hash@) ==> {
                &&& final(self).txs() == old(self).txs().insert(tx.blobs_hash@, tx)
                &&& final(self).order() == append_to_queues(old(self).order(), blob_contracts(tx.blobs@), tx.blobs_hash@)
                &&& fees ==> final(self).fees_index() == old(self).fees_index().insert(tx.tx_hash@, tx.blobs_hash@)
                    && final(self).blobs_index() == old(self).blobs_index()
                &&& !fees ==> final(self).blobs_index() == old(self).blobs_index().insert(tx.tx_hash@, tx.blobs_hash@)
                    && final(self).fees_index() == old(self).fees_index()
            },
    {
        if self.map.contains_key(&tx.blobs_hash.0) {
            return;
        }
        let ghost o0 = self.order();
        let ghost names = blob_contracts(tx.blobs@);
        let mut i: usize = 0;
        while i < tx.blobs.len()
            invariant
                self.wf(),
                i <= tx.blobs@.len(),
                names == blob_contracts(tx.blobs@),
                self.txs() == old(self).txs(),
                self.fees_index() == old(self).fees_index(),
                self.blobs_index() == old(self).blobs_index(),
                self.order() == append_to_queues(o0, names.take(i as int), tx.blobs_hash@),
            decreases tx.blobs@.len() - i,
        {
            self.push_to_queue(&tx.blobs[i].contract_name, &tx.blobs_hash);
            proof {
                assert(names.take(i + 1).drop_last() =~= names.take(i as int));
                assert(names.take(i + 1).last() == tx.blobs@[i as int].contract_name@);
            }
            i = i + 1;
        }
        proof {
            assert(names.take(tx.blobs@.len() as int) =~= names);
        }
        let ghost f0 = self.fees_index();
        let ghost b0 = self.blobs_index();
        if fees {
            self.blobs_hash_for_fees.insert(tx.tx_hash.copy().0, tx.blobs_hash.copy());
            proof {
                assert(self.fees_index() =~= f0.insert(tx.tx_hash@, tx.blobs_hash@));
            }
        } else {
            self.blobs_hash_for_blobs.insert(tx.tx_hash.copy().0, tx.blobs_hash.copy());
            proof {
                assert(self.blobs_index() =~= b0.insert(tx.tx_hash@, tx.blobs_hash@));
            }
        }
        let key = tx.blobs_hash.copy().0;
        self.map.insert(key, tx);
    }

    /// Removes `h` from the queues of the contracts of `blobs`.
    fn drop_from_queues_of(&mut self, blobs: &Vec<UnsettledBlobMetadata>, h: &BlobsHash)
        requires
            old(self).wf(),
        ensures
            final(self).wf(),
            final(self).txs() == old(self).txs(),
            final(self).fees_index() == old(self).fees_index(),
            final(self).blobs_index() == old(self).blobs_index(),
            final(self).order() == drop_from_queues(old(self).order(), blob_contracts(blobs@), h@),
    {
        let ghost names = blob_contracts(blobs@);
        let mut i: usize = 0;
        while i < blobs.len()
            invariant
                self.wf(),
                i <= blobs@.len(),
                names == blob_contracts(blobs@),
                self.txs() == old(self).txs(),
                self.fees_index() == old(self).fees_index(),
                self.blobs_index() == old(self).blobs_index(),
                self.order() == drop_from_queues(old(self).order(), names.take(i as int), h@),
            decreases blobs@.len() - i,
        {
            self.drop_from_queue(&blobs[i].contract_name, h);
            proof {
                assert(names.take(i + 1).drop_last() =~= names.take(i as int));
                assert(names.take(i + 1).last() == blobs@[i as int].contract_name@);
            }
            i = i + 1;
        }
        proof {
            assert(names.take(blobs@.len() as int) =~= names);
        }
    }

    /// Removes the transaction with blobs hash `hash`: it leaves the queues
    /// of its contracts and both transaction-hash indexes.
    pub fn remove(&mut self, hash: &BlobsHash)
        requires
            old(self).wf(),
        ensures
            final(self).wf(),
            final(self).txs() == old(self).txs().remove(hash@),
            old(self).txs().contains_key(hash@) ==> {
                let tx = old(self).txs()[hash@];
                &&& final(self).order() == drop_from_queues(old(self).order(), blob_contracts(tx.blobs@), hash@)
                &&& final(self).blobs_index() == old(self).blobs_index().remove(tx.tx_hash@)
                &&& final(self).fees_index() == old(self).fees_index().remove(tx.tx_hash@)
            },
            !old(self).txs().contains_key(hash@) ==> final(self).order() == old(self).order()
                && final(self).blobs_index() == old(self).blobs_index()
                && final(self).fees_index() == old(self).fees_index(),
    {
        match self.map.remove(&hash.0) {
            Some(tx) => {
                self.drop_from_queues_of(&tx.blobs, hash);
                let ghost b0 = self.blobs_index();
                let ghost f0 = self.fees_index();
                self.blobs_hash_for_blobs.remove(&tx.tx_hash.0);
                self.blobs_hash_for_fees.remove(&tx.tx_hash.0);
                proof {
                    assert(self.blobs_index() =~= b0.remove(tx.tx_hash@));
                    assert(self.fees_index() =~= f0.remove(tx.tx_hash@));
                }
            },
            None => {},
        }
    }

    /// Removes the regular transaction with transaction hash `hash`: its
    /// blobs hash leaves the queues of its contracts, and it leaves the map.
    /// The fee index is left as it is.
    pub fn remove_for_blob(&mut self, hash: &TxHash)
        requires
            old(self).wf(),
        ensures
            final(self).wf(),
            final(self).blobs_index() == old(self).blobs_index().remove(hash@),
            final(self).fees_index() == old(self).fees_index(),
            old(self).blobs_index().contains_key(hash@) ==> {
                let bh = old(self).blobs_index()[hash@];
                &&& final(self).txs() == old(self).txs().remove(bh)
                &&& final(self).order() == if old(self).txs().contains_key(bh) {
                    drop_from_queues(old(self).order(), blob_contracts(old(self).txs()[bh].blobs@), old(self).txs()[bh].blobs_hash@)
                } else {
                    old(self).order()
                }
            },
            !old(self).blobs_index().contains_key(hash@) ==> final(self).txs() == old(self).txs()
                && final(self).order() == old(self).order(),
    {
        let ghost b0 = self.blobs_index();
        let removed = self.blobs_hash_for_blobs.remove(&hash.0);
        proof {
            assert(self.blobs_index() =~= b0.remove(hash@));
        }
        match removed {
            Some(bh) => {
                match self.map.remove(&bh.0) {
                    Some(tx) => {
                        self.drop_from_queues_of(&tx.blobs, &tx.blobs_hash);
                    },
                    None => {},
                }
            },
            None => {},
        }
    }

    /// Whether the transaction with blobs hash `tx` is first in the queue
    /// of each of its contracts.
    pub fn is_next_unsettled_tx(&self, tx: &BlobsHash) -> (res: bool)
        requires
            self.wf(),
        ensures
            res == next_to_settle(self.txs(), self.order(), tx@),
    {
        match self.get(tx) {
            Some(unsettled_tx) => {
                let mut i: usize = 0;
                while i < unsettled_tx.blobs.len()
                    invariant
                        self.wf(),
                        self.txs().contains_key(tx@),
                        *unsettled_tx == self.txs()[tx@],
                        i <= unsettled_tx.blobs@.len(),
                        forall|j: int| 0 <= j < i ==> {
                            let c = #[trigger] self.txs()[tx@].blobs@[j].contract_name@;
                            self.order().contains_key(c) && self.order()[c].len() > 0 ==> self.order()[c][0] == tx@
                        },
                    decreases unsettled_tx.blobs@.len() - i,
                {
                    if let Some(order) = self.tx_order.get(&unsettled_tx.blobs[i].contract_name.0) {
                        if order.len() > 0 {
                            proof {
                                assert(blobs_hashes_view(order@)[0] == order@[0]@);
                            }
                            if order[0].0 != tx.0 {
                                proof {
                                    let c = self.txs()[tx@].blobs@[i as int].contract_name@;
                                    assert(self.order().contains_key(c));
                                    assert(self.order()[c] == blobs_hashes_view(order@));
                                    assert(self.order()[c][0] != tx@);
                                }
                                return false;
                            }
                        }
                    }
                    i = i + 1;
                }
                true
            },
            None => false,
        }
    }
}

/// The map and the queues agree: each transaction is stored under its own
/// blobs hash and waits in the queue of each of its contracts, and each
/// queued hash is that of a stored transaction with a blob for that
/// contract.
pub open spec fn coherent(txs: Map<Seq<char>, UnsettledTransaction>, order: Map<Seq<char>, Seq<Seq<char>>>) -> bool {
    &&& forall|h: Seq<char>| #[trigger] txs.contains_key(h) ==> txs[h].blobs_hash@ == h
    &&& forall|h: Seq<char>, c: Seq<char>|
        #![trigger blob_contracts(txs[h].blobs@).contains(c)]
        #![trigger queue_of(order, c).contains(h)]
        txs.contains_key(h) && blob_contracts(txs[h].blobs@).contains(c) ==> queue_of(order, c).contains(h)
    &&& forall|c: Seq<char>, h: Seq<char>|
        #[trigger] queue_of(order, c).contains(h) ==> txs.contains_key(h) && blob_contracts(txs[h].blobs@).contains(c)
}

/// Appending to queues keeps each queue as a prefix, adds only `h`, and
/// only to the queues of `names`, each of which then holds `h`.
proof fn lemma_append_queues(o: Map<Seq<char>, Seq<Seq<char>>>, names: Seq<Seq<char>>, h: Seq<char>, c: Seq<char>)
    ensures
        ({
            let q = queue_of(o, c);
            let q2 = queue_of(append_to_queues(o, names, h), c);
            &&& q.len() <= q2.len()
            &&& q2.subrange(0, q.len() as int) == q
            &&& o.contains_key(c) ==> append_to_queues(o, names, h).contains_key(c)
            &&& forall|x: Seq<char>| #[trigger] q2.contains(x) ==> q.contains(x) || (x == h && names.contains(c))
            &&& names.contains(c) ==> q2.contains(h)
        }),
    decreases names.len(),
{
    if names.len() > 0 {
        let rest = names.drop_last();
        lemma_append_queues(o, rest, h, c);
        let o1 = append_to_queues(o, rest, h);
        let q = queue_of(o, c);
        let q1 = queue_of(o1, c);
        let q2 = queue_of(append_to_queues(o, names, h), c);
        if c == names.last() {
            assert(q2 == q1.push(h));
            assert(q2.subrange(0, q.len() as int) =~= q1.subrange(0, q.len() as int));
            assert forall|x: Seq<char>| #[trigger] q2.contains(x) implies q.contains(x) || (x == h && names.contains(c)) by {
                let i = choose|i: int| 0 <= i < q2.len() && q2[i] == x;
                if i < q1.len() {
                    assert(q1.contains(x));
                }
                assert(names[names.len() - 1] == c);
            }
            assert(q2[q1.len() as int] == h);
        } else {
            assert(q2 == q1);
            assert forall|x: Seq<char>| #[trigger] q2.contains(x) implies q.contains(x) || (x == h && names.contains(c)) by {
                if q1.contains(x) && !q.contains(x) {
                    let i = choose|i: int| 0 <= i < rest.len() && rest[i] == c;
                    assert(names[i] == c);
                }
            }
            if names.contains(c) {
                let i = choose|i: int| 0 <= i < names.len() && names[i] == c;
                assert(rest[i] == c);
            }
        }
    }
}

/// Dropping `h` from the queues of `names` removes nothing else, and leaves
/// no `h` in them.
proof fn lemma_drop_queues(o: Map<Seq<char>, Seq<Seq<char>>>, names: Seq<Seq<char>>, h: Seq<char>, c: Seq<char>)
    ensures
        ({
            let q = queue_of(o, c);
            let q2 = queue_of(drop_from_queues(o, names, h), c);
            &&& forall|x: Seq<char>| #[trigger] q2.contains(x) ==> q.contains(x) && (names.contains(c) ==> x != h)
            &&& forall|x: Seq<char>| #[trigger] q.contains(x) && x != h ==> q2.contains(x)
        }),
    decreases names.len(),
{
    broadcast use vstd::seq_lib::group_filter_ensures;
    broadcast use vstd::seq::Seq::lemma_filter_contains_rev;

    if names.len() > 0 {
        let rest = names.drop_last();
        lemma_drop_queues(o, rest, h, c);
        let o1 = drop_from_queues(o, rest, h);
        let q = queue_of(o, c);
        let q1 = queue_of(o1, c);
        let q2 = queue_of(drop_from_queues(o, names, h), c);
        if c == names.last() && o1.contains_key(c) {
            assert(q2 == without(q1, h));
            assert forall|x: Seq<char>| #[trigger] q2.contains(x) implies q.contains(x) && (names.contains(c) ==> x != h) by {
                assert(q1.contains(x));
                let i = choose|i: int| 0 <= i < q2.len() && q2[i] == x;
                assert(q2[i] != h);
            }
            assert forall|x: Seq<char>| #[trigger] q.contains(x) && x != h implies q2.contains(x) by {
                assert(q1.contains(x));
                let i = choose|i: int| 0 <= i < q1.len() && q1[i] == x;
                assert(without(q1, h).contains(q1[i]));
            }
        } else {
            assert(q2 == q1);
            assert forall|x: Seq<char>| #[trigger] q2.contains(x) implies q.contains(x) && (names.contains(c) ==> x != h) by {
                if names.contains(c) && c != names.last() {
                    let i = choose|i: int| 0 <= i < names.len() && names[i] == c;
                    assert(i != names.len() - 1);
                    assert(rest[i] == c);
                }
                if c == names.last() {
                    assert(q1 =~= Seq::<Seq<char>>::empty());
                }
            }
        }
    }
}

/// Adding a transaction that is not stored keeps the map and the queues
/// coherent.
pub proof fn lemma_add_keeps_coherence(
    txs: Map<Seq<char>, UnsettledTransaction>,
    order: Map<Seq<char>, Seq<Seq<char>>>,
    tx: UnsettledTransaction,
)
    requires
        coherent(txs, order),
        !txs.contains_key(tx.blobs_hash@),
    ensures
        coherent(txs.insert(tx.blobs_hash@, tx), append_to_queues(order, blob_contracts(tx.blobs@), tx.blobs_hash@)),
{
    let h = tx.blobs_hash@;
    let txs2 = txs.insert(h, tx);
    let names = blob_contracts(tx.blobs@);
    let order2 = append_to_queues(order, names, h);
    assert forall|x: Seq<char>, c: Seq<char>|
        txs2.contains_key(x) && #[trigger] blob_contracts(txs2[x].blobs@).contains(c) implies #[trigger] queue_of(order2, c).contains(x) by {
        lemma_append_queues(order, names, h, c);
        if x != h {
            assert(txs2[x] == txs[x]);
            assert(blob_contracts(txs[x].blobs@).contains(c));
            let q = queue_of(order, c);
            let i = choose|i: int| 0 <= i < q.len() && q[i] == x;
            assert(queue_of(order2, c)[i] == x);
        }
    }
    assert forall|c: Seq<char>, x: Seq<char>|
        #[trigger] queue_of(order2, c).contains(x) implies txs2.contains_key(x) && blob_contracts(txs2[x].blobs@).contains(c) by {
        lemma_append_queues(order, names, h, c);
    }
}

/// Removing a stored transaction keeps the map and the queues coherent.
pub proof fn lemma_remove_keeps_coherence(
    txs: Map<Seq<char>, UnsettledTransaction>,
    order: Map<Seq<char>, Seq<Seq<char>>>,
    h: Seq<char>,
)
    requires
        coherent(txs, order),
        txs.contains_key(h),
    ensures
        coherent(txs.remove(h), drop_from_queues(order, blob_contracts(txs[h].blobs@), h)),
{
    let txs2 = txs.remove(h);
    let names = blob_contracts(txs[h].blobs@);
    let order2 = drop_from_queues(order, names, h);
    assert forall|x: Seq<char>, c: Seq<char>|
        txs2.contains_key(x) && #[trigger] blob_contracts(txs2[x].blobs@).contains(c) implies #[trigger] queue_of(order2, c).contains(x) by {
        lemma_drop_queues(order, names, h, c);
        assert(txs2[x] == txs[x]);
        assert(blob_contracts(txs[x].blobs@).contains(c));
        assert(queue_of(order, c).contains(x));
    }
    assert forall|c: Seq<char>, x: Seq<char>|
        #[trigger] queue_of(order2, c).contains(x) implies txs2.contains_key(x) && blob_contracts(txs2[x].blobs@).contains(c) by {
        lemma_drop_queues(order, names, h, c);
        assert(queue_of(order, c).contains(x));
        if x == h {
            assert(names.contains(c));
        }
    }
}

/// Adding a transaction never overtakes one that is next to settle.
pub proof fn lemma_add_keeps_next(
    txs: Map<Seq<char>, UnsettledTransaction>,
    order: Map<Seq<char>, Seq<Seq<char>>>,
    tx: UnsettledTransaction,
    first: Seq<char>,
)
    requires
        coherent(txs, order),
        !txs.contains_key(tx.blobs_hash@),
        next_to_settle(txs, order, first),
    ensures
        next_to_settle(
            txs.insert(tx.blobs_hash@, tx),
            append_to_queues(order, blob_contracts(tx.blobs@), tx.blobs_hash@),
            first,
        ),
{
    let h = tx.blobs_hash@;
    let txs2 = txs.insert(h, tx);
    let names = blob_contracts(tx.blobs@);
    let order2 = append_to_queues(order, names, h);
    assert(first != h);
    assert(txs2[first] == txs[first]);
    assert forall|i: int| 0 <= i < txs2[first].blobs@.len() implies {
        let c = #[trigger] txs2[first].blobs@[i].contract_name@;
        order2.contains_key(c) && order2[c].len() > 0 ==> order2[c][0] == first
    } by {
        let c = txs2[first].blobs@[i].contract_name@;
        assert(blob_contracts(txs[first].blobs@)[i] == c);
        assert(blob_contracts(txs[first].blobs@).contains(c));
        assert(queue_of(order, c).contains(first));
        lemma_append_queues(order, names, h, c);
        assert(order.contains_key(c));
        assert(queue_of(order2, c)[0] == queue_of(order, c)[0]);
    }
}

} // verus!

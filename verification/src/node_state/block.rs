//! What settling a blob transaction records in the block being built, and
//! which transactions to try to settle after it.

use crate::model::{BlobsHash, ContractName, StateDigest, TxHash};
use crate::node_state::ordered_tx_map::{blobs_hashes_view, queue_of, OrderedTxMap};
use crate::node_state::settlement::{
    apply_contract_changes, changes_view, contracts_view, effect_name, keyed_by_name, spec_apply_changes, Contract, ContractView,
    RegisterContractEffect, SettleError, SettlementResult, SideEffect, SideEffectView, TimeoutWindow, UnsettledBlobMetadata,
};
use crate::node_state::timeouts::hashes_view;
use crate::node_state::verify_output::VerifyError;
use crate::str_map::StrMap;
use vstd::prelude::*;

verus! {

/// Why a transaction of a block was refused.
#[derive(Debug, Clone, Copy, PartialEq, Eq, Structural)]
pub enum TxError {
    /// The identity of a blob transaction is not valid.
    InvalidIdentity,
    /// A blob transaction has no blob.
    NoBlobs,
    /// A proof is for a blob transaction that is not unsettled.
    BlobTxNotFound,
    /// A proof's output does not fit the transaction it proves.
    Output(VerifyError),
    /// A proof is for a blob index the transaction does not have.
    BlobNotFound,
}

/// What happened to a transaction while the block was built.
#[derive(Debug, Clone, PartialEq, Eq)]
pub enum TransactionStateEvent {
    Sequenced,
    Error(TxError),
    NewProof { blob_index: usize, proof_tx_hash: TxHash },
    Settled,
    SettledAsFailed,
    TimedOut,
    SettleFailed(SettleError),
}

/// An event, as plain values.
pub ghost enum EventV {
    Sequenced,
    Error(TxError),
    NewProof(usize, Seq<char>),
    Settled,
    SettledAsFailed,
    TimedOut,
    SettleFailed(SettleError),
}

impl View for TransactionStateEvent {
    type V = EventV;

    open spec fn view(&self) -> EventV {
        match self {
            TransactionStateEvent::Sequenced => EventV::Sequenced,
            TransactionStateEvent::Error(e) => EventV::Error(*e),
            TransactionStateEvent::NewProof { blob_index, proof_tx_hash } => EventV::NewProof(*blob_index, proof_tx_hash@),
            TransactionStateEvent::Settled => EventV::Settled,
            TransactionStateEvent::SettledAsFailed => EventV::SettledAsFailed,
            TransactionStateEvent::TimedOut => EventV::TimedOut,
            TransactionStateEvent::SettleFailed(e) => EventV::SettleFailed(*e),
        }
    }
}

/// A registration recorded in a block, as plain values.
pub ghost struct RegisteredView {
    pub contract_name: Seq<char>,
    pub program_id: Seq<u8>,
    pub state_commitment: Seq<u8>,
    pub verifier: Seq<char>,
    pub timeout_window: Option<TimeoutWindow>,
}

/// A recorded registration, as plain values.
pub open spec fn reg_effect_view(r: RegisterContractEffect) -> RegisteredView {
    RegisteredView {
        contract_name: r.contract_name@,
        program_id: r.program_id@,
        state_commitment: r.state_commitment@,
        verifier: r.verifier@,
        timeout_window: r.timeout_window,
    }
}

/// The registration recorded for a registered contract.
pub open spec fn registered_of(c: ContractView) -> RegisteredView {
    RegisteredView {
        contract_name: c.name,
        program_id: c.program_id,
        state_commitment: c.state,
        verifier: c.verifier,
        timeout_window: Some(c.timeout_window),
    }
}

/// The parts of the block under construction that settling fills.
#[derive(Debug)]
pub struct SettledBlock {
    pub transactions_events: Vec<(TxHash, TransactionStateEvent)>,
    pub failed_txs: Vec<TxHash>,
    pub successful_txs: Vec<TxHash>,
    pub verified_blobs: Vec<(TxHash, usize, Option<usize>)>,
    pub deleted_contracts: Vec<(TxHash, ContractName)>,
    pub registered_contracts: Vec<(TxHash, RegisterContractEffect)>,
    pub updated_states: StrMap<StateDigest>,
}

impl SettledBlock {
    /// The events, as plain values.
    pub open spec fn events_view(&self) -> Seq<(Seq<char>, EventV)> {
        self.transactions_events@.map_values(|e: (TxHash, TransactionStateEvent)| (e.0@, e.1@))
    }

    /// The blobs settled, each with its transaction and the proof used.
    pub open spec fn verified_view(&self) -> Seq<(Seq<char>, usize, Option<usize>)> {
        self.verified_blobs@.map_values(|e: (TxHash, usize, Option<usize>)| (e.0@, e.1, e.2))
    }

    /// The contracts deleted, each with the transaction that deleted it.
    pub open spec fn deleted_view(&self) -> Seq<(Seq<char>, Seq<char>)> {
        self.deleted_contracts@.map_values(|e: (TxHash, ContractName)| (e.0@, e.1@))
    }

    /// The contracts registered, each with the transaction that did it.
    pub open spec fn registered_view(&self) -> Seq<(Seq<char>, RegisteredView)> {
        self.registered_contracts@.map_values(|e: (TxHash, RegisterContractEffect)| (e.0@, reg_effect_view(e.1)))
    }

    /// The new state of each contract whose state changed.
    pub open spec fn states_view(&self) -> Map<Seq<char>, Seq<u8>> {
        self.updated_states.view().map_values(|d: StateDigest| d@)
    }

    /// A block with nothing recorded yet.
    pub fn new() -> (res: SettledBlock)
        ensures
            res.updated_states.wf(),
            res.events_view() == Seq::<(Seq<char>, EventV)>::empty(),
            res.failed_txs@ == Seq::<TxHash>::empty(),
            res.successful_txs@ == Seq::<TxHash>::empty(),
            res.verified_view() == Seq::<(Seq<char>, usize, Option<usize>)>::empty(),
            res.deleted_view() == Seq::<(Seq<char>, Seq<char>)>::empty(),
            res.registered_view() == Seq::<(Seq<char>, RegisteredView)>::empty(),
            res.states_view() == Map::<Seq<char>, Seq<u8>>::empty(),
    {
        let res = SettledBlock {
            transactions_events: Vec::new(),
            failed_txs: Vec::new(),
            successful_txs: Vec::new(),
            verified_blobs: Vec::new(),
            deleted_contracts: Vec::new(),
            registered_contracts: Vec::new(),
            updated_states: StrMap::new(),
        };
        proof {
            assert(res.events_view() =~= Seq::<(Seq<char>, EventV)>::empty());
            assert(res.verified_view() =~= Seq::<(Seq<char>, usize, Option<usize>)>::empty());
            assert(res.deleted_view() =~= Seq::<(Seq<char>, Seq<char>)>::empty());
            assert(res.registered_view() =~= Seq::<(Seq<char>, RegisteredView)>::empty());
            assert(res.states_view() =~= Map::<Seq<char>, Seq<u8>>::empty());
        }
        res
    }
}

/// `d` lists, with the transaction `bth`, each contract that `ch` deletes,
/// once.
pub open spec fn deleted_by(ch: Map<Seq<char>, SideEffectView>, bth: Seq<char>, d: Seq<(Seq<char>, Seq<char>)>) -> bool {
    &&& forall|i: int| 0 <= i < d.len() ==> (#[trigger] d[i]).0 == bth && ch.contains_key(d[i].1) && ch[d[i].1] is Delete
    &&& forall|k: Seq<char>| #[trigger] ch.contains_key(k) && ch[k] is Delete ==> exists|i: int| 0 <= i < d.len() && (#[trigger] d[i]).1 == k
    &&& forall|i: int, j: int| 0 <= i < j < d.len() ==> (#[trigger] d[i]).1 != (#[trigger] d[j]).1
}

/// `r` lists, with the transaction `bth`, the registration of each contract
/// that `ch` registers, once.
pub open spec fn registered_by(ch: Map<Seq<char>, SideEffectView>, bth: Seq<char>, r: Seq<(Seq<char>, RegisteredView)>) -> bool {
    &&& forall|i: int| 0 <= i < r.len() ==> {
        &&& (#[trigger] r[i]).0 == bth
        &&& ch.contains_key(r[i].1.contract_name)
        &&& ch[r[i].1.contract_name] matches SideEffectView::Register(c) && registered_of(c) == r[i].1
    }
    &&& forall|k: Seq<char>| #[trigger] ch.contains_key(k) && ch[k] is Register ==> exists|i: int| 0 <= i < r.len() && (#[trigger] r[i]).1.contract_name == k
    &&& forall|i: int, j: int| 0 <= i < j < r.len() ==> (#[trigger] r[i]).1.contract_name != (#[trigger] r[j]).1.contract_name
}

/// The new states that the changes `ch` give: that of each registered
/// contract, and that of each updated contract that `c0` holds.
pub open spec fn state_updates(c0: Map<Seq<char>, ContractView>, ch: Map<Seq<char>, SideEffectView>) -> Map<Seq<char>, Seq<u8>> {
    Map::new(
        |k: Seq<char>| ch.contains_key(k) && (ch[k] is Register || (ch[k] is UpdateState && c0.contains_key(k))),
        |k: Seq<char>| match ch[k] {
            SideEffectView::Register(c) => c.state,
            SideEffectView::UpdateState(c) => c.state,
            SideEffectView::Delete(_) => Seq::empty(),
        },
    )
}

/// The blobs settled by `bth`, in order, each with the index of the proof
/// that settled it when `indices` has one.
pub open spec fn verified_of(bth: Seq<char>, n: nat, indices: Seq<usize>) -> Seq<(Seq<char>, usize, Option<usize>)> {
    Seq::new(n, |i: int| (bth, i as usize, if i < indices.len() { Some(indices[i]) } else { None }))
}

/// The transactions to try to settle next: the first of the queue of each
/// contract that a blob of `blobs` is for.
pub open spec fn next_txs(order: Map<Seq<char>, Seq<Seq<char>>>, blobs: Seq<UnsettledBlobMetadata>) -> Set<Seq<char>> {
    Set::new(|h: Seq<char>| exists|i: int| 0 <= i < blobs.len() && #[trigger] is_next_of(order, blobs[i], h))
}

/// `h` is first in the queue of the contract of `b`.
pub open spec fn is_next_of(order: Map<Seq<char>, Seq<Seq<char>>>, b: UnsettledBlobMetadata, h: Seq<char>) -> bool {
    queue_of(order, b.blob.contract_name@).len() > 0 && queue_of(order, b.blob.contract_name@)[0] == h
}

/// Whether `v` holds `h`.
fn holds_hash(v: &Vec<BlobsHash>, h: &BlobsHash) -> (res: bool)
    ensures
        res == blobs_hashes_view(v@).contains(h@),
{
    let mut i: usize = 0;
    while i < v.len()
        invariant
            i <= v@.len(),
            forall|j: int| 0 <= j < i ==> v@[j]@ != h@,
        decreases v@.len() - i,
    {
        if v[i].0 == h.0 {
            assert(blobs_hashes_view(v@)[i as int] == h@);
            return true;
        }
        i = i + 1;
    }
    proof {
        if blobs_hashes_view(v@).contains(h@) {
            let j = choose|j: int| 0 <= j < blobs_hashes_view(v@).len() && blobs_hashes_view(v@)[j] == h@;
            assert(v@[j]@ == h@);
        }
    }
    false
}

/// The transactions to try to settle once the transaction of `blobs` has
/// settled, each once: the first of the queue of each of its contracts.
pub fn next_txs_to_settle(unsettled: &OrderedTxMap, blobs: &Vec<UnsettledBlobMetadata>) -> (res: Vec<BlobsHash>)
    requires
        unsettled.wf(),
    ensures
        blobs_hashes_view(res@).to_set() == next_txs(unsettled.order(), blobs@),
        blobs_hashes_view(res@).no_duplicates(),
{
    let ghost order = unsettled.order();
    let mut res: Vec<BlobsHash> = Vec::new();
    let mut i: usize = 0;
    proof {
        assert(blobs_hashes_view(res@).to_set() =~= next_txs(order, blobs@.take(0)));
    }
    while i < blobs.len()
        invariant
            unsettled.wf(),
            order == unsettled.order(),
            i <= blobs@.len(),
            blobs_hashes_view(res@).to_set() == next_txs(order, blobs@.take(i as int)),
            blobs_hashes_view(res@).no_duplicates(),
        decreases blobs@.len() - i,
    {
        let ghost before = blobs_hashes_view(res@);
        let ghost b = blobs@[i as int];
        proof {
            assert(blobs@.take(i + 1) =~= blobs@.take(i as int).push(b));
        }
        let mut added: Option<BlobsHash> = None;
        let ghost mut front: Option<Seq<char>> = None;
        match unsettled.order_of(&blobs[i].blob.contract_name) {
            Some(q) => {
                if q.len() > 0 {
                    proof {
                        assert(blobs_hashes_view(q@)[0] == q@[0]@);
                        front = Some(q@[0]@);
                    }
                    if !holds_hash(&res, &q[0]) {
                        added = Some(q[0].copy());
                        res.push(q[0].copy());
                    }
                }
            },
            None => {},
        }
        proof {
            let prev = next_txs(order, blobs@.take(i as int));
            let next = next_txs(order, blobs@.take(i + 1));
            assert forall|h: Seq<char>| next.contains(h) <==> (prev.contains(h) || is_next_of(order, b, h)) by {
                if next.contains(h) {
                    let j = choose|j: int| 0 <= j < i + 1 && #[trigger] is_next_of(order, blobs@.take(i + 1)[j], h);
                    if j < i {
                        assert(blobs@.take(i as int)[j] == blobs@.take(i + 1)[j]);
                    }
                }
                if prev.contains(h) {
                    let j = choose|j: int| 0 <= j < i && #[trigger] is_next_of(order, blobs@.take(i as int)[j], h);
                    assert(blobs@.take(i as int)[j] == blobs@.take(i + 1)[j]);
                }
                if is_next_of(order, b, h) {
                    assert(blobs@.take(i + 1)[i as int] == b);
                }
            }
            assert forall|h: Seq<char>| is_next_of(order, b, h) <==> front == Some(h) by {}
            if added is Some {
                assert(blobs_hashes_view(res@) =~= before.push(added->Some_0@));
                assert(front == Some(added->Some_0@));
                crate::node_state::model::lemma_push_to_set(before, added->Some_0@);
                assert(blobs_hashes_view(res@).to_set() =~= next);
            } else {
                assert(blobs_hashes_view(res@) == before);
                assert(blobs_hashes_view(res@).to_set() =~= next);
            }
        }
        i = i + 1;
    }
    proof {
        assert(blobs@.take(blobs@.len() as int) =~= blobs@);
    }
    res
}

/// Taking one more change into account: a deletion of `k` adds `k` to the
/// deletions listed.
pub proof fn lemma_deleted_step(
    ch: Map<Seq<char>, SideEffectView>,
    s: Set<Seq<char>>,
    k: Seq<char>,
    bth: Seq<char>,
    d: Seq<(Seq<char>, Seq<char>)>,
)
    requires
        deleted_by(ch.restrict(s), bth, d),
        ch.contains_key(k),
        !s.contains(k),
    ensures
        ch[k] is Delete ==> deleted_by(ch.restrict(s.insert(k)), bth, d.push((bth, k))),
        !(ch[k] is Delete) ==> deleted_by(ch.restrict(s.insert(k)), bth, d),
{
    let c1 = ch.restrict(s);
    let c2 = ch.restrict(s.insert(k));
    if ch[k] is Delete {
        let d2 = d.push((bth, k));
        assert forall|i: int| 0 <= i < d2.len() implies (#[trigger] d2[i]).0 == bth && c2.contains_key(d2[i].1) && c2[d2[i].1] is Delete by {
            if i < d.len() {
                assert(d2[i] == d[i]);
            }
        }
        assert forall|x: Seq<char>| #[trigger] c2.contains_key(x) && c2[x] is Delete implies exists|i: int| 0 <= i < d2.len() && (#[trigger] d2[i]).1 == x by {
            if x == k {
                assert(d2[d.len() as int].1 == x);
            } else {
                assert(c1.contains_key(x));
                let i = choose|i: int| 0 <= i < d.len() && (#[trigger] d[i]).1 == x;
                assert(d2[i] == d[i]);
            }
        }
        assert forall|i: int, j: int| 0 <= i < j < d2.len() implies (#[trigger] d2[i]).1 != (#[trigger] d2[j]).1 by {
            assert(d2[i] == d[i]);
            if j < d.len() {
                assert(d2[j] == d[j]);
            } else {
                assert(c1.contains_key(d[i].1));
            }
        }
    } else {
        assert forall|i: int| 0 <= i < d.len() implies (#[trigger] d[i]).0 == bth && c2.contains_key(d[i].1) && c2[d[i].1] is Delete by {
            assert(c1.contains_key(d[i].1));
        }
        assert forall|x: Seq<char>| #[trigger] c2.contains_key(x) && c2[x] is Delete implies exists|i: int| 0 <= i < d.len() && (#[trigger] d[i]).1 == x by {
            assert(x != k);
            assert(c1.contains_key(x));
        }
    }
}

/// Taking one more change into account: a registration of `k` adds its
/// registration to those listed.
pub proof fn lemma_registered_step(
    ch: Map<Seq<char>, SideEffectView>,
    s: Set<Seq<char>>,
    k: Seq<char>,
    bth: Seq<char>,
    r: Seq<(Seq<char>, RegisteredView)>,
)
    requires
        registered_by(ch.restrict(s), bth, r),
        keyed_by_name(ch),
        ch.contains_key(k),
        !s.contains(k),
    ensures
        ch[k] matches SideEffectView::Register(c) ==> registered_by(ch.restrict(s.insert(k)), bth, r.push((bth, registered_of(c)))),
        !(ch[k] is Register) ==> registered_by(ch.restrict(s.insert(k)), bth, r),
{
    let c1 = ch.restrict(s);
    let c2 = ch.restrict(s.insert(k));
    if ch[k] is Register {
        let c = ch[k]->Register_0;
        assert(c.name == k);
        let r2 = r.push((bth, registered_of(c)));
        assert forall|i: int| 0 <= i < r2.len() implies {
            &&& (#[trigger] r2[i]).0 == bth
            &&& c2.contains_key(r2[i].1.contract_name)
            &&& c2[r2[i].1.contract_name] matches SideEffectView::Register(c) && registered_of(c) == r2[i].1
        } by {
            if i < r.len() {
                assert(r2[i] == r[i]);
            }
        }
        assert forall|x: Seq<char>| #[trigger] c2.contains_key(x) && c2[x] is Register implies exists|i: int| 0 <= i < r2.len() && (#[trigger] r2[i]).1.contract_name == x by {
            if x == k {
                assert(r2[r.len() as int].1.contract_name == x);
            } else {
                assert(c1.contains_key(x));
                let i = choose|i: int| 0 <= i < r.len() && (#[trigger] r[i]).1.contract_name == x;
                assert(r2[i] == r[i]);
            }
        }
        assert forall|i: int, j: int| 0 <= i < j < r2.len() implies (#[trigger] r2[i]).1.contract_name != (#[trigger] r2[j]).1.contract_name by {
            assert(r2[i] == r[i]);
            if j < r.len() {
                assert(r2[j] == r[j]);
            } else {
                assert(c1.contains_key(r[i].1.contract_name));
            }
        }
    } else {
        assert forall|i: int| 0 <= i < r.len() implies {
            &&& (#[trigger] r[i]).0 == bth
            &&& c2.contains_key(r[i].1.contract_name)
            &&& c2[r[i].1.contract_name] matches SideEffectView::Register(c) && registered_of(c) == r[i].1
        } by {
            assert(c1.contains_key(r[i].1.contract_name));
        }
        assert forall|x: Seq<char>| #[trigger] c2.contains_key(x) && c2[x] is Register implies exists|i: int| 0 <= i < r.len() && (#[trigger] r[i]).1.contract_name == x by {
            assert(x != k);
            assert(c1.contains_key(x));
        }
    }
}

/// Records in `block` what the changes `changes` of the transaction `bth`
/// do to `contracts`: each deletion and each registration, with `bth`, and
/// the new state of each registered contract and of each updated one that
/// `contracts` holds.
fn record_contract_changes(block: &mut SettledBlock, bth: &TxHash, contracts: &StrMap<Contract>, changes: &StrMap<SideEffect>)
    requires
        old(block).updated_states.wf(),
        contracts.wf(),
        changes.wf(),
        keyed_by_name(changes_view(changes.view())),
    ensures
        final(block).updated_states.wf(),
        final(block).transactions_events == old(block).transactions_events,
        final(block).failed_txs == old(block).failed_txs,
        final(block).successful_txs == old(block).successful_txs,
        final(block).verified_blobs == old(block).verified_blobs,
        old(block).deleted_view().len() <= final(block).deleted_view().len(),
        final(block).deleted_view().take(old(block).deleted_view().len() as int) == old(block).deleted_view(),
        deleted_by(changes_view(changes.view()), bth@, final(block).deleted_view().skip(old(block).deleted_view().len() as int)),
        old(block).registered_view().len() <= final(block).registered_view().len(),
        final(block).registered_view().take(old(block).registered_view().len() as int) == old(block).registered_view(),
        registered_by(changes_view(changes.view()), bth@, final(block).registered_view().skip(old(block).registered_view().len() as int)),
        final(block).states_view() == old(block).states_view().union_prefer_right(
            state_updates(contracts_view(contracts.view()), changes_view(changes.view())),
        ),
{
    let ghost ch = changes_view(changes.view());
    let ghost c0 = contracts_view(contracts.view());
    let ghost d0 = block.deleted_view();
    let ghost r0 = block.registered_view();
    let ghost s0 = block.states_view();
    let ghost ev0 = block.transactions_events;
    let ghost f0 = block.failed_txs;
    let ghost ok0 = block.successful_txs;
    let ghost v0 = block.verified_blobs;
    let n = changes.len();
    proof {
        changes.lemma_dom();
        assert(changes.key_seq().take(0).to_set() =~= Set::<Seq<char>>::empty());
        assert(block.deleted_view().skip(d0.len() as int) =~= Seq::<(Seq<char>, Seq<char>)>::empty());
        assert(block.registered_view().skip(r0.len() as int) =~= Seq::<(Seq<char>, RegisteredView)>::empty());
        assert(state_updates(c0, ch.restrict(Set::empty())) =~= Map::<Seq<char>, Seq<u8>>::empty());
        assert(s0.union_prefer_right(Map::<Seq<char>, Seq<u8>>::empty()) =~= s0);
    }
    let mut i: usize = 0;
    while i < n
        invariant
            block.updated_states.wf(),
            contracts.wf(),
            changes.wf(),
            n == changes.key_seq().len(),
            ch == changes_view(changes.view()),
            c0 == contracts_view(contracts.view()),
            keyed_by_name(ch),
            changes.key_seq().no_duplicates(),
            changes.view().dom() == changes.key_seq().to_set(),
            i <= n,
            block.transactions_events == ev0,
            block.failed_txs == f0,
            block.successful_txs == ok0,
            block.verified_blobs == v0,
            d0.len() <= block.deleted_view().len(),
            block.deleted_view().take(d0.len() as int) == d0,
            deleted_by(ch.restrict(changes.key_seq().take(i as int).to_set()), bth@, block.deleted_view().skip(d0.len() as int)),
            r0.len() <= block.registered_view().len(),
            block.registered_view().take(r0.len() as int) == r0,
            registered_by(ch.restrict(changes.key_seq().take(i as int).to_set()), bth@, block.registered_view().skip(r0.len() as int)),
            block.states_view() == s0.union_prefer_right(state_updates(c0, ch.restrict(changes.key_seq().take(i as int).to_set()))),
        decreases n - i,
    {
        let effect = changes.val_at(i);
        proof {
            changes.lemma_view_at(i as int);
        }
        let ghost k = changes.key_seq()[i as int];
        let ghost sset = changes.key_seq().take(i as int).to_set();
        let ghost dv = block.deleted_view();
        let ghost rv = block.registered_view();
        let ghost sv = block.states_view();
        proof {
            assert(changes.view().contains_key(k));
            assert(ch.contains_key(k));
            assert(ch[k] == effect@);
            assert(effect_name(effect@) == k);
            assert(changes.key_seq().take(i + 1) =~= changes.key_seq().take(i as int).push(k));
            crate::node_state::model::lemma_push_to_set(changes.key_seq().take(i as int), k);
            assert(!sset.contains(k)) by {
                if sset.contains(k) {
                    let j = choose|j: int| 0 <= j < i && changes.key_seq().take(i as int)[j] == k;
                    assert(changes.key_seq()[j] == changes.key_seq()[i as int]);
                }
            }
            lemma_deleted_step(ch, sset, k, bth@, dv.skip(d0.len() as int));
            lemma_registered_step(ch, sset, k, bth@, rv.skip(r0.len() as int));
        }
        match effect {
            SideEffect::Delete(name) => {
                block.deleted_contracts.push((bth.copy(), name.copy()));
                proof {
                    assert(block.deleted_view() =~= dv.push((bth@, k)));
                    assert(block.deleted_view().skip(d0.len() as int) =~= dv.skip(d0.len() as int).push((bth@, k)));
                    assert(block.deleted_view().take(d0.len() as int) =~= dv.take(d0.len() as int));
                }
            },
            SideEffect::Register(c) => {
                block.registered_contracts.push((
                    bth.copy(),
                    RegisterContractEffect {
                        verifier: c.verifier.copy(),
                        program_id: c.program_id.copy(),
                        state_commitment: c.state.copy(),
                        contract_name: c.name.copy(),
                        timeout_window: Some(c.timeout_window),
                    },
                ));
                block.updated_states.insert(c.name.copy().0, c.state.copy());
                proof {
                    assert(block.registered_view() =~= rv.push((bth@, registered_of(c@))));
                    assert(block.registered_view().skip(r0.len() as int) =~= rv.skip(r0.len() as int).push((bth@, registered_of(c@))));
                    assert(block.registered_view().take(r0.len() as int) =~= rv.take(r0.len() as int));
                    assert(block.states_view() =~= sv.insert(k, c.state@));
                }
            },
            SideEffect::UpdateState(c) => {
                if contracts.contains_key(&c.name.0) {
                    block.updated_states.insert(c.name.copy().0, c.state.copy());
                    proof {
                        assert(block.states_view() =~= sv.insert(k, c.state@));
                    }
                }
            },
        }
        proof {
            let next = ch.restrict(changes.key_seq().take(i + 1).to_set());
            assert(block.states_view() =~= s0.union_prefer_right(state_updates(c0, next)));
        }
        i = i + 1;
    }
    proof {
        assert(changes.key_seq().take(n as int) =~= changes.key_seq());
        assert(ch.restrict(changes.key_seq().to_set()) =~= ch);
    }
}

/// Records that each of the `n` blobs of the transaction `bth` settled,
/// with the index of the proof that settled it where `indices` has one.
fn record_verified_blobs(block: &mut SettledBlock, bth: &TxHash, n: usize, indices: &Vec<usize>)
    ensures
        final(block).verified_view() == old(block).verified_view() + verified_of(bth@, n as nat, indices@),
        final(block).transactions_events == old(block).transactions_events,
        final(block).failed_txs == old(block).failed_txs,
        final(block).successful_txs == old(block).successful_txs,
        final(block).deleted_contracts == old(block).deleted_contracts,
        final(block).registered_contracts == old(block).registered_contracts,
        final(block).updated_states == old(block).updated_states,
{
    let ghost v0 = block.verified_view();
    let mut i: usize = 0;
    while i < n
        invariant
            i <= n,
            block.verified_view() == v0 + verified_of(bth@, i as nat, indices@),
            block.transactions_events == old(block).transactions_events,
            block.failed_txs == old(block).failed_txs,
            block.successful_txs == old(block).successful_txs,
            block.deleted_contracts == old(block).deleted_contracts,
            block.registered_contracts == old(block).registered_contracts,
            block.updated_states == old(block).updated_states,
        decreases n - i,
    {
        let ghost before = block.verified_view();
        let proof_index = if i < indices.len() {
            Some(indices[i])
        } else {
            None
        };
        block.verified_blobs.push((bth.copy(), i, proof_index));
        proof {
            assert(block.verified_view() =~= before.push((bth@, i, proof_index)));
            assert(verified_of(bth@, (i + 1) as nat, indices@) =~= verified_of(bth@, i as nat, indices@).push((bth@, i, proof_index)));
            assert(block.verified_view() =~= v0 + verified_of(bth@, (i + 1) as nat, indices@));
        }
        i = i + 1;
    }
}

/// Records in `block` how the transaction `bth`, with `n_blobs` blobs,
/// settled. One that settled as failed is listed as failed and changes
/// nothing else. One that settled successfully has each of its blobs listed
/// as verified with the proof that settled it, its changes applied to
/// `contracts` and recorded in `block`, and is listed as successful.
pub fn record_settled_tx(
    contracts: &mut StrMap<Contract>,
    block: &mut SettledBlock,
    bth: TxHash,
    n_blobs: usize,
    tx_result: Result<SettlementResult, ()>,
)
    requires
        old(contracts).wf(),
        old(block).updated_states.wf(),
        tx_result matches Ok(r) ==> r.contract_changes.wf() && keyed_by_name(changes_view(r.contract_changes.view())),
    ensures
        final(contracts).wf(),
        final(block).updated_states.wf(),
        tx_result is Err ==> {
            &&& *final(contracts) == *old(contracts)
            &&& final(block).events_view() == old(block).events_view().push((bth@, EventV::SettledAsFailed))
            &&& final(block).failed_txs@ == old(block).failed_txs@.push(bth)
            &&& final(block).successful_txs@ == old(block).successful_txs@
            &&& final(block).verified_view() == old(block).verified_view()
            &&& final(block).deleted_view() == old(block).deleted_view()
            &&& final(block).registered_view() == old(block).registered_view()
            &&& final(block).states_view() == old(block).states_view()
        },
        tx_result matches Ok(r) ==> {
            let ch = changes_view(r.contract_changes.view());
            let d0 = old(block).deleted_view();
            let r0 = old(block).registered_view();
            &&& contracts_view(final(contracts).view()) == spec_apply_changes(contracts_view(old(contracts).view()), ch)
            &&& final(block).events_view() == old(block).events_view().push((bth@, EventV::Settled))
            &&& final(block).failed_txs@ == old(block).failed_txs@
            &&& final(block).successful_txs@ == old(block).successful_txs@.push(bth)
            &&& final(block).verified_view() == old(block).verified_view() + verified_of(
                bth@,
                n_blobs as nat,
                r.blob_proof_output_indices@,
            )
            &&& d0.len() <= final(block).deleted_view().len()
            &&& final(block).deleted_view().take(d0.len() as int) == d0
            &&& deleted_by(ch, bth@, final(block).deleted_view().skip(d0.len() as int))
            &&& r0.len() <= final(block).registered_view().len()
            &&& final(block).registered_view().take(r0.len() as int) == r0
            &&& registered_by(ch, bth@, final(block).registered_view().skip(r0.len() as int))
            &&& final(block).states_view() == old(block).states_view().union_prefer_right(
                state_updates(contracts_view(old(contracts).view()), ch),
            )
        },
{
    let ghost ev0 = block.events_view();
    match tx_result {
        Err(()) => {
            block.transactions_events.push((bth.copy(), TransactionStateEvent::SettledAsFailed));
            block.failed_txs.push(bth);
            proof {
                assert(block.events_view() =~= ev0.push((bth@, EventV::SettledAsFailed)));
            }
        },
        Ok(r) => {
            block.transactions_events.push((bth.copy(), TransactionStateEvent::Settled));
            proof {
                assert(block.events_view() =~= ev0.push((bth@, EventV::Settled)));
            }
            record_verified_blobs(block, &bth, n_blobs, &r.blob_proof_output_indices);
            record_contract_changes(block, &bth, contracts, &r.contract_changes);
            apply_contract_changes(contracts, &r.contract_changes);
            block.successful_txs.push(bth);
        },
    }
}

/// Handles a transaction that settled: records in `block` how it settled,
/// as `record_settled_tx` does. For one that settled successfully the
/// result is then the transactions to try to settle next, the first of the
/// queue of each of its contracts in `unsettled`.
pub fn on_settled_blob_tx(
    contracts: &mut StrMap<Contract>,
    unsettled: &OrderedTxMap,
    block: &mut SettledBlock,
    bth: TxHash,
    settled_blobs: &Vec<UnsettledBlobMetadata>,
    tx_result: Result<SettlementResult, ()>,
) -> (res: Option<Vec<BlobsHash>>)
    requires
        old(contracts).wf(),
        unsettled.wf(),
        old(block).updated_states.wf(),
        tx_result matches Ok(r) ==> r.contract_changes.wf() && keyed_by_name(changes_view(r.contract_changes.view())),
    ensures
        final(contracts).wf(),
        final(block).updated_states.wf(),
        tx_result is Err ==> {
            &&& res is None
            &&& *final(contracts) == *old(contracts)
            &&& final(block).events_view() == old(block).events_view().push((bth@, EventV::SettledAsFailed))
            &&& final(block).failed_txs@ == old(block).failed_txs@.push(bth)
            &&& final(block).successful_txs@ == old(block).successful_txs@
            &&& final(block).verified_view() == old(block).verified_view()
            &&& final(block).deleted_view() == old(block).deleted_view()
            &&& final(block).registered_view() == old(block).registered_view()
            &&& final(block).states_view() == old(block).states_view()
        },
        tx_result matches Ok(r) ==> {
            let ch = changes_view(r.contract_changes.view());
            let d0 = old(block).deleted_view();
            let r0 = old(block).registered_view();
            &&& contracts_view(final(contracts).view()) == spec_apply_changes(contracts_view(old(contracts).view()), ch)
            &&& final(block).events_view() == old(block).events_view().push((bth@, EventV::Settled))
            &&& final(block).failed_txs@ == old(block).failed_txs@
            &&& final(block).successful_txs@ == old(block).successful_txs@.push(bth)
            &&& final(block).verified_view() == old(block).verified_view() + verified_of(
                bth@,
                settled_blobs.len() as nat,
                r.blob_proof_output_indices@,
            )
            &&& d0.len() <= final(block).deleted_view().len()
            &&& final(block).deleted_view().take(d0.len() as int) == d0
            &&& deleted_by(ch, bth@, final(block).deleted_view().skip(d0.len() as int))
            &&& r0.len() <= final(block).registered_view().len()
            &&& final(block).registered_view().take(r0.len() as int) == r0
            &&& registered_by(ch, bth@, final(block).registered_view().skip(r0.len() as int))
            &&& final(block).states_view() == old(block).states_view().union_prefer_right(
                state_updates(contracts_view(old(contracts).view()), ch),
            )
            &&& res matches Some(next) && blobs_hashes_view(next@).to_set() == next_txs(unsettled.order(), settled_blobs@)
                && blobs_hashes_view(next@).no_duplicates()
        },
{
    let ok = tx_result.is_ok();
    record_settled_tx(contracts, block, bth, settled_blobs.len(), tx_result);
    if ok {
        Some(next_txs_to_settle(unsettled, settled_blobs))
    } else {
        None
    }
}

} // verus!

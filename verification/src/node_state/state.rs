//! The node's state: registered contracts, unsettled blob transactions and
//! their timeouts, and how a signed block moves it forward while building
//! the block that indexers read.

use crate::model::transaction::Blob;
use crate::model::verifiers::{native_verifier_name, NativeVerifiers};
use crate::model::{BlockHeight, ContractName, Identity, ProgramId, StateDigest, TxHash, Verifier};
use crate::node_state::block::{
    deleted_by, record_settled_tx, registered_by, registered_of, state_updates, verified_of, EventV, RegisteredView, SettledBlock,
    TransactionStateEvent, TxError,
};
use crate::node_state::settlement::{
    all_registered, changes_view, spec_apply_changes, spec_settle, try_to_settle_blob_tx, SettleError, SideEffectView,
    contracts_view, is_hyle_name, metas, proofs_view, hyle_chars, spec_timeout_window, BlobAction, BlobMeta, Contract, ContractView, HyleOutput, TimeoutWindow,
    TxContext, UnsettledBlobMetadata,
};
use crate::node_state::timeouts::{hashes_view, timeouts_at, with_timeout, Timeouts};
use crate::node_state::unsettled::{distinct_hashes, holds, is_next, next_of, pos_of, txs_view};
use crate::node_state::verify_output::{spec_verify_hyle_output, TxV, UnsettledBlobTransaction};
use crate::str_map::StrMap;
use vstd::prelude::*;
use vstd::string::*;

verus! {

/// `a` comes before `b` in the order of their characters, which is the
/// order of the strings.
pub open spec fn chars_lt(a: Seq<char>, b: Seq<char>) -> bool
    decreases a.len(),
{
    if a.len() == 0 {
        b.len() > 0
    } else if b.len() == 0 {
        false
    } else if a[0] != b[0] {
        (a[0] as u32) < (b[0] as u32)
    } else {
        chars_lt(a.drop_first(), b.drop_first())
    }
}

/// Whether `a` comes before `b`.
fn str_lt(a: &String, b: &String) -> (res: bool)
    ensures
        res == chars_lt(a@, b@),
{
    let sa = a.as_str();
    let sb = b.as_str();
    let na = sa.unicode_len();
    let nb = sb.unicode_len();
    let mut i: usize = 0;
    proof {
        assert(a@.skip(0) =~= a@);
        assert(b@.skip(0) =~= b@);
    }
    while i < na && i < nb
        invariant
            i <= na,
            i <= nb,
            na == a@.len(),
            nb == b@.len(),
            sa@ == a@,
            sb@ == b@,
            chars_lt(a@, b@) == chars_lt(a@.skip(i as int), b@.skip(i as int)),
        decreases na - i,
    {
        let ca = sa.get_char(i);
        let cb = sb.get_char(i);
        proof {
            assert(a@.skip(i as int)[0] == ca);
            assert(b@.skip(i as int)[0] == cb);
            assert(a@.skip(i as int).drop_first() =~= a@.skip(i + 1));
            assert(b@.skip(i as int).drop_first() =~= b@.skip(i + 1));
        }
        if ca != cb {
            return (ca as u32) < (cb as u32);
        }
        i = i + 1;
    }
    i == na && i < nb
}

/// The position of the least of the first `n` hashes of `s` (the first
/// such when two are equal).
pub open spec fn min_idx(s: Seq<Seq<char>>, n: int) -> int
    decreases n,
{
    if n <= 1 {
        0
    } else {
        let m = min_idx(s, n - 1);
        if chars_lt(s[n - 1], s[m]) {
            n - 1
        } else {
            m
        }
    }
}

/// The least of the first `n` hashes is among them.
pub proof fn lemma_min_idx_range(s: Seq<Seq<char>>, n: int)
    requires
        1 <= n,
    ensures
        0 <= min_idx(s, n) < n,
    decreases n,
{
    if n > 1 {
        lemma_min_idx_range(s, n - 1);
    }
}

/// No string comes before itself.
pub proof fn lemma_chars_lt_irrefl(a: Seq<char>)
    ensures
        !chars_lt(a, a),
    decreases a.len(),
{
    if a.len() > 0 {
        lemma_chars_lt_irrefl(a.drop_first());
    }
}

/// The order of strings is transitive.
pub proof fn lemma_chars_lt_trans(a: Seq<char>, b: Seq<char>, c: Seq<char>)
    requires
        chars_lt(a, b),
        chars_lt(b, c),
    ensures
        chars_lt(a, c),
    decreases a.len(),
{
    if a.len() > 0 && b.len() > 0 && c.len() > 0 && a[0] == b[0] && b[0] == c[0] {
        lemma_chars_lt_trans(a.drop_first(), b.drop_first(), c.drop_first());
    }
}

/// `min_idx` gives a least hash: none of the first `n` comes before it.
pub proof fn lemma_min_idx_least(s: Seq<Seq<char>>, n: int)
    requires
        1 <= n <= s.len(),
    ensures
        forall|i: int| 0 <= i < n ==> !chars_lt(#[trigger] s[i], s[min_idx(s, n)]),
    decreases n,
{
    lemma_min_idx_range(s, n);
    if n == 1 {
        lemma_chars_lt_irrefl(s[0]);
    } else {
        lemma_min_idx_least(s, n - 1);
        let m = min_idx(s, n - 1);
        lemma_min_idx_range(s, n - 1);
        if chars_lt(s[n - 1], s[m]) {
            assert forall|i: int| 0 <= i < n implies !chars_lt(#[trigger] s[i], s[n - 1]) by {
                if i == n - 1 {
                    lemma_chars_lt_irrefl(s[n - 1]);
                } else if chars_lt(s[i], s[n - 1]) {
                    lemma_chars_lt_trans(s[i], s[n - 1], s[m]);
                }
            }
        }
    }
}

/// The position of the least hash of `v`.
fn min_index(v: &Vec<TxHash>) -> (res: usize)
    requires
        v@.len() > 0,
    ensures
        res == min_idx(hashes_view(v@), v@.len() as int),
        res < v@.len(),
{
    let ghost s = hashes_view(v@);
    let mut best: usize = 0;
    let mut i: usize = 1;
    while i < v.len()
        invariant
            s == hashes_view(v@),
            1 <= i <= v@.len(),
            best == min_idx(s, i as int),
            best < i,
        decreases v@.len() - i,
    {
        if str_lt(&v[i].0, &v[best].0) {
            best = i;
        }
        i = i + 1;
    }
    best
}

/// `s` with `h` added at the end unless it already holds it.
pub open spec fn add_absent(s: Seq<Seq<char>>, h: Seq<char>) -> Seq<Seq<char>> {
    if s.contains(h) {
        s
    } else {
        s.push(h)
    }
}

/// Adds `h` to `v` unless `v` holds it.
fn push_absent(v: &mut Vec<TxHash>, h: TxHash)
    ensures
        hashes_view(final(v)@) == add_absent(hashes_view(old(v)@), h@),
{
    let ghost s = hashes_view(v@);
    let mut i: usize = 0;
    while i < v.len()
        invariant
            s == hashes_view(v@),
            i <= v@.len(),
            forall|j: int| 0 <= j < i ==> s[j] != h@,
        decreases v@.len() - i,
    {
        if v[i].0 == h.0 {
            proof {
                assert(s[i as int] == h@);
            }
            return;
        }
        i = i + 1;
    }
    let ghost hv = h@;
    v.push(h);
    proof {
        assert(hashes_view(v@) =~= s.push(hv));
    }
}

/// The node's state as plain values.
pub ghost struct StateV {
    pub height: u64,
    pub contracts: Map<Seq<char>, ContractView>,
    pub timeouts: Map<u64, Seq<Seq<char>>>,
    pub txs: Seq<TxV>,
}

/// What the node keeps between blocks: the height reached, the registered
/// contracts, the timeouts set, and the unsettled blob transactions in the
/// order they arrived.
pub struct NodeState {
    pub current_height: BlockHeight,
    pub contracts: StrMap<Contract>,
    pub timeouts: Timeouts,
    pub unsettled_transactions: Vec<UnsettledBlobTransaction>,
}

impl View for NodeState {
    type V = StateV;

    open spec fn view(&self) -> StateV {
        StateV {
            height: self.current_height.0,
            contracts: contracts_view(self.contracts.view()),
            timeouts: self.timeouts.by_block(),
            txs: txs_view(self.unsettled_transactions@),
        }
    }
}

impl NodeState {
    /// The contract map is well formed and no two unsettled transactions
    /// share a hash.
    pub open spec fn wf(&self) -> bool {
        self.contracts.wf() && distinct_hashes(txs_view(self.unsettled_transactions@))
    }
}

/// A blob of a blob transaction in a block: the blob, the contract action
/// its data holds, as the data decodes, and the output the native verifier
/// of its contract gives for it, where its contract has one.
pub struct BlobInput {
    pub blob: Blob,
    pub action: Option<BlobAction>,
    pub native_output: Option<HyleOutput>,
}

/// A blob transaction in a block, with whether its identity is valid.
pub struct BlobTx {
    pub identity: Identity,
    pub identity_valid: bool,
    pub blobs: Vec<BlobInput>,
}

/// A verified proof's output for one blob of a blob transaction.
pub struct BlobProofOutput {
    pub blob_tx_hash: TxHash,
    pub program_id: ProgramId,
    pub hyle_output: HyleOutput,
}

/// What a transaction of a block carries.
pub enum TxData {
    Blob(BlobTx),
    Proof,
    VerifiedProof(Vec<BlobProofOutput>),
}

/// A transaction of a block, with its lane, the data proposal before the
/// one that carried it, and its hash.
pub struct BlockTx {
    pub lane_id: String,
    pub dp_hash: String,
    pub tx_hash: TxHash,
    pub data: TxData,
}

/// A block that consensus signed.
pub struct SignedBlock {
    pub height: BlockHeight,
    pub hash: String,
    pub parent_hash: String,
    pub timestamp: u128,
    pub chain_id: u128,
    pub txs: Vec<BlockTx>,
}

/// A proof output kept for a blob: the proof transaction, the blob it is
/// for, and its position among the proofs of that blob.
pub struct HandledBlobProofOutput {
    pub proof_tx_hash: TxHash,
    pub blob_tx_hash: TxHash,
    pub blob_index: usize,
    pub blob_proof_output_index: usize,
    pub contract_name: ContractName,
}

/// A kept proof output, as plain values.
pub ghost struct HandledV {
    pub proof_tx: Seq<char>,
    pub blob_tx: Seq<char>,
    pub blob_index: usize,
    pub output_index: usize,
    pub contract: Seq<char>,
}

impl View for HandledBlobProofOutput {
    type V = HandledV;

    open spec fn view(&self) -> HandledV {
        HandledV {
            proof_tx: self.proof_tx_hash@,
            blob_tx: self.blob_tx_hash@,
            blob_index: self.blob_index,
            output_index: self.blob_proof_output_index,
            contract: self.contract_name@,
        }
    }
}

/// The block built from a signed block.
pub struct Block {
    pub block_height: BlockHeight,
    pub hash: String,
    pub parent_hash: String,
    pub block_timestamp: u128,
    pub txs: Vec<(String, TxHash)>,
    pub settled: SettledBlock,
    pub timed_out_txs: Vec<TxHash>,
    pub blob_proof_outputs: Vec<HandledBlobProofOutput>,
    pub lane_ids: StrMap<String>,
    pub dp_parent_hashes: StrMap<String>,
}

/// A block as plain values. Registrations and deletions are sets: within
/// one settled transaction their order is not stated.
#[verifier::ext_equal]
pub ghost struct BlockV {
    pub height: u64,
    pub hash: Seq<char>,
    pub parent_hash: Seq<char>,
    pub timestamp: u128,
    pub txs: Seq<(Seq<char>, Seq<char>)>,
    pub events: Seq<(Seq<char>, EventV)>,
    pub failed: Seq<Seq<char>>,
    pub successful: Seq<Seq<char>>,
    pub timed_out: Seq<Seq<char>>,
    pub verified: Seq<(Seq<char>, usize, Option<usize>)>,
    pub deleted: Set<(Seq<char>, Seq<char>)>,
    pub registered: Set<(Seq<char>, RegisteredView)>,
    pub states: Map<Seq<char>, Seq<u8>>,
    pub proofs: Seq<HandledV>,
    pub lanes: Map<Seq<char>, Seq<char>>,
    pub parents: Map<Seq<char>, Seq<char>>,
}

/// The characters of each string of a map.
pub open spec fn str_values(m: Map<Seq<char>, String>) -> Map<Seq<char>, Seq<char>> {
    m.map_values(|s: String| s@)
}

impl View for Block {
    type V = BlockV;

    open spec fn view(&self) -> BlockV {
        BlockV {
            height: self.block_height.0,
            hash: self.hash@,
            parent_hash: self.parent_hash@,
            timestamp: self.block_timestamp,
            txs: self.txs@.map_values(|t: (String, TxHash)| (t.0@, t.1@)),
            events: self.settled.events_view(),
            failed: hashes_view(self.settled.failed_txs@),
            successful: hashes_view(self.settled.successful_txs@),
            timed_out: hashes_view(self.timed_out_txs@),
            verified: self.settled.verified_view(),
            deleted: self.settled.deleted_view().to_set(),
            registered: self.settled.registered_view().to_set(),
            states: self.settled.states_view(),
            proofs: self.blob_proof_outputs@.map_values(|p: HandledBlobProofOutput| p@),
            lanes: str_values(self.lane_ids.view()),
            parents: str_values(self.dp_parent_hashes.view()),
        }
    }
}

impl Block {
    /// The maps of the block are well formed.
    pub open spec fn wf(&self) -> bool {
        self.settled.updated_states.wf() && self.lane_ids.wf() && self.dp_parent_hashes.wf()
    }
}

/// `b` with the event `e` of transaction `h` added.
pub open spec fn with_event(b: BlockV, h: Seq<char>, e: EventV) -> BlockV {
    BlockV { events: b.events.push((h, e)), ..b }
}

/// Adds the event `e` of transaction `h` to `block`.
fn push_event(block: &mut Block, h: &TxHash, e: TransactionStateEvent)
    ensures
        final(block)@ == with_event(old(block)@, h@, e@),
        final(block).wf() == old(block).wf(),
{
    let ghost ev0 = block.settled.events_view();
    block.settled.transactions_events.push((h.copy(), e));
    proof {
        assert(block.settled.events_view() =~= ev0.push((h@, e@)));
        assert(block@ =~= with_event(old(block)@, h@, e@));
    }
}

/// The native verifier named `verifier`, if any.
pub open spec fn native_of(verifier: Seq<char>) -> Option<NativeVerifiers> {
    if exists|v: NativeVerifiers| native_verifier_name(v) == verifier {
        Some(choose|v: NativeVerifiers| native_verifier_name(v) == verifier)
    } else {
        None
    }
}

proof fn lemma_native_of(v: NativeVerifiers)
    ensures
        native_of(native_verifier_name(v)) == Some(v),
{
    let w = choose|w: NativeVerifiers| native_verifier_name(w) == native_verifier_name(v);
    assert(native_verifier_name(w) == native_verifier_name(v));
    assert(native_verifier_name(w).len() == native_verifier_name(v).len());
}

/// How a new blob is stored, and whether it lets its transaction settle
/// at once: a blob for a registered contract with a native verifier holds
/// that verifier's output as its one proof; a blob for 'hyle' needs none;
/// any other blob waits for a proof.
pub open spec fn new_blob_meta(contracts: Map<Seq<char>, ContractView>, b: BlobInput) -> (BlobMeta, bool) {
    let c = b.blob.contract_name@;
    if contracts.contains_key(c) && native_of(contracts[c].verifier) is Some && b.native_output is Some {
        (
            BlobMeta {
                blob: b.blob,
                proofs: seq![
                    (
                        vstd::utf8::encode_utf8(native_verifier_name(native_of(contracts[c].verifier)->0)),
                        b.native_output->0,
                    ),
                ],
                action: b.action,
            },
            true,
        )
    } else {
        (BlobMeta { blob: b.blob, proofs: Seq::empty(), action: b.action }, c == hyle_chars())
    }
}

/// The stored form of each blob of a new transaction.
pub open spec fn new_metas(contracts: Map<Seq<char>, ContractView>, blobs: Seq<BlobInput>) -> Seq<BlobMeta> {
    blobs.map_values(|b: BlobInput| new_blob_meta(contracts, b).0)
}

/// Each blob of a new transaction lets it settle at once.
pub open spec fn settles_at_once(contracts: Map<Seq<char>, ContractView>, blobs: Seq<BlobInput>) -> bool {
    forall|i: int| 0 <= i < blobs.len() ==> #[trigger] new_blob_meta(contracts, blobs[i]).1
}

/// The contract of each stored blob.
pub open spec fn meta_names(blobs: Seq<BlobMeta>) -> Seq<Seq<char>> {
    blobs.map_values(|b: BlobMeta| b.blob.contract_name@)
}

/// `h + w`, wrapping past the greatest height.
pub open spec fn wrapping_height(h: u64, w: u64) -> u64 {
    if h + w <= u64::MAX {
        (h + w) as u64
    } else {
        (h + w - 0x1_0000_0000_0000_0000) as u64
    }
}

fn wrapping_height_exec(h: u64, w: u64) -> (res: u64)
    ensures
        res == wrapping_height(h, w),
{
    if h <= u64::MAX - w {
        h + w
    } else {
        w - (u64::MAX - h) - 1
    }
}

/// The timeouts of `s` once the unsettled transaction `h` is set to time
/// out its window after height `from`; unchanged when it has no window.
pub open spec fn timeout_after(s: StateV, h: Seq<char>, from: u64) -> Map<u64, Seq<Seq<char>>> {
    let t = s.txs[pos_of(s.txs, h)];
    match spec_timeout_window(s.contracts, meta_names(t.blobs)) {
        TimeoutWindow::Timeout(w) => with_timeout(s.timeouts, wrapping_height(from, w.0), h),
        TimeoutWindow::NoTimeout => s.timeouts,
    }
}

/// The timeout window of a transaction with the given stored blobs.
fn tx_timeout_window(contracts: &StrMap<Contract>, blobs: &Vec<UnsettledBlobMetadata>) -> (res: TimeoutWindow)
    requires
        contracts.wf(),
    ensures
        res == spec_timeout_window(contracts_view(contracts.view()), meta_names(metas(blobs@))),
{
    let ghost names = meta_names(metas(blobs@));
    let ghost cv = contracts_view(contracts.view());
    let mut timeout = TimeoutWindow::NoTimeout;
    let mut i: usize = 0;
    while i < blobs.len()
        invariant
            contracts.wf(),
            i <= blobs@.len(),
            names == meta_names(metas(blobs@)),
            cv == contracts_view(contracts.view()),
            timeout == spec_timeout_window(cv, names.take(i as int)),
        decreases blobs@.len() - i,
    {
        proof {
            assert(names.take(i + 1).drop_last() =~= names.take(i as int));
            assert(names.take(i + 1).last() == blobs@[i as int].blob.contract_name@);
        }
        if let Some(c) = contracts.get(&blobs[i].blob.contract_name.0) {
            let w = c.timeout_window;
            timeout = match (timeout, w) {
                (TimeoutWindow::NoTimeout, w) => w,
                (TimeoutWindow::Timeout(a), TimeoutWindow::Timeout(b)) => TimeoutWindow::Timeout(
                    if a.0 <= b.0 { a } else { b },
                ),
                _ => TimeoutWindow::NoTimeout,
            };
        }
        i = i + 1;
    }
    proof {
        assert(names.take(blobs@.len() as int) =~= names);
    }
    timeout
}

/// How a new blob transaction was handled.
pub enum BlobTxHandled {
    /// It may settle at once: it is next to settle and needs no proof.
    ShouldSettle(TxHash),
    /// A transaction of the same hash is already unsettled.
    Duplicate,
    /// It waits for proofs.
    Sequenced,
}

/// How a new blob transaction was handled, as plain values.
pub ghost enum HandledTxV {
    ShouldSettle(Seq<char>),
    Duplicate,
    Sequenced,
}

impl View for BlobTxHandled {
    type V = HandledTxV;

    open spec fn view(&self) -> HandledTxV {
        match self {
            BlobTxHandled::ShouldSettle(h) => HandledTxV::ShouldSettle(h@),
            BlobTxHandled::Duplicate => HandledTxV::Duplicate,
            BlobTxHandled::Sequenced => HandledTxV::Sequenced,
        }
    }
}

/// A handling result, as plain values.
pub open spec fn handled_view(r: Result<BlobTxHandled, TxError>) -> Result<HandledTxV, TxError> {
    match r {
        Ok(h) => Ok(h@),
        Err(e) => Err(e),
    }
}

/// A blob transaction arrives with hash `hash`, after the data proposal
/// `parent`, in context `ctx`. One with an invalid identity or no blob is
/// refused; one whose hash is already unsettled is a duplicate and changes
/// nothing. Otherwise it joins the unsettled transactions; when it is next
/// to settle it is set to time out its window after the current height,
/// and when moreover each of its blobs lets it settle at once it should be
/// settled now.
pub open spec fn spec_handle_blob_tx(
    s: StateV,
    parent: Seq<char>,
    hash: Seq<char>,
    tx: BlobTx,
    ctx: TxContext,
) -> (StateV, Result<HandledTxV, TxError>) {
    if !tx.identity_valid {
        (s, Err(TxError::InvalidIdentity))
    } else if tx.blobs@.len() == 0 {
        (s, Err(TxError::NoBlobs))
    } else if holds(s.txs, hash) {
        (s, Ok(HandledTxV::Duplicate))
    } else {
        let t = TxV { identity: tx.identity@, parent, hash, ctx, blobs: new_metas(s.contracts, tx.blobs@) };
        let s1 = StateV { txs: s.txs.push(t), ..s };
        let next = is_next(s1.txs, hash);
        let s2 = if next {
            StateV { timeouts: timeout_after(s1, hash, s.height), ..s1 }
        } else {
            s1
        };
        (s2, Ok(if next && settles_at_once(s.contracts, tx.blobs@) {
            HandledTxV::ShouldSettle(hash)
        } else {
            HandledTxV::Sequenced
        }))
    }
}

/// Stores `b` as a blob of a new transaction.
fn new_blob(contracts: &StrMap<Contract>, b: BlobInput) -> (res: (UnsettledBlobMetadata, bool))
    requires
        contracts.wf(),
    ensures
        (res.0@, res.1) == new_blob_meta(contracts_view(contracts.view()), b),
{
    let ghost cv = contracts_view(contracts.view());
    let ghost bg = b;
    let BlobInput { blob, action, native_output } = b;
    let native = match contracts.get(&blob.contract_name.0) {
        Some(c) => {
            assert(cv[blob.contract_name@] == c@);
            match NativeVerifiers::try_from_verifier(&c.verifier) {
                Ok(v) => {
                    proof {
                        lemma_native_of(v);
                    }
                    Some(v)
                },
                Err(_) => None,
            }
        },
        None => None,
    };
    match (native, native_output) {
        (Some(v), Some(out)) => {
            let pid = v.program_id();
            let ghost outg = out;
            let mut proofs: Vec<(ProgramId, HyleOutput)> = Vec::new();
            proofs.push((pid, out));
            let res = UnsettledBlobMetadata { blob, possible_proofs: proofs, action };
            proof {
                assert(res@.proofs =~= seq![(vstd::utf8::encode_utf8(native_verifier_name(v)), outg)]);
            }
            (res, true)
        },
        (_, native_output) => {
            let hy = is_hyle_name(&blob.contract_name);
            let res = UnsettledBlobMetadata { blob, possible_proofs: Vec::new(), action };
            proof {
                assert(res@.proofs =~= Seq::<(Seq<u8>, HyleOutput)>::empty());
            }
            (res, hy)
        },
    }
}

impl NodeState {
    /// Handles a blob transaction of a block, as `spec_handle_blob_tx`
    /// states.
    pub fn handle_blob_tx(&mut self, parent: String, hash: TxHash, tx: BlobTx, ctx: TxContext) -> (res: Result<
        BlobTxHandled,
        TxError,
    >)
        requires
            old(self).wf(),
        ensures
            final(self).wf(),
            final(self).current_height == old(self).current_height,
            final(self).contracts == old(self).contracts,
            (final(self)@, handled_view(res)) == spec_handle_blob_tx(old(self)@, parent@, hash@, tx, ctx),
    {
        if !tx.identity_valid {
            return Err(TxError::InvalidIdentity);
        }
        if tx.blobs.len() == 0 {
            return Err(TxError::NoBlobs);
        }
        let ghost s = self@;
        let ghost txg = tx;
        let ghost cv = contracts_view(self.contracts.view());
        let BlobTx { identity, identity_valid, blobs } = tx;
        let mut rest = blobs;
        let mut metas_vec: Vec<UnsettledBlobMetadata> = Vec::new();
        let mut at_once = true;
        let ghost n = txg.blobs@.len();
        while rest.len() > 0
            invariant
                self.contracts.wf(),
                cv == contracts_view(self.contracts.view()),
                n == txg.blobs@.len(),
                metas_vec@.len() + rest@.len() == n,
                rest@ == txg.blobs@.skip(metas_vec@.len() as int),
                metas(metas_vec@) == new_metas(cv, txg.blobs@.take(metas_vec@.len() as int)),
                at_once == (forall|i: int| 0 <= i < metas_vec@.len() ==> #[trigger] new_blob_meta(cv, txg.blobs@[i]).1),
            decreases rest@.len(),
        {
            let ghost k = metas_vec@.len() as int;
            let b = rest.remove(0);
            assert(b == txg.blobs@[k]);
            let (m, ok) = new_blob(&self.contracts, b);
            let ghost m0 = metas(metas_vec@);
            metas_vec.push(m);
            at_once = at_once && ok;
            proof {
                if at_once {
                    assert forall|i: int| 0 <= i < metas_vec@.len() implies #[trigger] new_blob_meta(cv, txg.blobs@[i]).1 by {
                        if i < k {
                            assert(new_blob_meta(cv, txg.blobs@[i]).1);
                        }
                    }
                } else if ok {
                    let j = choose|j: int| 0 <= j < k && !#[trigger] new_blob_meta(cv, txg.blobs@[j]).1;
                    assert(!new_blob_meta(cv, txg.blobs@[j]).1);
                } else {
                    assert(!new_blob_meta(cv, txg.blobs@[k]).1);
                }
                assert(rest@ =~= txg.blobs@.skip(k + 1));
                assert(metas(metas_vec@) =~= m0.push(new_blob_meta(cv, txg.blobs@[k]).0));
                assert(txg.blobs@.take(k + 1) =~= txg.blobs@.take(k).push(txg.blobs@[k]));
                assert(new_metas(cv, txg.blobs@.take(k + 1)) =~= new_metas(cv, txg.blobs@.take(k)).push(new_blob_meta(cv, txg.blobs@[k]).0));
            }
        }
        proof {
            assert(txg.blobs@.take(n as int) =~= txg.blobs@);
        }
        if crate::node_state::unsettled::find_tx(&self.unsettled_transactions, &hash).is_some() {
            return Ok(BlobTxHandled::Duplicate);
        }
        let t = UnsettledBlobTransaction { identity, parent_dp_hash: parent, hash: hash.copy(), tx_context: ctx, blobs: metas_vec };
        let ghost tv = t@;
        self.unsettled_transactions.push(t);
        proof {
            assert(txs_view(self.unsettled_transactions@) =~= s.txs.push(tv));
            assert forall|i: int, j: int|
                0 <= i < s.txs.len() + 1 && 0 <= j < s.txs.len() + 1 && i != j implies (#[trigger] s.txs.push(tv)[i]).hash != (#[trigger] s.txs.push(tv)[j]).hash by {
                if i == s.txs.len() {
                    assert(!(0 <= j < s.txs.len() && s.txs[j].hash == hash@));
                }
                if j == s.txs.len() {
                    assert(!(0 <= i < s.txs.len() && s.txs[i].hash == hash@));
                }
            }
        }
        let next = crate::node_state::unsettled::is_next_to_settle(&self.unsettled_transactions, &hash);
        if next {
            let last = self.unsettled_transactions.len() - 1;
            proof {
                crate::node_state::unsettled::lemma_pos_of(txs_view(self.unsettled_transactions@), hash@, last as int);
            }
            let w = tx_timeout_window(&self.contracts, &self.unsettled_transactions[last].blobs);
            match w {
                TimeoutWindow::Timeout(wh) => {
                    let at = wrapping_height_exec(self.current_height.0, wh.0);
                    self.timeouts.set_at(hash.copy(), at);
                },
                TimeoutWindow::NoTimeout => {},
            }
        }
        if next && at_once {
            Ok(BlobTxHandled::ShouldSettle(hash))
        } else {
            Ok(BlobTxHandled::Sequenced)
        }
    }
}

/// A proof's result, as plain values.
pub open spec fn proof_result_view(r: Result<Option<TxHash>, TxError>) -> Result<Option<Seq<char>>, TxError> {
    match r {
        Ok(Some(h)) => Ok(Some(h@)),
        Ok(None) => Ok(None),
        Err(e) => Err(e),
    }
}

/// A verified proof's output `p`, carried by the proof transaction
/// `proof_tx`, arrives. It is refused when its blob transaction is not
/// unsettled. Otherwise the block records that transaction's lane and data
/// proposal; the output is refused when it does not fit the transaction or
/// names a blob it does not have. Otherwise the output joins the proofs of
/// its blob, the block records a new-proof event and the kept output, and
/// the result names the transaction when it is next to settle.
pub open spec fn spec_handle_blob_proof(s: StateV, b: BlockV, proof_tx: Seq<char>, p: BlobProofOutput) -> (
    StateV,
    BlockV,
    Result<Option<Seq<char>>, TxError>,
) {
    let h = p.blob_tx_hash@;
    if !holds(s.txs, h) {
        (s, b, Err(TxError::BlobTxNotFound))
    } else {
        let i = pos_of(s.txs, h);
        let t = s.txs[i];
        let b1 = BlockV { parents: b.parents.insert(h, t.parent), lanes: b.lanes.insert(h, t.ctx.lane_id@), ..b };
        match spec_verify_hyle_output(t, p.hyle_output) {
            Err(e) => (s, b1, Err(TxError::Output(e))),
            Ok(()) => {
                let k = p.hyle_output.index.0;
                if k >= t.blobs.len() {
                    (s, b1, Err(TxError::BlobNotFound))
                } else {
                    let m = t.blobs[k as int];
                    let m2 = BlobMeta { proofs: m.proofs.push((p.program_id@, p.hyle_output)), ..m };
                    let t2 = TxV { blobs: t.blobs.update(k as int, m2), ..t };
                    let s2 = StateV { txs: s.txs.update(i, t2), ..s };
                    let kept = HandledV {
                        proof_tx,
                        blob_tx: h,
                        blob_index: k,
                        output_index: m.proofs.len() as usize,
                        contract: m.blob.contract_name@,
                    };
                    let b2 = BlockV {
                        events: b1.events.push((h, EventV::NewProof(k, proof_tx))),
                        proofs: b1.proofs.push(kept),
                        ..b1
                    };
                    (s2, b2, Ok(if is_next(s.txs, h) { Some(h) } else { None }))
                }
            },
        }
    }
}

/// Records in `block` the lane and data proposal of transaction `t`.
fn record_origin(block: &mut Block, t: &UnsettledBlobTransaction)
    requires
        old(block).wf(),
    ensures
        final(block).wf(),
        final(block)@ == (BlockV {
            parents: old(block)@.parents.insert(t.hash@, t.parent_dp_hash@),
            lanes: old(block)@.lanes.insert(t.hash@, t.tx_context.lane_id@),
            ..old(block)@
        }),
{
    let ghost p0 = block.dp_parent_hashes.view();
    let ghost l0 = block.lane_ids.view();
    let parent = t.parent_dp_hash.clone();
    let lane = t.tx_context.lane_id.clone();
    block.dp_parent_hashes.insert(t.hash.0.clone(), parent);
    block.lane_ids.insert(t.hash.0.clone(), lane);
    proof {
        assert(str_values(p0.insert(t.hash@, parent)) =~= str_values(p0).insert(t.hash@, t.parent_dp_hash@));
        assert(str_values(l0.insert(t.hash@, lane)) =~= str_values(l0).insert(t.hash@, t.tx_context.lane_id@));
        assert(block@ =~= (BlockV {
            parents: old(block)@.parents.insert(t.hash@, t.parent_dp_hash@),
            lanes: old(block)@.lanes.insert(t.hash@, t.tx_context.lane_id@),
            ..old(block)@
        }));
    }
}

impl NodeState {
    /// Handles a verified proof's output, as `spec_handle_blob_proof`
    /// states.
    pub fn handle_blob_proof(&mut self, proof_tx_hash: &TxHash, p: BlobProofOutput, block: &mut Block) -> (res: Result<
        Option<TxHash>,
        TxError,
    >)
        requires
            old(self).wf(),
            old(block).wf(),
        ensures
            final(self).wf(),
            final(block).wf(),
            final(self).current_height == old(self).current_height,
            final(self).contracts == old(self).contracts,
            (final(self)@, final(block)@, proof_result_view(res)) == spec_handle_blob_proof(old(self)@, old(block)@, proof_tx_hash@, p),
    {
        let ghost s = self@;
        let ghost pg = p;
        let i = match crate::node_state::unsettled::find_tx(&self.unsettled_transactions, &p.blob_tx_hash) {
            None => {
                return Err(TxError::BlobTxNotFound);
            },
            Some(i) => i,
        };
        let should = crate::node_state::unsettled::is_next_to_settle(&self.unsettled_transactions, &p.blob_tx_hash);
        assert(s.txs[i as int] == self.unsettled_transactions@[i as int]@);
        record_origin(block, &self.unsettled_transactions[i]);
        match crate::node_state::verify_output::verify_hyle_output(&self.unsettled_transactions[i], &p.hyle_output) {
            Err(e) => {
                return Err(TxError::Output(e));
            },
            Ok(()) => {},
        }
        let k = p.hyle_output.index.0;
        if k >= self.unsettled_transactions[i].blobs.len() {
            return Err(TxError::BlobNotFound);
        }
        let BlobProofOutput { blob_tx_hash, program_id, hyle_output } = p;
        let mut t = self.unsettled_transactions.remove(i);
        let ghost tv = t@;
        let mut m = t.blobs.remove(k);
        assert(tv.blobs[k as int] == m@);
        let out_index = m.possible_proofs.len();
        let contract = m.blob.contract_name.copy();
        let ghost mp = m.possible_proofs@;
        let ghost pid = program_id@;
        m.possible_proofs.push((program_id, hyle_output));
        proof {
            assert(proofs_view(m.possible_proofs@) =~= proofs_view(mp).push((pid, pg.hyle_output)));
        }
        let ghost m2 = m@;
        t.blobs.insert(k, m);
        proof {
            assert(metas(t.blobs@) =~= tv.blobs.update(k as int, m2));
        }
        let th = t.hash.copy();
        let ghost t2 = t@;
        self.unsettled_transactions.insert(i, t);
        proof {
            assert(txs_view(self.unsettled_transactions@) =~= s.txs.update(i as int, t2));
            assert(t2.hash == s.txs[i as int].hash);
            assert forall|a: int, c: int|
                0 <= a < s.txs.len() && 0 <= c < s.txs.len() && a != c implies (#[trigger] s.txs.update(i as int, t2)[a]).hash
                != (#[trigger] s.txs.update(i as int, t2)[c]).hash by {
                assert(s.txs[a].hash != s.txs[c].hash);
            }
        }
        push_event(block, &blob_tx_hash, TransactionStateEvent::NewProof { blob_index: k, proof_tx_hash: proof_tx_hash.copy() });
        let ghost pr0 = block.blob_proof_outputs@;
        let kept = HandledBlobProofOutput {
            proof_tx_hash: proof_tx_hash.copy(),
            blob_tx_hash: th.copy(),
            blob_index: k,
            blob_proof_output_index: out_index,
            contract_name: contract,
        };
        let ghost kv = kept@;
        block.blob_proof_outputs.push(kept);
        proof {
            assert(block.blob_proof_outputs@.map_values(|q: HandledBlobProofOutput| q@) =~= pr0.map_values(
                |q: HandledBlobProofOutput| q@,
            ).push(kv));
            let r = spec_handle_blob_proof(s, old(block)@, proof_tx_hash@, pg);
            assert(block@ =~= r.1);
        }
        if should {
            Ok(Some(th))
        } else {
            Ok(None)
        }
    }
}

/// The deletions that the changes `ch` of transaction `bth` record.
pub open spec fn settled_deletions(ch: Map<Seq<char>, SideEffectView>, bth: Seq<char>) -> Set<(Seq<char>, Seq<char>)> {
    Set::new(|p: (Seq<char>, Seq<char>)| p.0 == bth && ch.contains_key(p.1) && ch[p.1] is Delete)
}

/// The registrations that the changes `ch` of transaction `bth` record.
pub open spec fn settled_registrations(ch: Map<Seq<char>, SideEffectView>, bth: Seq<char>) -> Set<(Seq<char>, RegisteredView)> {
    Set::new(
        |p: (Seq<char>, RegisteredView)|
            p.0 == bth && ch.contains_key(p.1.contract_name) && (ch[p.1.contract_name] matches SideEffectView::Register(c)
                && registered_of(c) == p.1),
    )
}

proof fn lemma_deleted_set(
    d0: Seq<(Seq<char>, Seq<char>)>,
    d: Seq<(Seq<char>, Seq<char>)>,
    ch: Map<Seq<char>, SideEffectView>,
    bth: Seq<char>,
)
    requires
        d0.len() <= d.len(),
        d.take(d0.len() as int) == d0,
        deleted_by(ch, bth, d.skip(d0.len() as int)),
    ensures
        d.to_set() == d0.to_set() + settled_deletions(ch, bth),
{
    let tail = d.skip(d0.len() as int);
    assert forall|p: (Seq<char>, Seq<char>)| d.to_set().contains(p) implies (d0.to_set() + settled_deletions(ch, bth)).contains(p) by {
        let i = choose|i: int| 0 <= i < d.len() && d[i] == p;
        if i < d0.len() {
            assert(d0[i] == p);
        } else {
            assert(tail[i - d0.len()] == p);
        }
    }
    assert forall|p: (Seq<char>, Seq<char>)| (d0.to_set() + settled_deletions(ch, bth)).contains(p) implies d.to_set().contains(p) by {
        if d0.to_set().contains(p) {
            let i = choose|i: int| 0 <= i < d0.len() && d0[i] == p;
            assert(d[i] == p);
        } else {
            assert(ch.contains_key(p.1) && ch[p.1] is Delete);
            let i = choose|i: int| 0 <= i < tail.len() && (#[trigger] tail[i]).1 == p.1;
            assert(tail[i].0 == bth);
            assert(d[i + d0.len()] == tail[i]);
        }
    }
    assert(d.to_set() =~= d0.to_set() + settled_deletions(ch, bth));
}

proof fn lemma_registered_set(
    r0: Seq<(Seq<char>, RegisteredView)>,
    r: Seq<(Seq<char>, RegisteredView)>,
    ch: Map<Seq<char>, SideEffectView>,
    bth: Seq<char>,
)
    requires
        r0.len() <= r.len(),
        r.take(r0.len() as int) == r0,
        registered_by(ch, bth, r.skip(r0.len() as int)),
    ensures
        r.to_set() == r0.to_set() + settled_registrations(ch, bth),
{
    let tail = r.skip(r0.len() as int);
    assert forall|p: (Seq<char>, RegisteredView)| r.to_set().contains(p) implies (r0.to_set() + settled_registrations(ch, bth)).contains(p) by {
        let i = choose|i: int| 0 <= i < r.len() && r[i] == p;
        if i < r0.len() {
            assert(r0[i] == p);
        } else {
            assert(tail[i - r0.len()] == p);
        }
    }
    assert forall|p: (Seq<char>, RegisteredView)| (r0.to_set() + settled_registrations(ch, bth)).contains(p) implies r.to_set().contains(p) by {
        if r0.to_set().contains(p) {
            let i = choose|i: int| 0 <= i < r0.len() && r0[i] == p;
            assert(r[i] == p);
        } else {
            let k = p.1.contract_name;
            assert(ch.contains_key(k) && ch[k] is Register);
            let i = choose|i: int| 0 <= i < tail.len() && (#[trigger] tail[i]).1.contract_name == k;
            assert(tail[i].0 == bth);
            assert(r[i + r0.len()] == tail[i]);
        }
    }
    assert(r.to_set() =~= r0.to_set() + settled_registrations(ch, bth));
}

/// The state and block once transaction `h`, with `n` blobs, settled with
/// outcome `r`: settled as failed, it is listed as failed; settled, it is
/// listed as successful with its blobs verified, its changes applied to the
/// contracts, and the deletions, registrations and new states recorded.
pub open spec fn spec_record(
    s: StateV,
    b: BlockV,
    h: Seq<char>,
    n: nat,
    r: Result<(Map<Seq<char>, SideEffectView>, Seq<usize>), ()>,
) -> (StateV, BlockV) {
    match r {
        Err(()) => (s, BlockV { events: b.events.push((h, EventV::SettledAsFailed)), failed: b.failed.push(h), ..b }),
        Ok((ch, idx)) => (
            StateV { contracts: spec_apply_changes(s.contracts, ch), ..s },
            BlockV {
                events: b.events.push((h, EventV::Settled)),
                successful: b.successful.push(h),
                verified: b.verified + verified_of(h, n, idx),
                deleted: b.deleted + settled_deletions(ch, h),
                registered: b.registered + settled_registrations(ch, h),
                states: b.states.union_prefer_right(state_updates(s.contracts, ch)),
                ..b
            },
        ),
    }
}

/// `todo` with, for each blob of `blobs` in order, the earliest transaction
/// of `txs` with a blob for its contract, each added once.
pub open spec fn add_nexts(todo: Seq<Seq<char>>, txs: Seq<TxV>, blobs: Seq<BlobMeta>) -> Seq<Seq<char>>
    decreases blobs.len(),
{
    if blobs.len() == 0 {
        todo
    } else {
        let t = add_nexts(todo, txs, blobs.drop_last());
        match next_of(txs, blobs.last().blob.contract_name@) {
            Some(n) => add_absent(t, n),
            None => t,
        }
    }
}

/// `b` with the lane and data proposal of `h` recorded as those of `t`.
pub open spec fn with_origin(b: BlockV, h: Seq<char>, t: TxV) -> BlockV {
    BlockV { parents: b.parents.insert(h, t.parent), lanes: b.lanes.insert(h, t.ctx.lane_id@), ..b }
}

/// `b` with an empty lane and data proposal recorded for `h` where it has
/// none.
pub open spec fn with_default_origin(b: BlockV, h: Seq<char>) -> BlockV {
    BlockV {
        parents: if b.parents.contains_key(h) {
            b.parents
        } else {
            b.parents.insert(h, Seq::empty())
        },
        lanes: if b.lanes.contains_key(h) {
            b.lanes
        } else {
            b.lanes.insert(h, Seq::empty())
        },
        ..b
    }
}

/// Settles the transactions of `todo`, least hash first, until none is
/// left. Settling one (see `spec_record`) removes it from the unsettled
/// transactions; one that settled successfully adds to `todo` the next
/// transaction of each of its contracts. One that cannot settle (not
/// unsettled, a blob for an unregistered contract, or not ready) gets a
/// settle-failed event and joins `failed`, the result.
pub open spec fn spec_settle_loop(s: StateV, b: BlockV, todo: Seq<Seq<char>>, failed: Seq<Seq<char>>) -> (
    StateV,
    BlockV,
    Seq<Seq<char>>,
)
    decreases s.txs.len(), todo.len(),
{
    if todo.len() == 0 {
        (s, b, failed)
    } else {
        let j = min_idx(todo, todo.len() as int);
        proof {
            lemma_min_idx_range(todo, todo.len() as int);
        }
        let h = todo[j];
        let rest = todo.remove(j);
        if !holds(s.txs, h) {
            spec_settle_loop(
                s,
                with_event(with_default_origin(b, h), h, EventV::SettleFailed(SettleError::NotFound)),
                rest,
                add_absent(failed, h),
            )
        } else {
            let i = pos_of(s.txs, h);
            let t = s.txs[i];
            let b1 = with_origin(b, h, t);
            if !all_registered(s.contracts, t.blobs) {
                spec_settle_loop(s, with_event(b1, h, EventV::SettleFailed(SettleError::UnregisteredContract)), rest, add_absent(failed, h))
            } else {
                match spec_settle(s.contracts, Map::empty(), t.blobs, 0, Seq::empty()) {
                    None => spec_settle_loop(s, with_event(b1, h, EventV::SettleFailed(SettleError::NotReady)), rest, add_absent(failed, h)),
                    Some(r) => {
                        let txs2 = s.txs.remove(i);
                        let (s2, b2) = spec_record(StateV { txs: txs2, ..s }, b1, h, t.blobs.len(), r);
                        let todo2 = if r is Ok {
                            add_nexts(rest, txs2, t.blobs)
                        } else {
                            rest
                        };
                        spec_settle_loop(s2, b2, todo2, failed)
                    },
                }
            }
        }
    }
}

/// Removing a transaction keeps the hashes distinct.
proof fn lemma_remove_distinct(s: Seq<TxV>, i: int)
    requires
        distinct_hashes(s),
        0 <= i < s.len(),
    ensures
        distinct_hashes(s.remove(i)),
{
    let r = s.remove(i);
    assert forall|a: int, c: int| 0 <= a < r.len() && 0 <= c < r.len() && a != c implies (#[trigger] r[a]).hash != (#[trigger] r[c]).hash by {
        let a0 = if a < i { a } else { a + 1 };
        let c0 = if c < i { c } else { c + 1 };
        assert(r[a] == s[a0]);
        assert(r[c] == s[c0]);
        assert(s[a0].hash != s[c0].hash);
    }
}

/// Records in `block` an empty lane and data proposal for `h` where it has
/// none.
fn record_default_origin(block: &mut Block, h: &TxHash)
    requires
        old(block).wf(),
    ensures
        final(block).wf(),
        final(block)@ == with_default_origin(old(block)@, h@),
{
    let ghost p0 = block.dp_parent_hashes.view();
    let ghost l0 = block.lane_ids.view();
    if !block.dp_parent_hashes.contains_key(&h.0) {
        let e = String::new();
        block.dp_parent_hashes.insert(h.0.clone(), e);
        proof {
            assert(str_values(p0.insert(h@, e)) =~= str_values(p0).insert(h@, Seq::<char>::empty()));
        }
    }
    if !block.lane_ids.contains_key(&h.0) {
        let e = String::new();
        block.lane_ids.insert(h.0.clone(), e);
        proof {
            assert(str_values(l0.insert(h@, e)) =~= str_values(l0).insert(h@, Seq::<char>::empty()));
        }
    }
    proof {
        assert(block@ =~= with_default_origin(old(block)@, h@));
    }
}

/// Adds to `todo`, for each blob of `blobs` in order, the earliest
/// transaction of `txs` with a blob for its contract, unless `todo` holds
/// it.
fn add_next_txs(txs: &Vec<UnsettledBlobTransaction>, blobs: &Vec<UnsettledBlobMetadata>, todo: &mut Vec<TxHash>)
    ensures
        hashes_view(final(todo)@) == add_nexts(hashes_view(old(todo)@), txs_view(txs@), metas(blobs@)),
{
    let ghost t0 = hashes_view(todo@);
    let ghost ms = metas(blobs@);
    let mut k: usize = 0;
    proof {
        assert(ms.take(0) =~= Seq::<BlobMeta>::empty());
    }
    while k < blobs.len()
        invariant
            k <= blobs@.len(),
            ms == metas(blobs@),
            hashes_view(todo@) == add_nexts(t0, txs_view(txs@), ms.take(k as int)),
        decreases blobs@.len() - k,
    {
        proof {
            assert(ms.take(k + 1).drop_last() =~= ms.take(k as int));
            assert(ms.take(k + 1).last() == blobs@[k as int]@);
        }
        match crate::node_state::unsettled::next_unsettled_of(txs, &blobs[k].blob.contract_name) {
            Some(n) => {
                push_absent(todo, n);
            },
            None => {},
        }
        k = k + 1;
    }
    proof {
        assert(ms.take(blobs@.len() as int) =~= ms);
    }
}

impl NodeState {
    /// Settles the transactions of `todo` as `spec_settle_loop` states; the
    /// result is those that could not settle.
    pub fn settle_txs_until_done(&mut self, block: &mut Block, todo: Vec<TxHash>) -> (res: Vec<TxHash>)
        requires
            old(self).wf(),
            old(block).wf(),
        ensures
            final(self).wf(),
            final(block).wf(),
            final(self).current_height == old(self).current_height,
            final(self).timeouts == old(self).timeouts,
            (final(self)@, final(block)@, hashes_view(res@)) == spec_settle_loop(old(self)@, old(block)@, hashes_view(todo@), Seq::empty()),
    {
        let ghost goal = spec_settle_loop(self@, block@, hashes_view(todo@), Seq::empty());
        let mut todo = todo;
        let mut failed: Vec<TxHash> = Vec::new();
        proof {
            assert(hashes_view(failed@) =~= Seq::<Seq<char>>::empty());
        }
        while todo.len() > 0
            invariant
                self.wf(),
                block.wf(),
                self.current_height == old(self).current_height,
                self.timeouts == old(self).timeouts,
                spec_settle_loop(self@, block@, hashes_view(todo@), hashes_view(failed@)) == goal,
            decreases self.unsettled_transactions@.len(), todo@.len(),
        {
            let ghost s = self@;
            let ghost b = block@;
            let ghost tv = hashes_view(todo@);
            let ghost fv = hashes_view(failed@);
            let j = min_index(&todo);
            let h = todo.remove(j);
            proof {
                assert(hashes_view(todo@) =~= tv.remove(j as int));
                assert(h@ == tv[j as int]);
            }
            match crate::node_state::unsettled::find_tx(&self.unsettled_transactions, &h) {
                None => {
                    record_default_origin(block, &h);
                    push_event(block, &h, TransactionStateEvent::SettleFailed(SettleError::NotFound));
                    push_absent(&mut failed, h);
                },
                Some(i) => {
                    assert(s.txs[i as int] == self.unsettled_transactions@[i as int]@);
                    record_origin(block, &self.unsettled_transactions[i]);
                    let ghost b1 = block@;
                    match try_to_settle_blob_tx(&self.contracts, &self.unsettled_transactions[i].blobs) {
                        Err(e) => {
                            push_event(block, &h, TransactionStateEvent::SettleFailed(e));
                            push_absent(&mut failed, h);
                        },
                        Ok(r) => {
                            let t = self.unsettled_transactions.remove(i);
                            proof {
                                assert(txs_view(self.unsettled_transactions@) =~= s.txs.remove(i as int));
                                lemma_remove_distinct(s.txs, i as int);
                            }
                            let ghost d0 = block.settled.deleted_view();
                            let ghost r0 = block.settled.registered_view();
                            let ghost rg = r;
                            let ok = r.is_ok();
                            record_settled_tx(&mut self.contracts, &mut block.settled, h.copy(), t.blobs.len(), r);
                            proof {
                                match rg {
                                    Ok(res) => {
                                        let ch = changes_view(res.contract_changes.view());
                                        lemma_deleted_set(d0, block.settled.deleted_view(), ch, h@);
                                        lemma_registered_set(r0, block.settled.registered_view(), ch, h@);
                                    },
                                    Err(()) => {},
                                }
                                let sr = spec_record(StateV { txs: s.txs.remove(i as int), ..s }, b1, h@, t@.blobs.len(), match rg {
                                    Ok(res) => Ok((changes_view(res.contract_changes.view()), res.blob_proof_output_indices@)),
                                    Err(()) => Err(()),
                                });
                                assert(hashes_view(block.settled.failed_txs@) =~= sr.1.failed);
                                assert(hashes_view(block.settled.successful_txs@) =~= sr.1.successful);
                                assert(block@ =~= sr.1);
                                assert(self@ =~= sr.0);
                            }
                            if ok {
                                add_next_txs(&self.unsettled_transactions, &t.blobs, &mut todo);
                            }
                        },
                    }
                },
            }
        }
        failed
    }
}

/// Sets, least hash first, the timeout of each transaction of `list` that
/// is next to settle: its window after `from` when given, else after the
/// height of its own context.
pub open spec fn spec_set_timeouts(s: StateV, list: Seq<Seq<char>>, from: Option<u64>) -> StateV
    decreases list.len(),
{
    if list.len() == 0 {
        s
    } else {
        let j = min_idx(list, list.len() as int);
        proof {
            lemma_min_idx_range(list, list.len() as int);
        }
        let h = list[j];
        let s2 = if is_next(s.txs, h) {
            let at = match from {
                Some(f) => f,
                None => s.txs[pos_of(s.txs, h)].ctx.block_height.0,
            };
            StateV { timeouts: timeout_after(s, h, at), ..s }
        } else {
            s
        };
        spec_set_timeouts(s2, list.remove(j), from)
    }
}

impl NodeState {
    /// Sets the timeouts of `list` as `spec_set_timeouts` states.
    fn set_timeouts(&mut self, list: Vec<TxHash>, from: Option<u64>)
        requires
            old(self).wf(),
        ensures
            final(self).wf(),
            final(self).current_height == old(self).current_height,
            final(self).contracts == old(self).contracts,
            final(self).unsettled_transactions == old(self).unsettled_transactions,
            final(self)@ == spec_set_timeouts(old(self)@, hashes_view(list@), from),
    {
        let ghost goal = spec_set_timeouts(self@, hashes_view(list@), from);
        let mut list = list;
        while list.len() > 0
            invariant
                self.wf(),
                self.current_height == old(self).current_height,
                self.contracts == old(self).contracts,
                self.unsettled_transactions == old(self).unsettled_transactions,
                spec_set_timeouts(self@, hashes_view(list@), from) == goal,
            decreases list@.len(),
        {
            let ghost s = self@;
            let ghost lv = hashes_view(list@);
            let j = min_index(&list);
            let h = list.remove(j);
            proof {
                assert(hashes_view(list@) =~= lv.remove(j as int));
                assert(h@ == lv[j as int]);
            }
            if crate::node_state::unsettled::is_next_to_settle(&self.unsettled_transactions, &h) {
                match crate::node_state::unsettled::find_tx(&self.unsettled_transactions, &h) {
                    Some(i) => {
                        assert(s.txs[i as int] == self.unsettled_transactions@[i as int]@);
                        let at = match from {
                            Some(f) => f,
                            None => self.unsettled_transactions[i].tx_context.block_height.0,
                        };
                        let w = tx_timeout_window(&self.contracts, &self.unsettled_transactions[i].blobs);
                        match w {
                            TimeoutWindow::Timeout(wh) => {
                                let when = wrapping_height_exec(at, wh.0);
                                self.timeouts.set_at(h, when);
                            },
                            TimeoutWindow::NoTimeout => {},
                        }
                    },
                    None => {},
                }
            }
            proof {
                assert(self@ =~= if is_next(s.txs, h@) {
                    StateV {
                        timeouts: timeout_after(s, h@, match from {
                            Some(f) => f,
                            None => s.txs[pos_of(s.txs, h@)].ctx.block_height.0,
                        }),
                        ..s
                    }
                } else {
                    s
                });
            }
        }
    }
}

/// Times out, in order, the transactions of `list` from position `k` that
/// are still unsettled. Each leaves the unsettled transactions with a
/// timed-out event, its lane and data proposal recorded; the next
/// transaction of each of its contracts is then settled as far as it goes
/// (`spec_settle_loop`), and those of them left unsettled get their
/// timeouts set from the current height. The block lists the transactions
/// that timed out, `kept` and those after.
pub open spec fn spec_timeout_each(s: StateV, b: BlockV, list: Seq<Seq<char>>, k: int, kept: Seq<Seq<char>>) -> (StateV, BlockV)
    decreases list.len() - k,
{
    if k < 0 || k >= list.len() {
        (s, BlockV { timed_out: kept, ..b })
    } else {
        let h = list[k];
        if !holds(s.txs, h) {
            spec_timeout_each(s, b, list, k + 1, kept)
        } else {
            let i = pos_of(s.txs, h);
            let t = s.txs[i];
            let s1 = StateV { txs: s.txs.remove(i), ..s };
            let b1 = with_origin(with_event(b, h, EventV::TimedOut), h, t);
            let todo = add_nexts(Seq::empty(), s1.txs, t.blobs);
            let (s2, b2, left) = spec_settle_loop(s1, b1, todo, Seq::empty());
            let s3 = spec_set_timeouts(s2, left, Some(s.height));
            spec_timeout_each(s3, b2, list, k + 1, kept.push(h))
        }
    }
}

/// The timeouts of the block's height fire: they are dropped from the
/// timeouts, and the transactions they name are timed out as
/// `spec_timeout_each` states.
pub open spec fn spec_clear_timeouts(s: StateV, b: BlockV) -> (StateV, BlockV) {
    let list = timeouts_at(s.timeouts, b.height);
    spec_timeout_each(StateV { timeouts: s.timeouts.remove(b.height), ..s }, b, list, 0, Seq::empty())
}

impl NodeState {
    /// Handles the timeouts that fire at the block's height, as
    /// `spec_clear_timeouts` states: 1. the transactions that timed out
    /// are taken; 2. for each contract they involve, the next transaction
    /// to settle is found; 3. those are settled as far as they go; 4. the
    /// ones left unsettled get their timeouts set.
    pub fn clear_timeouts(&mut self, block: &mut Block)
        requires
            old(self).wf(),
            old(block).wf(),
        ensures
            final(self).wf(),
            final(block).wf(),
            final(self).current_height == old(self).current_height,
            (final(self)@, final(block)@) == spec_clear_timeouts(old(self)@, old(block)@),
    {
        let ghost goal = spec_clear_timeouts(self@, block@);
        let ghost t0 = self.timeouts.by_block();
        let list = self.timeouts.drop(&block.block_height);
        let ghost lv = hashes_view(list@);
        let mut kept: Vec<TxHash> = Vec::new();
        proof {
            assert(hashes_view(kept@) =~= Seq::<Seq<char>>::empty());
        }
        let mut k: usize = 0;
        while k < list.len()
            invariant
                self.wf(),
                block.wf(),
                self.current_height == old(self).current_height,
                lv == hashes_view(list@),
                k <= list@.len(),
                spec_timeout_each(self@, block@, lv, k as int, hashes_view(kept@)) == goal,
            decreases list@.len() - k,
        {
            let ghost s = self@;
            let ghost b = block@;
            let ghost kv = hashes_view(kept@);
            let h = &list[k];
            assert(lv[k as int] == h@);
            match crate::node_state::unsettled::find_tx(&self.unsettled_transactions, h) {
                None => {},
                Some(i) => {
                    assert(s.txs[i as int] == self.unsettled_transactions@[i as int]@);
                    let t = self.unsettled_transactions.remove(i);
                    proof {
                        assert(txs_view(self.unsettled_transactions@) =~= s.txs.remove(i as int));
                        lemma_remove_distinct(s.txs, i as int);
                    }
                    push_event(block, h, TransactionStateEvent::TimedOut);
                    record_origin(block, &t);
                    let mut todo: Vec<TxHash> = Vec::new();
                    proof {
                        assert(hashes_view(todo@) =~= Seq::<Seq<char>>::empty());
                    }
                    add_next_txs(&self.unsettled_transactions, &t.blobs, &mut todo);
                    let left = self.settle_txs_until_done(block, todo);
                    let height = self.current_height.0;
                    self.set_timeouts(left, Some(height));
                    kept.push(h.copy());
                    proof {
                        assert(hashes_view(kept@) =~= kv.push(h@));
                    }
                },
            }
            k = k + 1;
        }
        let ghost b = block@;
        block.timed_out_txs = kept;
        proof {
            assert(block@ =~= BlockV { timed_out: hashes_view(block.timed_out_txs@), ..b });
        }
    }
}

/// The context of a blob transaction of the signed block `sb` on lane
/// `lane`.
pub open spec fn tx_context_of(sb: SignedBlock, lane: String) -> TxContext {
    TxContext { lane_id: lane, block_hash: sb.hash, block_height: sb.height, timestamp: sb.timestamp, chain_id: sb.chain_id }
}

/// Handles, in order, the proof outputs of `outs` from position `k`,
/// carried by the proof transaction `h` (`spec_handle_blob_proof`). A
/// refused output gives an error event for `h`; the transactions that an
/// output names as next to settle join `todo`.
pub open spec fn spec_proofs(s: StateV, b: BlockV, h: Seq<char>, outs: Seq<BlobProofOutput>, k: int, todo: Seq<Seq<char>>) -> (
    StateV,
    BlockV,
    Seq<Seq<char>>,
)
    decreases outs.len() - k,
{
    if k < 0 || k >= outs.len() {
        (s, b, todo)
    } else {
        let (s1, b1, r) = spec_handle_blob_proof(s, b, h, outs[k]);
        match r {
            Ok(Some(x)) => spec_proofs(s1, b1, h, outs, k + 1, add_absent(todo, x)),
            Ok(None) => spec_proofs(s1, b1, h, outs, k + 1, todo),
            Err(e) => spec_proofs(s1, with_event(b1, h, EventV::Error(e)), h, outs, k + 1, todo),
        }
    }
}

/// Handles one transaction `e` of a block, in context `ctx` when it is a
/// blob transaction. The block records
/// its lane and data proposal. A blob transaction is handled by
/// `spec_handle_blob_tx`: one that should settle is settled as far as it
/// goes, one that waits gets a sequenced event, a refused one an error
/// event and a place among the failed transactions. A proof that was not
/// verified does nothing. The outputs of a verified proof are handled by
/// `spec_proofs`, and the transactions they name are settled as far as
/// they go. Those left unsettled get their timeouts set from their own
/// heights, and the block lists the transaction.
pub open spec fn spec_handle_tx(s: StateV, b: BlockV, e: BlockTx, ctx: TxContext) -> (StateV, BlockV) {
    let h = e.tx_hash@;
    let b0 = BlockV { lanes: b.lanes.insert(h, e.lane_id@), parents: b.parents.insert(h, e.dp_hash@), ..b };
    let (s1, b1, left) = match e.data {
        TxData::Blob(tx) => {
            let (s1, r) = spec_handle_blob_tx(s, e.dp_hash@, h, tx, ctx);
            match r {
                Ok(HandledTxV::ShouldSettle(x)) => spec_settle_loop(s1, b0, seq![x], Seq::empty()),
                Ok(HandledTxV::Duplicate) => (s1, b0, Seq::empty()),
                Ok(HandledTxV::Sequenced) => (s1, with_event(b0, h, EventV::Sequenced), Seq::empty()),
                Err(err) => (s1, BlockV { failed: b0.failed.push(h), ..with_event(b0, h, EventV::Error(err)) }, Seq::empty()),
            }
        },
        TxData::Proof => (s, b0, Seq::empty()),
        TxData::VerifiedProof(outs) => {
            let (s1, b1, todo) = spec_proofs(s, b0, h, outs@, 0, Seq::empty());
            spec_settle_loop(s1, b1, todo, Seq::empty())
        },
    };
    (spec_set_timeouts(s1, left, None), BlockV { txs: b1.txs.push((e.dp_hash@, h)), ..b1 })
}

/// Handles, in order, the transactions of `txs` from position `k`.
pub open spec fn spec_txs(s: StateV, b: BlockV, sb: SignedBlock, txs: Seq<BlockTx>, k: int) -> (StateV, BlockV)
    decreases txs.len() - k,
{
    if k < 0 || k >= txs.len() {
        (s, b)
    } else {
        let (s1, b1) = spec_handle_tx(s, b, txs[k], tx_context_of(sb, txs[k].lane_id));
        spec_txs(s1, b1, sb, txs, k + 1)
    }
}

/// The block that `sb` starts from: its height, hash, parent and time, and
/// nothing recorded.
pub open spec fn empty_block(sb: SignedBlock) -> BlockV {
    BlockV {
        height: sb.height.0,
        hash: sb.hash@,
        parent_hash: sb.parent_hash@,
        timestamp: sb.timestamp,
        txs: Seq::empty(),
        events: Seq::empty(),
        failed: Seq::empty(),
        successful: Seq::empty(),
        timed_out: Seq::empty(),
        verified: Seq::empty(),
        deleted: Set::empty(),
        registered: Set::empty(),
        states: Map::empty(),
        proofs: Seq::empty(),
        lanes: Map::empty(),
        parents: Map::empty(),
    }
}

/// A signed block moves the node to its height; the timeouts of that
/// height fire (`spec_clear_timeouts`); then its transactions are handled
/// in order (`spec_txs`). The result is the state reached and the block
/// built.
pub open spec fn spec_handle_signed_block(s: StateV, sb: SignedBlock) -> (StateV, BlockV) {
    let (s1, b1) = spec_clear_timeouts(StateV { height: sb.height.0, ..s }, empty_block(sb));
    spec_txs(s1, b1, sb, sb.txs@, 0)
}

impl NodeState {
    /// Handles the proof outputs of a verified proof transaction `h`, as
    /// `spec_proofs` states; the result is the transactions to try to
    /// settle.
    fn handle_proofs(&mut self, block: &mut Block, h: &TxHash, outs: Vec<BlobProofOutput>) -> (res: Vec<TxHash>)
        requires
            old(self).wf(),
            old(block).wf(),
        ensures
            final(self).wf(),
            final(block).wf(),
            final(self).current_height == old(self).current_height,
            (final(self)@, final(block)@, hashes_view(res@)) == spec_proofs(old(self)@, old(block)@, h@, outs@, 0, Seq::empty()),
    {
        let ghost orig = outs@;
        let ghost goal = spec_proofs(self@, block@, h@, orig, 0, Seq::empty());
        let mut rest = outs;
        let mut todo: Vec<TxHash> = Vec::new();
        let ghost mut k: int = 0;
        proof {
            assert(hashes_view(todo@) =~= Seq::<Seq<char>>::empty());
            assert(orig.skip(0) =~= orig);
        }
        while rest.len() > 0
            invariant
                self.wf(),
                block.wf(),
                self.current_height == old(self).current_height,
                0 <= k <= orig.len(),
                rest@ == orig.skip(k),
                spec_proofs(self@, block@, h@, orig, k, hashes_view(todo@)) == goal,
            decreases rest@.len(),
        {
            let p = rest.remove(0);
            assert(p == orig[k]);
            match self.handle_blob_proof(h, p, block) {
                Ok(Some(x)) => {
                    push_absent(&mut todo, x);
                },
                Ok(None) => {},
                Err(e) => {
                    push_event(block, h, TransactionStateEvent::Error(e));
                },
            }
            proof {
                k = k + 1;
                assert(rest@ =~= orig.skip(k));
            }
        }
        todo
    }

    /// Handles one transaction of a block, as `spec_handle_tx` states.
    fn handle_tx(&mut self, block: &mut Block, e: BlockTx, ctx: TxContext)
        requires
            old(self).wf(),
            old(block).wf(),
        ensures
            final(self).wf(),
            final(block).wf(),
            final(self).current_height == old(self).current_height,
            (final(self)@, final(block)@) == spec_handle_tx(old(self)@, old(block)@, e, ctx),
    {
        let ghost eg = e;
        let BlockTx { lane_id, dp_hash, tx_hash, data } = e;
        let ghost l0 = block.lane_ids.view();
        let ghost p0 = block.dp_parent_hashes.view();
        let ghost lv = lane_id@;
        block.lane_ids.insert(tx_hash.0.clone(), lane_id);
        let parent = dp_hash.clone();
        block.dp_parent_hashes.insert(tx_hash.0.clone(), parent);
        proof {
            assert(str_values(block.lane_ids.view()) =~= str_values(l0).insert(tx_hash@, lv));
            assert(str_values(block.dp_parent_hashes.view()) =~= str_values(p0).insert(tx_hash@, dp_hash@));
        }
        let left: Vec<TxHash> = match data {
            TxData::Blob(tx) => {
                match self.handle_blob_tx(dp_hash.clone(), tx_hash.copy(), tx, ctx) {
                    Ok(BlobTxHandled::ShouldSettle(x)) => {
                        let mut todo: Vec<TxHash> = Vec::new();
                        todo.push(x);
                        proof {
                            assert(hashes_view(todo@) =~= seq![todo@[0]@]);
                        }
                        self.settle_txs_until_done(block, todo)
                    },
                    Ok(BlobTxHandled::Duplicate) => Vec::new(),
                    Ok(BlobTxHandled::Sequenced) => {
                        push_event(block, &tx_hash, TransactionStateEvent::Sequenced);
                        Vec::new()
                    },
                    Err(err) => {
                        push_event(block, &tx_hash, TransactionStateEvent::Error(err));
                        let ghost b1 = block@;
                        block.settled.failed_txs.push(tx_hash.copy());
                        proof {
                            assert(block@ =~= BlockV { failed: b1.failed.push(tx_hash@), ..b1 });
                        }
                        Vec::new()
                    },
                }
            },
            TxData::Proof => Vec::new(),
            TxData::VerifiedProof(outs) => {
                let todo = self.handle_proofs(block, &tx_hash, outs);
                self.settle_txs_until_done(block, todo)
            },
        };
        proof {
            assert(hashes_view(Seq::<TxHash>::empty()) =~= Seq::<Seq<char>>::empty());
        }
        self.set_timeouts(left, None);
        let ghost b2 = block@;
        let ghost entry = (dp_hash@, tx_hash@);
        block.txs.push((dp_hash, tx_hash));
        proof {
            assert(block@ =~= BlockV { txs: b2.txs.push(entry), ..b2 });
        }
    }

    /// Handles a signed block, as `spec_handle_signed_block` states: the
    /// node moves to its height, the timeouts of that height fire, and its
    /// transactions are handled in order. The result is the block built.
    pub fn handle_signed_block(&mut self, sb: SignedBlock) -> (res: Block)
        requires
            old(self).wf(),
        ensures
            final(self).wf(),
            res.wf(),
            final(self).current_height == sb.height,
            (final(self)@, res@) == spec_handle_signed_block(old(self)@, sb),
    {
        let ghost sbg = sb;
        let SignedBlock { height, hash, parent_hash, timestamp, chain_id, txs } = sb;
        self.current_height = BlockHeight(height.0);
        let mut block = Block {
            block_height: BlockHeight(height.0),
            hash: hash.clone(),
            parent_hash,
            block_timestamp: timestamp,
            txs: Vec::new(),
            settled: SettledBlock::new(),
            timed_out_txs: Vec::new(),
            blob_proof_outputs: Vec::new(),
            lane_ids: StrMap::new(),
            dp_parent_hashes: StrMap::new(),
        };
        proof {
            assert(block.txs@.map_values(|t: (String, TxHash)| (t.0@, t.1@)) =~= Seq::<(Seq<char>, Seq<char>)>::empty());
            assert(hashes_view(block.settled.failed_txs@) =~= Seq::<Seq<char>>::empty());
            assert(hashes_view(block.settled.successful_txs@) =~= Seq::<Seq<char>>::empty());
            assert(hashes_view(block.timed_out_txs@) =~= Seq::<Seq<char>>::empty());
            assert(block.blob_proof_outputs@.map_values(|p: HandledBlobProofOutput| p@) =~= Seq::<HandledV>::empty());
            assert(str_values(block.lane_ids.view()) =~= Map::<Seq<char>, Seq<char>>::empty());
            assert(str_values(block.dp_parent_hashes.view()) =~= Map::<Seq<char>, Seq<char>>::empty());
            assert(block.settled.deleted_view().to_set() =~= Set::<(Seq<char>, Seq<char>)>::empty());
            assert(block.settled.registered_view().to_set() =~= Set::<(Seq<char>, RegisteredView)>::empty());
            assert(block@ =~= empty_block(sbg));
        }
        self.clear_timeouts(&mut block);
        let ghost goal = spec_txs(self@, block@, sbg, sbg.txs@, 0);
        let mut rest = txs;
        let ghost mut k: int = 0;
        proof {
            assert(sbg.txs@.skip(0) =~= sbg.txs@);
        }
        while rest.len() > 0
            invariant
                self.wf(),
                block.wf(),
                self.current_height == sbg.height,
                hash == sbg.hash,
                height == sbg.height,
                timestamp == sbg.timestamp,
                chain_id == sbg.chain_id,
                0 <= k <= sbg.txs@.len(),
                rest@ == sbg.txs@.skip(k),
                spec_txs(self@, block@, sbg, sbg.txs@, k) == goal,
            decreases rest@.len(),
        {
            let e = rest.remove(0);
            assert(e == sbg.txs@[k]);
            let ctx = TxContext {
                lane_id: e.lane_id.clone(),
                block_hash: hash.clone(),
                block_height: BlockHeight(height.0),
                timestamp,
                chain_id,
            };
            assert(ctx == tx_context_of(sbg, e.lane_id));
            self.handle_tx(&mut block, e, ctx);
            proof {
                k = k + 1;
                assert(rest@ =~= sbg.txs@.skip(k));
            }
        }
        block
    }
}

/// The 'hyle' contract that every node starts with: no program id, state
/// `[0]`, verifier 'hyle', no timeout.
pub open spec fn hyle_contract_view() -> ContractView {
    ContractView {
        name: hyle_chars(),
        program_id: Seq::empty(),
        state: seq![0u8],
        verifier: hyle_chars(),
        timeout_window: TimeoutWindow::NoTimeout,
    }
}

impl NodeState {
    /// A node at height 0 whose only contract is 'hyle', with no timeout
    /// and no unsettled transaction.
    pub fn new() -> (res: NodeState)
        ensures
            res.wf(),
            res@ == (StateV {
                height: 0,
                contracts: map![hyle_chars() => hyle_contract_view()],
                timeouts: Map::empty(),
                txs: Seq::empty(),
            }),
    {
        let lit = "hyle";
        proof {
            reveal_strlit("hyle");
            assert(lit@ =~= hyle_chars());
        }
        let mut state = Vec::new();
        state.push(0u8);
        let c = Contract {
            name: ContractName(String::from_str(lit)),
            program_id: ProgramId(Vec::new()),
            state: StateDigest(state),
            verifier: Verifier(String::from_str(lit)),
            timeout_window: TimeoutWindow::NoTimeout,
        };
        let mut contracts: StrMap<Contract> = StrMap::new();
        contracts.insert(String::from_str(lit), c);
        let res = NodeState {
            current_height: BlockHeight(0),
            contracts,
            timeouts: Timeouts::default(),
            unsettled_transactions: Vec::new(),
        };
        proof {
            assert(c@.program_id =~= Seq::<u8>::empty());
            assert(c@.state =~= seq![0u8]);
            assert(contracts_view(res.contracts.view()) =~= map![hyle_chars() => hyle_contract_view()]);
            assert(txs_view(res.unsettled_transactions@) =~= Seq::<TxV>::empty());
        }
        res
    }
}

/// The entries of a block's transactions: data proposal and hash.
pub open spec fn entries_of(txs: Seq<BlockTx>) -> Seq<(Seq<char>, Seq<char>)> {
    txs.map_values(|e: BlockTx| (e.dp_hash@, e.tx_hash@))
}

proof fn lemma_settle_loop_keeps_txs(s: StateV, b: BlockV, todo: Seq<Seq<char>>, failed: Seq<Seq<char>>)
    ensures
        spec_settle_loop(s, b, todo, failed).1.txs == b.txs,
    decreases s.txs.len(), todo.len(),
{
    if todo.len() > 0 {
        let j = min_idx(todo, todo.len() as int);
        lemma_min_idx_range(todo, todo.len() as int);
        let h = todo[j];
        let rest = todo.remove(j);
        if !holds(s.txs, h) {
            lemma_settle_loop_keeps_txs(
                s,
                with_event(with_default_origin(b, h), h, EventV::SettleFailed(SettleError::NotFound)),
                rest,
                add_absent(failed, h),
            );
        } else {
            let i = pos_of(s.txs, h);
            let t = s.txs[i];
            let b1 = with_origin(b, h, t);
            if !all_registered(s.contracts, t.blobs) {
                lemma_settle_loop_keeps_txs(
                    s,
                    with_event(b1, h, EventV::SettleFailed(SettleError::UnregisteredContract)),
                    rest,
                    add_absent(failed, h),
                );
            } else {
                match spec_settle(s.contracts, Map::empty(), t.blobs, 0, Seq::empty()) {
                    None => {
                        lemma_settle_loop_keeps_txs(s, with_event(b1, h, EventV::SettleFailed(SettleError::NotReady)), rest, add_absent(failed, h));
                    },
                    Some(r) => {
                        let txs2 = s.txs.remove(i);
                        let (s2, b2) = spec_record(StateV { txs: txs2, ..s }, b1, h, t.blobs.len(), r);
                        let todo2 = if r is Ok {
                            add_nexts(rest, txs2, t.blobs)
                        } else {
                            rest
                        };
                        lemma_settle_loop_keeps_txs(s2, b2, todo2, failed);
                    },
                }
            }
        }
    }
}

proof fn lemma_proofs_keep_txs(s: StateV, b: BlockV, h: Seq<char>, outs: Seq<BlobProofOutput>, k: int, todo: Seq<Seq<char>>)
    ensures
        spec_proofs(s, b, h, outs, k, todo).1.txs == b.txs,
    decreases outs.len() - k,
{
    if 0 <= k < outs.len() {
        let (s1, b1, r) = spec_handle_blob_proof(s, b, h, outs[k]);
        match r {
            Ok(Some(x)) => lemma_proofs_keep_txs(s1, b1, h, outs, k + 1, add_absent(todo, x)),
            Ok(None) => lemma_proofs_keep_txs(s1, b1, h, outs, k + 1, todo),
            Err(e) => lemma_proofs_keep_txs(s1, with_event(b1, h, EventV::Error(e)), h, outs, k + 1, todo),
        }
    }
}

proof fn lemma_timeout_each_keeps_txs(s: StateV, b: BlockV, list: Seq<Seq<char>>, k: int, kept: Seq<Seq<char>>)
    ensures
        spec_timeout_each(s, b, list, k, kept).1.txs == b.txs,
    decreases list.len() - k,
{
    if 0 <= k < list.len() {
        let h = list[k];
        if !holds(s.txs, h) {
            lemma_timeout_each_keeps_txs(s, b, list, k + 1, kept);
        } else {
            let i = pos_of(s.txs, h);
            let t = s.txs[i];
            let s1 = StateV { txs: s.txs.remove(i), ..s };
            let b1 = with_origin(with_event(b, h, EventV::TimedOut), h, t);
            let todo = add_nexts(Seq::empty(), s1.txs, t.blobs);
            let (s2, b2, left) = spec_settle_loop(s1, b1, todo, Seq::empty());
            lemma_settle_loop_keeps_txs(s1, b1, todo, Seq::empty());
            let s3 = spec_set_timeouts(s2, left, Some(s.height));
            lemma_timeout_each_keeps_txs(s3, b2, list, k + 1, kept.push(h));
        }
    }
}

proof fn lemma_handle_tx_lists_it(s: StateV, b: BlockV, e: BlockTx, ctx: TxContext)
    ensures
        spec_handle_tx(s, b, e, ctx).1.txs == b.txs.push((e.dp_hash@, e.tx_hash@)),
{
    let h = e.tx_hash@;
    let b0 = BlockV { lanes: b.lanes.insert(h, e.lane_id@), parents: b.parents.insert(h, e.dp_hash@), ..b };
    match e.data {
        TxData::Blob(tx) => {
            let (s1, r) = spec_handle_blob_tx(s, e.dp_hash@, h, tx, ctx);
            match r {
                Ok(HandledTxV::ShouldSettle(x)) => lemma_settle_loop_keeps_txs(s1, b0, seq![x], Seq::empty()),
                _ => {},
            }
        },
        TxData::Proof => {},
        TxData::VerifiedProof(outs) => {
            let (s1, b1, todo) = spec_proofs(s, b0, h, outs@, 0, Seq::empty());
            lemma_proofs_keep_txs(s, b0, h, outs@, 0, Seq::empty());
            lemma_settle_loop_keeps_txs(s1, b1, todo, Seq::empty());
        },
    }
}

proof fn lemma_txs_listed(s: StateV, b: BlockV, sb: SignedBlock, txs: Seq<BlockTx>, k: int)
    requires
        0 <= k <= txs.len(),
    ensures
        spec_txs(s, b, sb, txs, k).1.txs == b.txs + entries_of(txs.skip(k)),
    decreases txs.len() - k,
{
    if k == txs.len() {
        assert(entries_of(txs.skip(k)) =~= Seq::<(Seq<char>, Seq<char>)>::empty());
        assert(b.txs + entries_of(txs.skip(k)) =~= b.txs);
    } else {
        let ctx = tx_context_of(sb, txs[k].lane_id);
        let (s1, b1) = spec_handle_tx(s, b, txs[k], ctx);
        lemma_handle_tx_lists_it(s, b, txs[k], ctx);
        lemma_txs_listed(s1, b1, sb, txs, k + 1);
        assert(entries_of(txs.skip(k)) =~= seq![(txs[k].dp_hash@, txs[k].tx_hash@)] + entries_of(txs.skip(k + 1)));
        assert(b.txs.push((txs[k].dp_hash@, txs[k].tx_hash@)) + entries_of(txs.skip(k + 1)) =~= b.txs + entries_of(txs.skip(k)));
    }
}

/// The block built from a signed block lists each of its transactions,
/// with its data proposal, once and in order, whatever happens to them.
pub proof fn lemma_block_lists_its_txs(s: StateV, sb: SignedBlock)
    ensures
        spec_handle_signed_block(s, sb).1.txs == entries_of(sb.txs@),
{
    let s0 = StateV { height: sb.height.0, ..s };
    let (s1, b1) = spec_clear_timeouts(s0, empty_block(sb));
    lemma_timeout_each_keeps_txs(
        StateV { timeouts: s0.timeouts.remove(sb.height.0), ..s0 },
        empty_block(sb),
        timeouts_at(s0.timeouts, sb.height.0),
        0,
        Seq::empty(),
    );
    lemma_txs_listed(s1, b1, sb, sb.txs@, 0);
    assert(sb.txs@.skip(0) =~= sb.txs@);
    assert(Seq::<(Seq<char>, Seq<char>)>::empty() + entries_of(sb.txs@) =~= entries_of(sb.txs@));
}

/// The transaction `x` was tried: it is no longer unsettled in `s`, or `b`
/// records that it failed to settle.
pub open spec fn tried(s: StateV, b: BlockV, x: Seq<char>) -> bool {
    !holds(s.txs, x) || exists|e: SettleError| b.events.contains((x, EventV::SettleFailed(e)))
}

/// `b2` has the events of `b` first.
pub open spec fn events_grow(b: BlockV, b2: BlockV) -> bool {
    b.events.len() <= b2.events.len() && forall|i: int| 0 <= i < b.events.len() ==> #[trigger] b2.events[i] == b.events[i]
}

/// Every transaction unsettled in `s2` is unsettled in `s`.
pub open spec fn txs_shrink(s: StateV, s2: StateV) -> bool {
    forall|x: Seq<char>| #[trigger] holds(s2.txs, x) ==> holds(s.txs, x)
}

proof fn lemma_tried_kept(s: StateV, b: BlockV, s2: StateV, b2: BlockV, x: Seq<char>)
    requires
        tried(s, b, x),
        txs_shrink(s, s2),
        events_grow(b, b2),
    ensures
        tried(s2, b2, x),
{
    if holds(s2.txs, x) {
        assert(holds(s.txs, x));
        let e = choose|e: SettleError| b.events.contains((x, EventV::SettleFailed(e)));
        let i = choose|i: int| 0 <= i < b.events.len() && b.events[i] == (x, EventV::SettleFailed(e));
        assert(b2.events[i] == b.events[i]);
        assert(b2.events.contains((x, EventV::SettleFailed(e))));
    }
}

proof fn lemma_remove_shrinks(s: Seq<TxV>, i: int)
    requires
        0 <= i < s.len(),
    ensures
        forall|x: Seq<char>| #[trigger] holds(s.remove(i), x) ==> holds(s, x),
{
    assert forall|x: Seq<char>| #[trigger] holds(s.remove(i), x) implies holds(s, x) by {
        let j = choose|j: int| 0 <= j < s.remove(i).len() && s.remove(i)[j].hash == x;
        if j < i {
            assert(s[j] == s.remove(i)[j]);
        } else {
            assert(s[j + 1] == s.remove(i)[j]);
        }
    }
}

proof fn lemma_add_nexts_keeps(todo: Seq<Seq<char>>, txs: Seq<TxV>, blobs: Seq<BlobMeta>)
    ensures
        forall|x: Seq<char>| todo.contains(x) ==> #[trigger] add_nexts(todo, txs, blobs).contains(x),
    decreases blobs.len(),
{
    if blobs.len() > 0 {
        lemma_add_nexts_keeps(todo, txs, blobs.drop_last());
        let t = add_nexts(todo, txs, blobs.drop_last());
        assert forall|x: Seq<char>| todo.contains(x) implies #[trigger] add_nexts(todo, txs, blobs).contains(x) by {
            assert(t.contains(x));
            match next_of(txs, blobs.last().blob.contract_name@) {
                Some(n) => {
                    if !t.contains(n) {
                        let i = choose|i: int| 0 <= i < t.len() && t[i] == x;
                        assert(t.push(n)[i] == x);
                    }
                },
                None => {},
            }
        }
    }
}

proof fn lemma_add_nexts_holds(todo: Seq<Seq<char>>, txs: Seq<TxV>, blobs: Seq<BlobMeta>, j: int)
    requires
        0 <= j < blobs.len(),
        next_of(txs, blobs[j].blob.contract_name@) is Some,
    ensures
        add_nexts(todo, txs, blobs).contains(next_of(txs, blobs[j].blob.contract_name@)->0),
    decreases blobs.len(),
{
    let x = next_of(txs, blobs[j].blob.contract_name@)->0;
    if j == blobs.len() - 1 {
        let t = add_nexts(todo, txs, blobs.drop_last());
        assert(blobs.last() == blobs[j]);
        if !t.contains(x) {
            assert(t.push(x)[t.len() as int] == x);
        }
    } else {
        assert(blobs.drop_last()[j] == blobs[j]);
        lemma_add_nexts_holds(todo, txs, blobs.drop_last(), j);
        lemma_add_nexts_keeps(add_nexts(todo, txs, blobs.drop_last()), txs, seq![blobs.last()]);
        let t = add_nexts(todo, txs, blobs.drop_last());
        if t.contains(x) {
            match next_of(txs, blobs.last().blob.contract_name@) {
                Some(n) => {
                    if !t.contains(n) {
                        let i = choose|i: int| 0 <= i < t.len() && t[i] == x;
                        assert(t.push(n)[i] == x);
                    }
                },
                None => {},
            }
        }
    }
}

proof fn lemma_set_timeouts_keeps_txs(s: StateV, list: Seq<Seq<char>>, from: Option<u64>)
    ensures
        spec_set_timeouts(s, list, from).txs == s.txs,
    decreases list.len(),
{
    if list.len() > 0 {
        let j = min_idx(list, list.len() as int);
        lemma_min_idx_range(list, list.len() as int);
        let h = list[j];
        let s2 = if is_next(s.txs, h) {
            let at = match from {
                Some(f) => f,
                None => s.txs[pos_of(s.txs, h)].ctx.block_height.0,
            };
            StateV { timeouts: timeout_after(s, h, at), ..s }
        } else {
            s
        };
        lemma_set_timeouts_keeps_txs(s2, list.remove(j), from);
    }
}

proof fn lemma_event_pushed(b: BlockV, h: Seq<char>, e: EventV)
    ensures
        events_grow(b, with_event(b, h, e)),
        with_event(b, h, e).events.contains((h, e)),
{
    assert(with_event(b, h, e).events[b.events.len() as int] == (h, e));
}

/// Settling tries every transaction of `todo`: each ends settled (no longer
/// unsettled) or with a settle-failed event. Transactions only leave the
/// unsettled ones, and events are only added.
pub proof fn lemma_settle_loop_tries_all(s: StateV, b: BlockV, todo: Seq<Seq<char>>, failed: Seq<Seq<char>>)
    requires
        distinct_hashes(s.txs),
    ensures
        ({
            let r = spec_settle_loop(s, b, todo, failed);
            &&& distinct_hashes(r.0.txs)
            &&& txs_shrink(s, r.0)
            &&& events_grow(b, r.1)
            &&& forall|x: Seq<char>| #[trigger] todo.contains(x) ==> tried(r.0, r.1, x)
        }),
    decreases s.txs.len(), todo.len(),
{
    let r = spec_settle_loop(s, b, todo, failed);
    if todo.len() > 0 {
        let j = min_idx(todo, todo.len() as int);
        lemma_min_idx_range(todo, todo.len() as int);
        let h = todo[j];
        let rest = todo.remove(j);
        assert forall|x: Seq<char>| #[trigger] todo.contains(x) && x != h implies rest.contains(x) by {
            let i = choose|i: int| 0 <= i < todo.len() && todo[i] == x;
            if i < j {
                assert(rest[i] == x);
            } else {
                assert(i != j);
                assert(rest[i - 1] == x);
            }
        }
        if !holds(s.txs, h) {
            let b1 = with_event(with_default_origin(b, h), h, EventV::SettleFailed(SettleError::NotFound));
            lemma_event_pushed(with_default_origin(b, h), h, EventV::SettleFailed(SettleError::NotFound));
            lemma_settle_loop_tries_all(s, b1, rest, add_absent(failed, h));
            assert(b1.events.contains((h, EventV::SettleFailed(SettleError::NotFound))));
            assert(tried(s, b1, h));
            lemma_tried_kept(s, b1, r.0, r.1, h);
        } else {
            let i = pos_of(s.txs, h);
            let t = s.txs[i];
            let b1 = with_origin(b, h, t);
            if !all_registered(s.contracts, t.blobs) {
                let e = EventV::SettleFailed(SettleError::UnregisteredContract);
                lemma_event_pushed(b1, h, e);
                lemma_settle_loop_tries_all(s, with_event(b1, h, e), rest, add_absent(failed, h));
                assert(tried(s, with_event(b1, h, e), h));
                lemma_tried_kept(s, with_event(b1, h, e), r.0, r.1, h);
            } else {
                match spec_settle(s.contracts, Map::empty(), t.blobs, 0, Seq::empty()) {
                    None => {
                        let e = EventV::SettleFailed(SettleError::NotReady);
                        lemma_event_pushed(b1, h, e);
                        lemma_settle_loop_tries_all(s, with_event(b1, h, e), rest, add_absent(failed, h));
                        assert(tried(s, with_event(b1, h, e), h));
                        lemma_tried_kept(s, with_event(b1, h, e), r.0, r.1, h);
                    },
                    Some(res) => {
                        let txs2 = s.txs.remove(i);
                        lemma_remove_distinct(s.txs, i);
                        lemma_remove_shrinks(s.txs, i);
                        let (s2, b2) = spec_record(StateV { txs: txs2, ..s }, b1, h, t.blobs.len(), res);
                        let todo2 = if res is Ok {
                            add_nexts(rest, txs2, t.blobs)
                        } else {
                            rest
                        };
                        lemma_add_nexts_keeps(rest, txs2, t.blobs);
                        lemma_settle_loop_tries_all(s2, b2, todo2, failed);
                        assert(events_grow(b, b2));
                        assert(!holds(txs2, h)) by {
                            if holds(txs2, h) {
                                let q = choose|q: int| 0 <= q < txs2.len() && txs2[q].hash == h;
                                if q < i {
                                    assert(s.txs[q] == txs2[q]);
                                } else {
                                    assert(s.txs[q + 1] == txs2[q]);
                                }
                            }
                        }
                        assert(tried(s2, b2, h));
                        lemma_tried_kept(s2, b2, r.0, r.1, h);
                        assert forall|x: Seq<char>| #[trigger] todo.contains(x) implies tried(r.0, r.1, x) by {
                            if x != h {
                                assert(todo2.contains(x));
                            }
                        }
                    },
                }
            }
        }
    }
}

proof fn lemma_timeout_each_grows(s: StateV, b: BlockV, list: Seq<Seq<char>>, k: int, kept: Seq<Seq<char>>)
    requires
        distinct_hashes(s.txs),
    ensures
        txs_shrink(s, spec_timeout_each(s, b, list, k, kept).0),
        events_grow(b, spec_timeout_each(s, b, list, k, kept).1),
    decreases list.len() - k,
{
    if 0 <= k < list.len() {
        let h = list[k];
        if !holds(s.txs, h) {
            lemma_timeout_each_grows(s, b, list, k + 1, kept);
        } else {
            let i = pos_of(s.txs, h);
            let t = s.txs[i];
            let s1 = StateV { txs: s.txs.remove(i), ..s };
            lemma_remove_distinct(s.txs, i);
            lemma_remove_shrinks(s.txs, i);
            let b1 = with_origin(with_event(b, h, EventV::TimedOut), h, t);
            lemma_event_pushed(b, h, EventV::TimedOut);
            let todo = add_nexts(Seq::empty(), s1.txs, t.blobs);
            let (s2, b2, left) = spec_settle_loop(s1, b1, todo, Seq::empty());
            lemma_settle_loop_tries_all(s1, b1, todo, Seq::empty());
            let s3 = spec_set_timeouts(s2, left, Some(s.height));
            lemma_set_timeouts_keeps_txs(s2, left, Some(s.height));
            lemma_timeout_each_grows(s3, b2, list, k + 1, kept.push(h));
            let r = spec_timeout_each(s3, b2, list, k + 1, kept.push(h));
            assert(txs_shrink(s, r.0));
            assert(events_grow(b, r.1));
        }
    }
}

/// When a transaction times out, the next unsettled transaction of each of
/// its contracts is tried in the same block: by the end of the timeouts it
/// has settled (it is no longer unsettled) or the block records that it
/// failed to settle. So a transaction that can settle once the timed-out
/// one has gone is settled then.
pub proof fn lemma_timeout_tries_the_next_transactions(
    s: StateV,
    b: BlockV,
    list: Seq<Seq<char>>,
    k: int,
    kept: Seq<Seq<char>>,
    j: int,
)
    requires
        distinct_hashes(s.txs),
        0 <= k < list.len(),
        holds(s.txs, list[k]),
        0 <= j < s.txs[pos_of(s.txs, list[k])].blobs.len(),
        next_of(
            s.txs.remove(pos_of(s.txs, list[k])),
            s.txs[pos_of(s.txs, list[k])].blobs[j].blob.contract_name@,
        ) is Some,
    ensures
        ({
            let i = pos_of(s.txs, list[k]);
            let x = next_of(s.txs.remove(i), s.txs[i].blobs[j].blob.contract_name@)->0;
            let r = spec_timeout_each(s, b, list, k, kept);
            tried(r.0, r.1, x)
        }),
{
    let h = list[k];
    let i = pos_of(s.txs, h);
    let t = s.txs[i];
    let s1 = StateV { txs: s.txs.remove(i), ..s };
    lemma_remove_distinct(s.txs, i);
    let x = next_of(s1.txs, t.blobs[j].blob.contract_name@)->0;
    let b1 = with_origin(with_event(b, h, EventV::TimedOut), h, t);
    let todo = add_nexts(Seq::empty(), s1.txs, t.blobs);
    lemma_add_nexts_holds(Seq::empty(), s1.txs, t.blobs, j);
    let (s2, b2, left) = spec_settle_loop(s1, b1, todo, Seq::empty());
    lemma_settle_loop_tries_all(s1, b1, todo, Seq::empty());
    assert(tried(s2, b2, x));
    let s3 = spec_set_timeouts(s2, left, Some(s.height));
    lemma_set_timeouts_keeps_txs(s2, left, Some(s.height));
    assert(tried(s3, b2, x));
    lemma_timeout_each_grows(s3, b2, list, k + 1, kept.push(h));
    let r = spec_timeout_each(s3, b2, list, k + 1, kept.push(h));
    lemma_tried_kept(s3, b2, r.0, r.1, x);
}

/// When the first transaction whose timeout fires at the block's height is
/// still unsettled, it times out and the next unsettled transaction of each
/// of its contracts is tried in that block (settled, or recorded as failing
/// to settle).
pub proof fn lemma_clear_timeouts_tries_the_next_transactions(s: StateV, b: BlockV, j: int)
    requires
        distinct_hashes(s.txs),
        timeouts_at(s.timeouts, b.height).len() > 0,
        holds(s.txs, timeouts_at(s.timeouts, b.height)[0]),
        0 <= j < s.txs[pos_of(s.txs, timeouts_at(s.timeouts, b.height)[0])].blobs.len(),
        next_of(
            s.txs.remove(pos_of(s.txs, timeouts_at(s.timeouts, b.height)[0])),
            s.txs[pos_of(s.txs, timeouts_at(s.timeouts, b.height)[0])].blobs[j].blob.contract_name@,
        ) is Some,
    ensures
        ({
            let i = pos_of(s.txs, timeouts_at(s.timeouts, b.height)[0]);
            let x = next_of(s.txs.remove(i), s.txs[i].blobs[j].blob.contract_name@)->0;
            let r = spec_clear_timeouts(s, b);
            tried(r.0, r.1, x)
        }),
{
    let list = timeouts_at(s.timeouts, b.height);
    lemma_timeout_tries_the_next_transactions(
        StateV { timeouts: s.timeouts.remove(b.height), ..s },
        b,
        list,
        0,
        Seq::empty(),
        j,
    );
}

} // verus!

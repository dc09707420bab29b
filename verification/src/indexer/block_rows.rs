//! The rows that indexing a processed block writes: each transaction of the
//! block with its status, the parent data proposal of each transaction the
//! block reports on, the status changes of settled, failed and timed-out
//! transactions, the proof outputs and the verified blobs. A block whose
//! numbers do not fit the columns, or that lacks the lane or the parent of
//! one of its transactions, is refused as a whole.

use crate::model::{copy_bytes, copy_string, ContractName, StateDigest, TxHash};
use crate::node_state::settlement::RegisterContractEffect;
use crate::node_state::timeouts::hashes_view;
use crate::str_map::StrMap;
use vstd::prelude::*;

verus! {

/// The largest value of an `i32` column.
pub open spec fn i32_max() -> int {
    2147483647
}

/// The largest value of an `i64` column.
pub open spec fn i64_max() -> int {
    9223372036854775807
}

/// The kind of a transaction's data.
#[derive(Debug, Clone, Copy, PartialEq, Eq, Structural)]
pub enum TransactionKind {
    Blob,
    Proof,
    VerifiedProof,
}

/// The status of a transaction in the index.
#[derive(Debug, Clone, Copy, PartialEq, Eq, Structural)]
pub enum TransactionStatus {
    Sequenced,
    Success,
    Failure,
    TimedOut,
}

/// The status a transaction gets when its block is indexed: a blob
/// transaction is sequenced, a proof has succeeded.
pub open spec fn status_of(kind: TransactionKind) -> TransactionStatus {
    match kind {
        TransactionKind::Blob => TransactionStatus::Sequenced,
        _ => TransactionStatus::Success,
    }
}

/// A transaction of a block, with the data proposal it came in.
#[derive(Debug)]
pub struct BlockTx {
    pub parent_dp_hash: String,
    pub tx_hash: TxHash,
    pub version: u32,
    pub kind: TransactionKind,
}

/// A proof output that a block handled.
#[derive(Debug)]
pub struct HandledProofOutput {
    pub proof_tx_hash: TxHash,
    pub blob_tx_hash: TxHash,
    pub blob_index: usize,
    pub blob_proof_output_index: usize,
    pub contract_name: ContractName,
}

/// What the indexer reads of a processed block.
#[derive(Debug)]
pub struct ProcessedBlock {
    pub hash: String,
    pub height: u64,
    pub txs: Vec<BlockTx>,
    pub lane_ids: StrMap<String>,
    pub dp_parent_hashes: StrMap<String>,
    pub event_txs: Vec<TxHash>,
    pub successful_txs: Vec<TxHash>,
    pub failed_txs: Vec<TxHash>,
    pub timed_out_txs: Vec<TxHash>,
    pub blob_proof_outputs: Vec<HandledProofOutput>,
    pub verified_blobs: Vec<(TxHash, usize, Option<usize>)>,
    pub registered_contracts: Vec<(TxHash, RegisterContractEffect)>,
    pub updated_states: Vec<(ContractName, StateDigest)>,
}

/// The row of a transaction of the block.
#[derive(Debug)]
pub struct TxRow {
    pub block_hash: String,
    pub block_height: i64,
    pub tx_hash: TxHash,
    pub parent_dp_hash: String,
    pub version: i32,
    pub kind: TransactionKind,
    pub status: TransactionStatus,
    pub index: i32,
    pub lane_id: String,
}

/// A change of the status of a transaction.
#[derive(Debug)]
pub struct StatusUpdate {
    pub tx_hash: TxHash,
    pub parent_dp_hash: String,
    pub status: TransactionStatus,
}

/// The row of a handled proof output.
#[derive(Debug)]
pub struct ProofOutputRow {
    pub proof_tx_hash: TxHash,
    pub proof_parent_dp_hash: String,
    pub blob_tx_hash: TxHash,
    pub blob_parent_dp_hash: String,
    pub blob_index: i32,
    pub blob_proof_output_index: i32,
}

/// A blob marked verified, and the proof output marked settled, if any.
#[derive(Debug)]
pub struct VerifiedBlobRow {
    pub tx_hash: TxHash,
    pub parent_dp_hash: String,
    pub blob_index: i32,
    pub settled_output: Option<i32>,
}

/// A contract registered in the block, with the parent of the transaction
/// that registered it.
#[derive(Debug)]
pub struct ContractRow {
    pub tx_hash: TxHash,
    pub parent_dp_hash: String,
    pub verifier: String,
    pub program_id: Vec<u8>,
    pub state_commitment: Vec<u8>,
    pub contract_name: String,
}

/// The state a contract has at the end of the block.
#[derive(Debug)]
pub struct StateRow {
    pub contract_name: String,
    pub state_commitment: Vec<u8>,
}

/// Everything indexing a block writes, in the order it is written.
#[derive(Debug)]
pub struct BlockRows {
    pub block_hash: String,
    pub height: i64,
    pub txs: Vec<TxRow>,
    pub event_parents: Vec<String>,
    pub status_updates: Vec<StatusUpdate>,
    pub proof_outputs: Vec<ProofOutputRow>,
    pub verified_blobs: Vec<VerifiedBlobRow>,
    pub contracts: Vec<ContractRow>,
    pub states: Vec<StateRow>,
}

/// Why a block cannot be indexed.
#[derive(Debug, PartialEq, Eq)]
pub enum IndexError {
    /// The block height does not fit an `i64`.
    HeightTooLarge,
    /// The version of this transaction does not fit an `i32`.
    VersionTooLarge(TxHash),
    /// The block has no lane for this transaction.
    NoLaneId(TxHash),
    /// The block has no parent data proposal for this transaction.
    NoParentHash(TxHash),
    /// A blob index or a proof output index does not fit an `i32`.
    IndexTooLarge,
}

/// An indexing error, as plain values.
pub ghost enum IndexErrorView {
    HeightTooLarge,
    VersionTooLarge(Seq<char>),
    NoLaneId(Seq<char>),
    NoParentHash(Seq<char>),
    IndexTooLarge,
}

impl View for IndexError {
    type V = IndexErrorView;

    open spec fn view(&self) -> IndexErrorView {
        match self {
            IndexError::HeightTooLarge => IndexErrorView::HeightTooLarge,
            IndexError::VersionTooLarge(h) => IndexErrorView::VersionTooLarge(h@),
            IndexError::NoLaneId(h) => IndexErrorView::NoLaneId(h@),
            IndexError::NoParentHash(h) => IndexErrorView::NoParentHash(h@),
            IndexError::IndexTooLarge => IndexErrorView::IndexTooLarge,
        }
    }
}

/// The error of the first of `hs` that `m` has no entry for.
pub open spec fn lookup_err(hs: Seq<Seq<char>>, m: Map<Seq<char>, String>) -> Option<IndexErrorView>
    decreases hs.len(),
{
    if hs.len() == 0 {
        None
    } else {
        match lookup_err(hs.drop_last(), m) {
            Some(e) => Some(e),
            None => if m.contains_key(hs.last()) {
                None
            } else {
                Some(IndexErrorView::NoParentHash(hs.last()))
            },
        }
    }
}

/// The error of one transaction: its version, then its lane.
pub open spec fn tx_err_one(tx: BlockTx, lanes: Map<Seq<char>, String>) -> Option<IndexErrorView> {
    if tx.version > i32_max() {
        Some(IndexErrorView::VersionTooLarge(tx.tx_hash@))
    } else if !lanes.contains_key(tx.tx_hash@) {
        Some(IndexErrorView::NoLaneId(tx.tx_hash@))
    } else {
        None
    }
}

/// The error of one proof output: the parents of its proof and of its blob
/// transaction, then its two indices.
pub open spec fn output_err_one(o: HandledProofOutput, parents: Map<Seq<char>, String>) -> Option<IndexErrorView> {
    if !parents.contains_key(o.proof_tx_hash@) {
        Some(IndexErrorView::NoParentHash(o.proof_tx_hash@))
    } else if !parents.contains_key(o.blob_tx_hash@) {
        Some(IndexErrorView::NoParentHash(o.blob_tx_hash@))
    } else if o.blob_index > i32_max() || o.blob_proof_output_index > i32_max() {
        Some(IndexErrorView::IndexTooLarge)
    } else {
        None
    }
}

/// The error of one verified blob: the parent of its transaction, then its
/// indices.
pub open spec fn verified_err_one(v: (TxHash, usize, Option<usize>), parents: Map<Seq<char>, String>) -> Option<IndexErrorView> {
    if !parents.contains_key(v.0@) {
        Some(IndexErrorView::NoParentHash(v.0@))
    } else if v.1 > i32_max() || (v.2 matches Some(o) && o > i32_max()) {
        Some(IndexErrorView::IndexTooLarge)
    } else {
        None
    }
}

/// The first error of the items of `s`, each checked by `f`.
pub open spec fn first_err<T>(s: Seq<T>, f: spec_fn(T) -> Option<IndexErrorView>) -> Option<IndexErrorView>
    decreases s.len(),
{
    if s.len() == 0 {
        None
    } else {
        match first_err(s.drop_last(), f) {
            Some(e) => Some(e),
            None => f(s.last()),
        }
    }
}

/// The first of two errors.
pub open spec fn or_else(a: Option<IndexErrorView>, b: Option<IndexErrorView>) -> Option<IndexErrorView> {
    if a is Some {
        a
    } else {
        b
    }
}

/// Why the block `b` cannot be indexed, if it cannot: the first failing
/// check, in the order the block is written.
pub open spec fn rows_err(b: ProcessedBlock) -> Option<IndexErrorView> {
    let parents = b.dp_parent_hashes.view();
    if b.height > i64_max() {
        Some(IndexErrorView::HeightTooLarge)
    } else {
        or_else(
            first_err(b.txs@, |t: BlockTx| tx_err_one(t, b.lane_ids.view())),
            or_else(
                lookup_err(hashes_view(b.event_txs@), parents),
                or_else(
                    lookup_err(hashes_view(b.successful_txs@), parents),
                    or_else(
                        lookup_err(hashes_view(b.failed_txs@), parents),
                        or_else(
                            lookup_err(hashes_view(b.timed_out_txs@), parents),
                            or_else(
                                first_err(b.blob_proof_outputs@, |o: HandledProofOutput| output_err_one(o, parents)),
                                or_else(
                                    first_err(b.verified_blobs@, |v: (TxHash, usize, Option<usize>)| verified_err_one(v, parents)),
                                    lookup_err(reg_hashes(b.registered_contracts@), parents),
                                ),
                            ),
                        ),
                    ),
                ),
            ),
        )
    }
}

/// The hashes of the transactions that registered contracts, in order.
pub open spec fn reg_hashes(rs: Seq<(TxHash, RegisterContractEffect)>) -> Seq<Seq<char>> {
    rs.map_values(|r: (TxHash, RegisterContractEffect)| r.0@)
}

/// `row` is the row of the registration `r`, with the parents `m` hold.
pub open spec fn is_contract_row(row: ContractRow, r: (TxHash, RegisterContractEffect), m: Map<Seq<char>, String>) -> bool {
    &&& row.tx_hash@ == r.0@
    &&& row.parent_dp_hash@ == m[r.0@]@
    &&& row.verifier@ == r.1.verifier@
    &&& row.program_id@ == r.1.program_id@
    &&& row.state_commitment@ == r.1.state_commitment@
    &&& row.contract_name@ == r.1.contract_name@
}

/// `row` is the row of the transaction `tx`, at `index` in its block.
pub open spec fn is_tx_row(row: TxRow, tx: BlockTx, index: int, lanes: Map<Seq<char>, String>) -> bool {
    &&& row.tx_hash@ == tx.tx_hash@
    &&& row.parent_dp_hash@ == tx.parent_dp_hash@
    &&& row.version == tx.version
    &&& row.kind == tx.kind
    &&& row.status == status_of(tx.kind)
    &&& row.index == index
    &&& row.lane_id@ == lanes[tx.tx_hash@]@
}

/// `ps` are the parents that `m` holds for `hs`, in order.
pub open spec fn parents_of(hs: Seq<Seq<char>>, m: Map<Seq<char>, String>, ps: Seq<String>) -> bool {
    ps.len() == hs.len() && forall|i: int| 0 <= i < ps.len() ==> (#[trigger] ps[i])@ == m[hs[i]]@
}

/// `u` sets the status `st` for each of `hs`, in order, with their parents.
pub open spec fn updates_of(hs: Seq<Seq<char>>, m: Map<Seq<char>, String>, st: TransactionStatus, u: Seq<StatusUpdate>) -> bool {
    u.len() == hs.len() && forall|i: int| 0 <= i < u.len() ==> {
        &&& (#[trigger] u[i]).tx_hash@ == hs[i]
        &&& u[i].parent_dp_hash@ == m[hs[i]]@
        &&& u[i].status == st
    }
}

/// `row` is the row of the handled proof output `o`.
pub open spec fn is_output_row(row: ProofOutputRow, o: HandledProofOutput, m: Map<Seq<char>, String>) -> bool {
    &&& row.proof_tx_hash@ == o.proof_tx_hash@
    &&& row.proof_parent_dp_hash@ == m[o.proof_tx_hash@]@
    &&& row.blob_tx_hash@ == o.blob_tx_hash@
    &&& row.blob_parent_dp_hash@ == m[o.blob_tx_hash@]@
    &&& row.blob_index == o.blob_index
    &&& row.blob_proof_output_index == o.blob_proof_output_index
}

/// `row` is the row of the verified blob `v`.
pub open spec fn is_verified_row(row: VerifiedBlobRow, v: (TxHash, usize, Option<usize>), m: Map<Seq<char>, String>) -> bool {
    &&& row.tx_hash@ == v.0@
    &&& row.parent_dp_hash@ == m[v.0@]@
    &&& row.blob_index == v.1
    &&& match v.2 {
        Some(o) => row.settled_output matches Some(x) && x == o,
        None => row.settled_output is None,
    }
}

/// The parents that `parents` holds for `hs`, in order; an error for the
/// first of `hs` it has none for.
fn lookup_parents(hs: &Vec<TxHash>, parents: &StrMap<String>) -> (res: Result<Vec<String>, IndexError>)
    requires
        parents.wf(),
    ensures
        match res {
            Ok(ps) => lookup_err(hashes_view(hs@), parents.view()) is None && parents_of(hashes_view(hs@), parents.view(), ps@),
            Err(e) => lookup_err(hashes_view(hs@), parents.view()) == Some(e@),
        },
{
    let mut out: Vec<String> = Vec::new();
    let mut i: usize = 0;
    while i < hs.len()
        invariant
            parents.wf(),
            i <= hs@.len(),
            lookup_err(hashes_view(hs@).take(i as int), parents.view()) is None,
            parents_of(hashes_view(hs@).take(i as int), parents.view(), out@),
        decreases hs@.len() - i,
    {
        proof {
            assert(hashes_view(hs@).take(i + 1).drop_last() =~= hashes_view(hs@).take(i as int));
            assert(hashes_view(hs@).take(i + 1).last() == hs@[i as int]@);
        }
        match parents.get(&hs[i].0) {
            Some(p) => {
                out.push(copy_string(p));
                proof {
                    assert forall|j: int| 0 <= j < out@.len() implies (#[trigger] out@[j])@ == parents.view()[hashes_view(hs@).take(i + 1)[j]]@ by {
                        if j < i {
                            assert(hashes_view(hs@).take(i + 1)[j] == hashes_view(hs@).take(i as int)[j]);
                        }
                    }
                }
            },
            None => {
                proof {
                    lemma_lookup_err_prefix(hashes_view(hs@), parents.view(), i + 1);
                }
                return Err(IndexError::NoParentHash(hs[i].copy()));
            },
        }
        i = i + 1;
    }
    proof {
        assert(hashes_view(hs@).take(hs@.len() as int) =~= hashes_view(hs@));
    }
    Ok(out)
}

/// An error within a prefix is the first error of the whole.
proof fn lemma_lookup_err_prefix(hs: Seq<Seq<char>>, m: Map<Seq<char>, String>, n: int)
    requires
        0 <= n <= hs.len(),
        lookup_err(hs.take(n), m) is Some,
    ensures
        lookup_err(hs, m) == lookup_err(hs.take(n), m),
    decreases hs.len() - n,
{
    if n < hs.len() {
        assert(hs.take(n + 1).drop_last() =~= hs.take(n));
        lemma_lookup_err_prefix(hs, m, n + 1);
    } else {
        assert(hs.take(n) =~= hs);
    }
}

/// An error within a prefix is the first error of the whole.
proof fn lemma_first_err_prefix<T>(s: Seq<T>, f: spec_fn(T) -> Option<IndexErrorView>, n: int)
    requires
        0 <= n <= s.len(),
        first_err(s.take(n), f) is Some,
    ensures
        first_err(s, f) == first_err(s.take(n), f),
    decreases s.len() - n,
{
    if n < s.len() {
        assert(s.take(n + 1).drop_last() =~= s.take(n));
        lemma_first_err_prefix(s, f, n + 1);
    } else {
        assert(s.take(n) =~= s);
    }
}

/// The rows of the transactions of a block, in order; an error for the
/// first transaction whose version does not fit or whose lane is unknown.
fn tx_rows(txs: &Vec<BlockTx>, lanes: &StrMap<String>, block_hash: &String, height: i64) -> (res: Result<Vec<TxRow>, IndexError>)
    requires
        lanes.wf(),
        txs.len() <= i32_max(),
    ensures
        match res {
            Ok(rows) => first_err(txs@, |t: BlockTx| tx_err_one(t, lanes.view())) is None
                && rows.len() == txs.len()
                && forall|i: int| 0 <= i < rows.len() ==> is_tx_row(#[trigger] rows@[i], txs@[i], i, lanes.view())
                    && rows@[i].block_hash@ == block_hash@ && rows@[i].block_height == height,
            Err(e) => first_err(txs@, |t: BlockTx| tx_err_one(t, lanes.view())) == Some(e@),
        },
{
    let ghost f = |t: BlockTx| tx_err_one(t, lanes.view());
    let mut rows: Vec<TxRow> = Vec::new();
    let mut i: usize = 0;
    while i < txs.len()
        invariant
            lanes.wf(),
            txs.len() <= i32_max(),
            f == (|t: BlockTx| tx_err_one(t, lanes.view())),
            i <= txs@.len(),
            first_err(txs@.take(i as int), f) is None,
            rows.len() == i,
            forall|j: int| 0 <= j < i ==> is_tx_row(#[trigger] rows@[j], txs@[j], j, lanes.view())
                && rows@[j].block_hash@ == block_hash@ && rows@[j].block_height == height,
        decreases txs@.len() - i,
    {
        let tx = &txs[i];
        proof {
            assert(txs@.take(i + 1).drop_last() =~= txs@.take(i as int));
            assert(txs@.take(i + 1).last() == txs@[i as int]);
        }
        if tx.version > 2147483647u32 {
            proof {
                lemma_first_err_prefix(txs@, f, i + 1);
            }
            return Err(IndexError::VersionTooLarge(tx.tx_hash.copy()));
        }
        let lane = match lanes.get(&tx.tx_hash.0) {
            Some(l) => copy_string(l),
            None => {
                proof {
                    lemma_first_err_prefix(txs@, f, i + 1);
                }
                return Err(IndexError::NoLaneId(tx.tx_hash.copy()));
            },
        };
        let status = match tx.kind {
            TransactionKind::Blob => TransactionStatus::Sequenced,
            _ => TransactionStatus::Success,
        };
        rows.push(TxRow {
            block_hash: copy_string(block_hash),
            block_height: height,
            tx_hash: tx.tx_hash.copy(),
            parent_dp_hash: copy_string(&tx.parent_dp_hash),
            version: tx.version as i32,
            kind: tx.kind,
            status,
            index: i as i32,
            lane_id: lane,
        });
        i = i + 1;
    }
    proof {
        assert(txs@.take(txs@.len() as int) =~= txs@);
    }
    Ok(rows)
}

/// The rows of the handled proof outputs, in order; an error for the first
/// one whose transactions have no parent or whose indices do not fit.
fn output_rows(outputs: &Vec<HandledProofOutput>, parents: &StrMap<String>) -> (res: Result<Vec<ProofOutputRow>, IndexError>)
    requires
        parents.wf(),
    ensures
        match res {
            Ok(rows) => first_err(outputs@, |o: HandledProofOutput| output_err_one(o, parents.view())) is None
                && rows.len() == outputs.len()
                && forall|i: int| 0 <= i < rows.len() ==> is_output_row(#[trigger] rows@[i], outputs@[i], parents.view()),
            Err(e) => first_err(outputs@, |o: HandledProofOutput| output_err_one(o, parents.view())) == Some(e@),
        },
{
    let ghost f = |o: HandledProofOutput| output_err_one(o, parents.view());
    let mut rows: Vec<ProofOutputRow> = Vec::new();
    let mut i: usize = 0;
    while i < outputs.len()
        invariant
            parents.wf(),
            f == (|o: HandledProofOutput| output_err_one(o, parents.view())),
            i <= outputs@.len(),
            first_err(outputs@.take(i as int), f) is None,
            rows.len() == i,
            forall|j: int| 0 <= j < i ==> is_output_row(#[trigger] rows@[j], outputs@[j], parents.view()),
        decreases outputs@.len() - i,
    {
        let o = &outputs[i];
        proof {
            assert(outputs@.take(i + 1).drop_last() =~= outputs@.take(i as int));
            assert(outputs@.take(i + 1).last() == outputs@[i as int]);
        }
        let proof_parent = match parents.get(&o.proof_tx_hash.0) {
            Some(p) => copy_string(p),
            None => {
                proof {
                    lemma_first_err_prefix(outputs@, f, i + 1);
                }
                return Err(IndexError::NoParentHash(o.proof_tx_hash.copy()));
            },
        };
        let blob_parent = match parents.get(&o.blob_tx_hash.0) {
            Some(p) => copy_string(p),
            None => {
                proof {
                    lemma_first_err_prefix(outputs@, f, i + 1);
                }
                return Err(IndexError::NoParentHash(o.blob_tx_hash.copy()));
            },
        };
        if o.blob_index > 2147483647usize || o.blob_proof_output_index > 2147483647usize {
            proof {
                lemma_first_err_prefix(outputs@, f, i + 1);
            }
            return Err(IndexError::IndexTooLarge);
        }
        rows.push(ProofOutputRow {
            proof_tx_hash: o.proof_tx_hash.copy(),
            proof_parent_dp_hash: proof_parent,
            blob_tx_hash: o.blob_tx_hash.copy(),
            blob_parent_dp_hash: blob_parent,
            blob_index: o.blob_index as i32,
            blob_proof_output_index: o.blob_proof_output_index as i32,
        });
        i = i + 1;
    }
    proof {
        assert(outputs@.take(outputs@.len() as int) =~= outputs@);
    }
    Ok(rows)
}

/// The rows of the verified blobs, in order; an error for the first one
/// whose transaction has no parent or whose indices do not fit.
fn verified_rows(verified: &Vec<(TxHash, usize, Option<usize>)>, parents: &StrMap<String>) -> (res: Result<Vec<VerifiedBlobRow>, IndexError>)
    requires
        parents.wf(),
    ensures
        match res {
            Ok(rows) => first_err(verified@, |v: (TxHash, usize, Option<usize>)| verified_err_one(v, parents.view())) is None
                && rows.len() == verified.len()
                && forall|i: int| 0 <= i < rows.len() ==> is_verified_row(#[trigger] rows@[i], verified@[i], parents.view()),
            Err(e) => first_err(verified@, |v: (TxHash, usize, Option<usize>)| verified_err_one(v, parents.view())) == Some(e@),
        },
{
    let ghost f = |v: (TxHash, usize, Option<usize>)| verified_err_one(v, parents.view());
    let mut rows: Vec<VerifiedBlobRow> = Vec::new();
    let mut i: usize = 0;
    while i < verified.len()
        invariant
            parents.wf(),
            f == (|v: (TxHash, usize, Option<usize>)| verified_err_one(v, parents.view())),
            i <= verified@.len(),
            first_err(verified@.take(i as int), f) is None,
            rows.len() == i,
            forall|j: int| 0 <= j < i ==> is_verified_row(#[trigger] rows@[j], verified@[j], parents.view()),
        decreases verified@.len() - i,
    {
        let v = &verified[i];
        proof {
            assert(verified@.take(i + 1).drop_last() =~= verified@.take(i as int));
            assert(verified@.take(i + 1).last() == verified@[i as int]);
        }
        let parent = match parents.get(&v.0.0) {
            Some(p) => copy_string(p),
            None => {
                proof {
                    lemma_first_err_prefix(verified@, f, i + 1);
                }
                return Err(IndexError::NoParentHash(v.0.copy()));
            },
        };
        if v.1 > 2147483647usize {
            proof {
                lemma_first_err_prefix(verified@, f, i + 1);
            }
            return Err(IndexError::IndexTooLarge);
        }
        let settled_output = match v.2 {
            Some(o) => {
                if o > 2147483647usize {
                    proof {
                        lemma_first_err_prefix(verified@, f, i + 1);
                    }
                    return Err(IndexError::IndexTooLarge);
                }
                Some(o as i32)
            },
            None => None,
        };
        rows.push(VerifiedBlobRow { tx_hash: v.0.copy(), parent_dp_hash: parent, blob_index: v.1 as i32, settled_output });
        i = i + 1;
    }
    proof {
        assert(verified@.take(verified@.len() as int) =~= verified@);
    }
    Ok(rows)
}

/// Status updates setting `status` for each of `hs`, with their parents.
fn status_updates(hs: &Vec<TxHash>, parents: &Vec<String>, status: TransactionStatus, out: &mut Vec<StatusUpdate>)
    requires
        parents.len() == hs.len(),
    ensures
        final(out)@.len() == old(out)@.len() + hs.len(),
        final(out)@.take(old(out)@.len() as int) == old(out)@,
        forall|i: int| 0 <= i < hs.len() ==> {
            &&& (#[trigger] final(out)@[old(out)@.len() + i]).tx_hash@ == hs@[i]@
            &&& final(out)@[old(out)@.len() + i].parent_dp_hash@ == parents@[i]@
            &&& final(out)@[old(out)@.len() + i].status == status
        },
{
    let ghost start = out@;
    let mut i: usize = 0;
    while i < hs.len()
        invariant
            parents.len() == hs.len(),
            i <= hs.len(),
            out@.len() == start.len() + i,
            out@.take(start.len() as int) == start,
            forall|j: int| 0 <= j < i ==> {
                &&& (#[trigger] out@[start.len() + j]).tx_hash@ == hs@[j]@
                &&& out@[start.len() + j].parent_dp_hash@ == parents@[j]@
                &&& out@[start.len() + j].status == status
            },
        decreases hs.len() - i,
    {
        let ghost before = out@;
        out.push(StatusUpdate { tx_hash: hs[i].copy(), parent_dp_hash: copy_string(&parents[i]), status });
        proof {
            assert(out@.take(start.len() as int) =~= before.take(start.len() as int));
            assert forall|j: int| 0 <= j < i + 1 implies {
                &&& (#[trigger] out@[start.len() + j]).tx_hash@ == hs@[j]@
                &&& out@[start.len() + j].parent_dp_hash@ == parents@[j]@
                &&& out@[start.len() + j].status == status
            } by {
                if j < i {
                    assert(out@[start.len() + j] == before[start.len() + j]);
                }
            }
        }
        i = i + 1;
    }
}

/// The hashes of the transactions that registered contracts, in order.
fn registration_hashes(rs: &Vec<(TxHash, RegisterContractEffect)>) -> (res: Vec<TxHash>)
    ensures
        hashes_view(res@) == reg_hashes(rs@),
{
    let mut out: Vec<TxHash> = Vec::new();
    let mut i: usize = 0;
    while i < rs.len()
        invariant
            i <= rs@.len(),
            hashes_view(out@) == reg_hashes(rs@).take(i as int),
        decreases rs@.len() - i,
    {
        out.push(rs[i].0.copy());
        proof {
            assert(reg_hashes(rs@).take(i + 1) =~= reg_hashes(rs@).take(i as int).push(rs@[i as int].0@));
            assert(hashes_view(out@) =~= reg_hashes(rs@).take(i + 1));
        }
        i = i + 1;
    }
    proof {
        assert(reg_hashes(rs@).take(rs@.len() as int) =~= reg_hashes(rs@));
    }
    out
}

/// The rows of the registrations, each with its parent from `parents`.
fn contract_rows(rs: &Vec<(TxHash, RegisterContractEffect)>, parents: &Vec<String>) -> (res: Vec<ContractRow>)
    requires
        parents.len() == rs.len(),
    ensures
        res.len() == rs.len(),
        forall|i: int| 0 <= i < res.len() ==> {
            &&& (#[trigger] res@[i]).tx_hash@ == rs@[i].0@
            &&& res@[i].parent_dp_hash@ == parents@[i]@
            &&& res@[i].verifier@ == rs@[i].1.verifier@
            &&& res@[i].program_id@ == rs@[i].1.program_id@
            &&& res@[i].state_commitment@ == rs@[i].1.state_commitment@
            &&& res@[i].contract_name@ == rs@[i].1.contract_name@
        },
{
    let mut out: Vec<ContractRow> = Vec::new();
    let mut i: usize = 0;
    while i < rs.len()
        invariant
            parents.len() == rs.len(),
            i <= rs.len(),
            out.len() == i,
            forall|j: int| 0 <= j < i ==> {
                &&& (#[trigger] out@[j]).tx_hash@ == rs@[j].0@
                &&& out@[j].parent_dp_hash@ == parents@[j]@
                &&& out@[j].verifier@ == rs@[j].1.verifier@
                &&& out@[j].program_id@ == rs@[j].1.program_id@
                &&& out@[j].state_commitment@ == rs@[j].1.state_commitment@
                &&& out@[j].contract_name@ == rs@[j].1.contract_name@
            },
        decreases rs.len() - i,
    {
        let r = &rs[i].1;
        out.push(ContractRow {
            tx_hash: rs[i].0.copy(),
            parent_dp_hash: copy_string(&parents[i]),
            verifier: copy_string(&r.verifier.0),
            program_id: copy_bytes(&r.program_id.0),
            state_commitment: copy_bytes(&r.state_commitment.0),
            contract_name: copy_string(&r.contract_name.0),
        });
        i = i + 1;
    }
    out
}

/// The rows of the new contract states, in order.
fn state_rows(states: &Vec<(ContractName, StateDigest)>) -> (res: Vec<StateRow>)
    ensures
        res.len() == states.len(),
        forall|i: int| 0 <= i < res.len() ==> (#[trigger] res@[i]).contract_name@ == states@[i].0@
            && res@[i].state_commitment@ == states@[i].1@,
{
    let mut out: Vec<StateRow> = Vec::new();
    let mut i: usize = 0;
    while i < states.len()
        invariant
            i <= states.len(),
            out.len() == i,
            forall|j: int| 0 <= j < i ==> (#[trigger] out@[j]).contract_name@ == states@[j].0@
                && out@[j].state_commitment@ == states@[j].1@,
        decreases states.len() - i,
    {
        out.push(StateRow { contract_name: copy_string(&states[i].0.0), state_commitment: copy_bytes(&states[i].1.0) });
        i = i + 1;
    }
    out
}

/// The rows that indexing the block `b` writes, or why it cannot be
/// indexed: the first check that fails, in the order the block is written.
pub fn block_rows(b: &ProcessedBlock) -> (res: Result<BlockRows, IndexError>)
    requires
        b.lane_ids.wf(),
        b.dp_parent_hashes.wf(),
        b.txs.len() <= i32_max(),
    ensures
        res is Err <==> rows_err(*b) is Some,
        res matches Err(e) ==> rows_err(*b) == Some(e@),
        res matches Ok(rows) ==> {
            let parents = b.dp_parent_hashes.view();
            let ok_n = b.successful_txs.len();
            let failed_n = b.failed_txs.len();
            &&& rows.block_hash@ == b.hash@
            &&& rows.height == b.height
            &&& rows.txs.len() == b.txs.len()
            &&& forall|i: int| 0 <= i < rows.txs.len() ==> is_tx_row(#[trigger] rows.txs@[i], b.txs@[i], i, b.lane_ids.view())
                && rows.txs@[i].block_hash@ == b.hash@ && rows.txs@[i].block_height == b.height
            &&& parents_of(hashes_view(b.event_txs@), parents, rows.event_parents@)
            &&& updates_of(hashes_view(b.successful_txs@), parents, TransactionStatus::Success, rows.status_updates@.take(ok_n as int))
            &&& updates_of(hashes_view(b.failed_txs@), parents, TransactionStatus::Failure, rows.status_updates@.subrange(ok_n as int, ok_n + failed_n))
            &&& updates_of(hashes_view(b.timed_out_txs@), parents, TransactionStatus::TimedOut, rows.status_updates@.skip(ok_n + failed_n))
            &&& rows.proof_outputs.len() == b.blob_proof_outputs.len()
            &&& forall|i: int| 0 <= i < rows.proof_outputs.len() ==> is_output_row(#[trigger] rows.proof_outputs@[i], b.blob_proof_outputs@[i], parents)
            &&& rows.verified_blobs.len() == b.verified_blobs.len()
            &&& forall|i: int| 0 <= i < rows.verified_blobs.len() ==> is_verified_row(#[trigger] rows.verified_blobs@[i], b.verified_blobs@[i], parents)
            &&& rows.contracts.len() == b.registered_contracts.len()
            &&& forall|i: int| 0 <= i < rows.contracts.len() ==> is_contract_row(#[trigger] rows.contracts@[i], b.registered_contracts@[i], parents)
            &&& rows.states.len() == b.updated_states.len()
            &&& forall|i: int| 0 <= i < rows.states.len() ==> (#[trigger] rows.states@[i]).contract_name@ == b.updated_states@[i].0@
                && rows.states@[i].state_commitment@ == b.updated_states@[i].1@
        },
{
    if b.height > 9223372036854775807u64 {
        return Err(IndexError::HeightTooLarge);
    }
    let height = b.height as i64;
    let txs = tx_rows(&b.txs, &b.lane_ids, &b.hash, height)?;
    let event_parents = lookup_parents(&b.event_txs, &b.dp_parent_hashes)?;
    let ok_parents = lookup_parents(&b.successful_txs, &b.dp_parent_hashes)?;
    let failed_parents = lookup_parents(&b.failed_txs, &b.dp_parent_hashes)?;
    let timed_out_parents = lookup_parents(&b.timed_out_txs, &b.dp_parent_hashes)?;
    let proof_outputs = output_rows(&b.blob_proof_outputs, &b.dp_parent_hashes)?;
    let verified_blobs = verified_rows(&b.verified_blobs, &b.dp_parent_hashes)?;
    let reg_txs = registration_hashes(&b.registered_contracts);
    let contract_parents = lookup_parents(&reg_txs, &b.dp_parent_hashes)?;
    let contracts = contract_rows(&b.registered_contracts, &contract_parents);
    let states = state_rows(&b.updated_states);
    let mut updates: Vec<StatusUpdate> = Vec::new();
    status_updates(&b.successful_txs, &ok_parents, TransactionStatus::Success, &mut updates);
    let ghost after_ok = updates@;
    status_updates(&b.failed_txs, &failed_parents, TransactionStatus::Failure, &mut updates);
    let ghost after_failed = updates@;
    status_updates(&b.timed_out_txs, &timed_out_parents, TransactionStatus::TimedOut, &mut updates);
    proof {
        let parents = b.dp_parent_hashes.view();
        let ok_n = b.successful_txs.len() as int;
        let failed_n = b.failed_txs.len() as int;
        assert(after_failed.take(ok_n) == after_ok);
        assert(updates@.take(ok_n) =~= updates@.take(ok_n + failed_n).take(ok_n));
        assert(updates@.take(ok_n) == after_ok) by {
            assert(updates@.take(ok_n + failed_n) == after_failed);
        }
        assert forall|i: int| 0 <= i < ok_n implies {
            &&& (#[trigger] updates@.take(ok_n)[i]).tx_hash@ == hashes_view(b.successful_txs@)[i]
            &&& updates@.take(ok_n)[i].parent_dp_hash@ == parents[hashes_view(b.successful_txs@)[i]]@
            &&& updates@.take(ok_n)[i].status == TransactionStatus::Success
        } by {
            assert(after_ok[0 + i].tx_hash@ == b.successful_txs@[i]@);
        }
        let mid = updates@.subrange(ok_n, ok_n + failed_n);
        assert forall|i: int| 0 <= i < failed_n implies {
            &&& (#[trigger] mid[i]).tx_hash@ == hashes_view(b.failed_txs@)[i]
            &&& mid[i].parent_dp_hash@ == parents[hashes_view(b.failed_txs@)[i]]@
            &&& mid[i].status == TransactionStatus::Failure
        } by {
            assert(mid[i] == updates@[ok_n + i]);
            assert(updates@.take(ok_n + failed_n)[ok_n + i] == updates@[ok_n + i]);
            assert(after_failed[ok_n + i].tx_hash@ == b.failed_txs@[i]@);
        }
        let tail = updates@.skip(ok_n + failed_n);
        assert forall|i: int| 0 <= i < b.timed_out_txs.len() implies {
            &&& (#[trigger] tail[i]).tx_hash@ == hashes_view(b.timed_out_txs@)[i]
            &&& tail[i].parent_dp_hash@ == parents[hashes_view(b.timed_out_txs@)[i]]@
            &&& tail[i].status == TransactionStatus::TimedOut
        } by {
            assert(tail[i] == updates@[ok_n + failed_n + i]);
        }
    }
    proof {
        assert forall|i: int| 0 <= i < contracts.len() implies is_contract_row(#[trigger] contracts@[i], b.registered_contracts@[i], b.dp_parent_hashes.view()) by {
            assert(hashes_view(reg_txs@)[i] == b.registered_contracts@[i].0@);
        }
    }
    Ok(BlockRows {
        block_hash: copy_string(&b.hash),
        height,
        txs,
        event_parents,
        status_updates: updates,
        proof_outputs,
        verified_blobs,
        contracts,
        states,
    })
}

} // verus!

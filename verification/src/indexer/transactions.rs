//! Stored transactions, found by their hash, and the byte layout of
//! transaction data.

use crate::indexer::codec::{enc_bytes, enc_str, enc_u64, get_bytes, get_str, get_u64, lemma_enc_u64_len, put_bytes, put_str, put_u64};
use crate::indexer::model::{enc_refs, get_index, get_refs, put_refs, refs_view, RefView};
use crate::indexer::proofs::copy_refs;
use crate::indexer::table::{IndexerError, Table};
use crate::model::transaction::{Blob, BlobData, BlobTransaction, Fees, ProofTransaction, RegisterContractTransaction, TransactionData};
use crate::model::{copy_bytes, copy_string, BlockHeight, ContractName, Identity, StateDigest};
use vstd::bytes::lemma_auto_spec_u64_to_from_le_bytes;
use vstd::prelude::*;
use vstd::utf8::encode_utf8;

verus! {

/// A blob of a transaction, as plain values.
pub ghost struct NodeBlobView {
    pub contract_name: Seq<char>,
    pub data: Seq<u8>,
}

pub open spec fn node_blob_view(b: Blob) -> NodeBlobView {
    NodeBlobView { contract_name: b.contract_name@, data: b.data.0@ }
}

pub open spec fn node_blobs_view(bs: Seq<Blob>) -> Seq<NodeBlobView> {
    bs.map_values(|b: Blob| node_blob_view(b))
}

/// The bytes of one blob: its contract's name, then its data.
pub open spec fn enc_node_blob(v: NodeBlobView) -> Seq<u8> {
    enc_str(v.contract_name) + enc_bytes(v.data)
}

proof fn lemma_enc_node_blob_len(r: NodeBlobView)
    ensures
        enc_node_blob(r).len() >= 16,
{
    lemma_enc_u64_len(encode_utf8(r.contract_name).len() as u64);
    lemma_enc_u64_len(r.data.len() as u64);
}

fn put_node_blob(out: &mut Vec<u8>, r: &Blob)
    ensures
        final(out)@ == old(out)@ + enc_node_blob(node_blob_view(*r)),
{
    put_str(out, &r.contract_name.0);
    put_bytes(out, r.data.0.as_slice());
    assert(out@ =~= old(out)@ + enc_node_blob(node_blob_view(*r)));
}

fn get_node_blob(b: &[u8], pos: usize) -> (res: Option<(Blob, usize)>)
    ensures
        res matches Some((r, end)) ==> pos <= end <= b@.len() && b@.subrange(pos as int, end as int) == enc_node_blob(node_blob_view(r)),
        forall|v: NodeBlobView| pos + enc_node_blob(v).len() <= b@.len() && #[trigger] b@.subrange(pos as int, pos + enc_node_blob(v).len()) == enc_node_blob(v)
            ==> (res matches Some((r, end)) && node_blob_view(r) == v && end == pos + enc_node_blob(v).len()),
{
    let ghost bb = b@;
    proof {
        assert forall|v: NodeBlobView| pos + enc_node_blob(v).len() <= bb.len() && #[trigger] bb.subrange(pos as int, pos + enc_node_blob(v).len()) == enc_node_blob(v) implies {
            let e1 = pos + enc_str(v.contract_name).len();
            &&& bb.subrange(pos as int, e1) == enc_str(v.contract_name)
            &&& bb.subrange(e1, e1 + enc_bytes(v.data).len()) == enc_bytes(v.data)
            &&& e1 + enc_bytes(v.data).len() == pos + enc_node_blob(v).len()
        } by {
            let w = bb.subrange(pos as int, pos + enc_node_blob(v).len());
            let e1 = pos + enc_str(v.contract_name).len();
            assert(bb.subrange(pos as int, e1) =~= w.subrange(0, e1 - pos));
            assert(bb.subrange(e1, e1 + enc_bytes(v.data).len()) =~= w.subrange(e1 - pos, w.len() as int));
        }
    }
    let (name, p1) = match get_str(b, pos) {
        Some(r) => r,
        None => {
            proof {
                assert forall|v: NodeBlobView| pos + enc_node_blob(v).len() <= bb.len() implies #[trigger] bb.subrange(pos as int, pos + enc_node_blob(v).len()) != enc_node_blob(v) by {
                    if bb.subrange(pos as int, pos + enc_node_blob(v).len()) == enc_node_blob(v) {
                        assert(bb.subrange(pos as int, pos + enc_str(v.contract_name).len()) == enc_str(v.contract_name));
                    }
                }
            }
            return None;
        },
    };
    let (data, p2) = match get_bytes(b, p1) {
        Some(r) => r,
        None => {
            proof {
                assert forall|v: NodeBlobView| pos + enc_node_blob(v).len() <= bb.len() implies #[trigger] bb.subrange(pos as int, pos + enc_node_blob(v).len()) != enc_node_blob(v) by {
                    if bb.subrange(pos as int, pos + enc_node_blob(v).len()) == enc_node_blob(v) {
                        assert(bb.subrange(pos as int, pos + enc_str(v.contract_name).len()) == enc_str(v.contract_name));
                        assert(bb.subrange(p1 as int, p1 + enc_bytes(v.data).len()) == enc_bytes(v.data));
                    }
                }
            }
            return None;
        },
    };
    let r = Blob { contract_name: ContractName(name), data: BlobData(data) };
    proof {
        assert(bb.subrange(pos as int, p2 as int) =~= bb.subrange(pos as int, p1 as int) + bb.subrange(p1 as int, p2 as int));
        assert forall|v: NodeBlobView| pos + enc_node_blob(v).len() <= bb.len() && #[trigger] bb.subrange(pos as int, pos + enc_node_blob(v).len()) == enc_node_blob(v)
            implies node_blob_view(r) == v && p2 == pos + enc_node_blob(v).len() by {
            assert(bb.subrange(pos as int, pos + enc_str(v.contract_name).len()) == enc_str(v.contract_name));
            assert(bb.subrange(p1 as int, p1 + enc_bytes(v.data).len()) == enc_bytes(v.data));
        }
    }
    Some((r, p2))
}

/// The bytes of blobs, one after the other.
pub open spec fn concat_node_blobs(bs: Seq<NodeBlobView>) -> Seq<u8>
    decreases bs.len(),
{
    if bs.len() == 0 {
        Seq::empty()
    } else {
        enc_node_blob(bs[0]) + concat_node_blobs(bs.drop_first())
    }
}

/// Blobs, prefixed by their number.
pub open spec fn enc_node_blobs(bs: Seq<NodeBlobView>) -> Seq<u8> {
    enc_u64(bs.len() as u64) + concat_node_blobs(bs)
}

pub proof fn lemma_concat_node_blobs_push(bs: Seq<NodeBlobView>, r: NodeBlobView)
    ensures
        concat_node_blobs(bs.push(r)) == concat_node_blobs(bs) + enc_node_blob(r),
    decreases bs.len(),
{
    if bs.len() == 0 {
        assert(bs.push(r).drop_first() =~= Seq::<NodeBlobView>::empty());
        assert(bs.push(r)[0] == r);
        assert(concat_node_blobs(bs.push(r).drop_first()) =~= Seq::<u8>::empty());
        assert(concat_node_blobs(bs.push(r)) =~= enc_node_blob(r));
    } else {
        assert(bs.push(r).drop_first() =~= bs.drop_first().push(r));
        lemma_concat_node_blobs_push(bs.drop_first(), r);
        assert(concat_node_blobs(bs.push(r)) =~= concat_node_blobs(bs) + enc_node_blob(r));
    }
}

proof fn lemma_concat_node_blobs_len(bs: Seq<NodeBlobView>)
    ensures
        concat_node_blobs(bs).len() >= bs.len(),
    decreases bs.len(),
{
    if bs.len() > 0 {
        lemma_enc_node_blob_len(bs[0]);
        lemma_concat_node_blobs_len(bs.drop_first());
    }
}

fn put_node_blobs(out: &mut Vec<u8>, bs: &Vec<Blob>)
    ensures
        final(out)@ == old(out)@ + enc_node_blobs(node_blobs_view(bs@)),
{
    put_u64(out, bs.len() as u64);
    let ghost start = out@;
    let mut i: usize = 0;
    while i < bs.len()
        invariant
            i <= bs@.len(),
            out@ == start + concat_node_blobs(node_blobs_view(bs@).take(i as int)),
        decreases bs@.len() - i,
    {
        put_node_blob(out, &bs[i]);
        proof {
            assert(node_blobs_view(bs@).take(i + 1) =~= node_blobs_view(bs@).take(i as int).push(node_blob_view(bs@[i as int])));
            lemma_concat_node_blobs_push(node_blobs_view(bs@).take(i as int), node_blob_view(bs@[i as int]));
        }
        i = i + 1;
    }
    assert(node_blobs_view(bs@).take(bs@.len() as int) =~= node_blobs_view(bs@));
    assert(out@ =~= old(out)@ + enc_node_blobs(node_blobs_view(bs@)));
}

fn get_node_blobs(b: &[u8], pos: usize) -> (res: Option<(Vec<Blob>, usize)>)
    ensures
        res matches Some((bs, end)) ==> pos <= end <= b@.len() && b@.subrange(pos as int, end as int) == enc_node_blobs(node_blobs_view(bs@)),
        forall|v: Seq<NodeBlobView>| pos + enc_node_blobs(v).len() <= b@.len() && #[trigger] b@.subrange(pos as int, pos + enc_node_blobs(v).len()) == enc_node_blobs(v)
            ==> (res matches Some((bs, end)) && node_blobs_view(bs@) == v && end == pos + enc_node_blobs(v).len()),
{
    let ghost bb = b@;
    let blen = b.len();
    proof {
        lemma_auto_spec_u64_to_from_le_bytes();
    }
    let (n, start) = match get_u64(b, pos) {
        Some(r) => r,
        None => {
            proof {
                assert forall|v: Seq<NodeBlobView>| pos + enc_node_blobs(v).len() <= bb.len() implies #[trigger] bb.subrange(pos as int, pos + enc_node_blobs(v).len()) != enc_node_blobs(v) by {
                    lemma_enc_u64_len(v.len() as u64);
                }
            }
            return None;
        },
    };
    proof {
        assert forall|v: Seq<NodeBlobView>| pos + enc_node_blobs(v).len() <= bb.len() && #[trigger] bb.subrange(pos as int, pos + enc_node_blobs(v).len()) == enc_node_blobs(v) implies {
            &&& n == v.len()
            &&& node_blobs_view(Seq::<Blob>::empty()) == v.take(0)
            &&& start + concat_node_blobs(v.skip(0)).len() <= bb.len()
            &&& bb.subrange(start as int, start + concat_node_blobs(v.skip(0)).len()) == concat_node_blobs(v.skip(0))
            &&& start + concat_node_blobs(v.skip(0)).len() == pos + enc_node_blobs(v).len()
        } by {
            lemma_enc_u64_len(v.len() as u64);
            lemma_concat_node_blobs_len(v);
            let x = v.len() as u64;
            let w = bb.subrange(pos as int, pos + enc_node_blobs(v).len());
            assert(bb.subrange(pos as int, pos + 8) =~= w.subrange(0, 8));
            assert(w.subrange(0, 8) =~= enc_u64(x));
            assert(bb.subrange(pos as int, pos + 8) == enc_u64(x));
            assert(n == x);
            assert(v.skip(0) =~= v);
            assert(v.take(0) =~= Seq::<NodeBlobView>::empty());
            assert(node_blobs_view(Seq::<Blob>::empty()) =~= Seq::<NodeBlobView>::empty());
            assert(bb.subrange(start as int, start + concat_node_blobs(v).len()) =~= w.subrange(8, w.len() as int));
        }
        assert(bb.subrange(start as int, start as int) =~= concat_node_blobs(node_blobs_view(Seq::<Blob>::empty())));
    }
    let mut bs: Vec<Blob> = Vec::new();
    let mut cur: usize = start;
    let mut k: u64 = 0;
    while k < n
        invariant
            bb == b@,
            blen == bb.len(),
            start == pos + 8,
            start <= cur <= bb.len(),
            k <= n,
            bs@.len() == k,
            bb.subrange(start as int, cur as int) == concat_node_blobs(node_blobs_view(bs@)),
            bb.subrange(pos as int, start as int) == enc_u64(n),
            forall|v: Seq<NodeBlobView>| pos + enc_node_blobs(v).len() <= bb.len() && #[trigger] bb.subrange(pos as int, pos + enc_node_blobs(v).len()) == enc_node_blobs(v) ==> {
                &&& n == v.len()
                &&& node_blobs_view(bs@) == v.take(k as int)
                &&& cur + concat_node_blobs(v.skip(k as int)).len() <= bb.len()
                &&& bb.subrange(cur as int, cur + concat_node_blobs(v.skip(k as int)).len()) == concat_node_blobs(v.skip(k as int))
                &&& cur + concat_node_blobs(v.skip(k as int)).len() == pos + enc_node_blobs(v).len()
            },
        decreases n - k,
    {
        let ghost before = bs@;
        match get_node_blob(b, cur) {
            None => {
                proof {
                    assert forall|v: Seq<NodeBlobView>| pos + enc_node_blobs(v).len() <= bb.len() implies #[trigger] bb.subrange(pos as int, pos + enc_node_blobs(v).len()) != enc_node_blobs(v) by {
                        if bb.subrange(pos as int, pos + enc_node_blobs(v).len()) == enc_node_blobs(v) {
                            let rest = v.skip(k as int);
                            assert(rest.len() > 0);
                            let len0 = enc_node_blob(rest[0]).len();
                            let w = bb.subrange(cur as int, cur + concat_node_blobs(rest).len());
                            assert(concat_node_blobs(rest) == enc_node_blob(rest[0]) + concat_node_blobs(rest.drop_first()));
                            assert(w.subrange(0, len0 as int) =~= enc_node_blob(rest[0]));
                            assert(bb.subrange(cur as int, cur + len0) =~= w.subrange(0, len0 as int));
                            assert(bb.subrange(cur as int, cur + enc_node_blob(rest[0]).len()) == enc_node_blob(rest[0]));
                        }
                    }
                }
                return None;
            },
            Some((r, next)) => {
                proof {
                    assert forall|v: Seq<NodeBlobView>| pos + enc_node_blobs(v).len() <= bb.len() && #[trigger] bb.subrange(pos as int, pos + enc_node_blobs(v).len()) == enc_node_blobs(v) implies {
                        &&& node_blob_view(r) == v[k as int]
                        &&& next + concat_node_blobs(v.skip(k + 1)).len() <= bb.len()
                        &&& bb.subrange(next as int, next + concat_node_blobs(v.skip(k + 1)).len()) == concat_node_blobs(v.skip(k + 1))
                        &&& next + concat_node_blobs(v.skip(k + 1)).len() == pos + enc_node_blobs(v).len()
                    } by {
                        let rest = v.skip(k as int);
                        assert(rest.len() > 0);
                        assert(rest.drop_first() =~= v.skip(k + 1));
                        let len0 = enc_node_blob(rest[0]).len();
                        let w = bb.subrange(cur as int, cur + concat_node_blobs(rest).len());
                        assert(concat_node_blobs(rest) == enc_node_blob(rest[0]) + concat_node_blobs(rest.drop_first()));
                        assert(w.subrange(0, len0 as int) =~= enc_node_blob(rest[0]));
                        assert(bb.subrange(cur as int, cur + len0) =~= w.subrange(0, len0 as int));
                        assert(bb.subrange(cur as int, cur + enc_node_blob(rest[0]).len()) == enc_node_blob(rest[0]));
                        assert(rest[0] == v[k as int]);
                        assert(next == cur + len0);
                        assert(w.subrange(len0 as int, w.len() as int) =~= concat_node_blobs(v.skip(k + 1)));
                        assert(bb.subrange(next as int, next + concat_node_blobs(v.skip(k + 1)).len()) =~= w.subrange(len0 as int, w.len() as int));
                    }
                }
                bs.push(r);
                proof {
                    assert(node_blobs_view(bs@) =~= node_blobs_view(before).push(node_blob_view(r)));
                    lemma_concat_node_blobs_push(node_blobs_view(before), node_blob_view(r));
                    assert(bb.subrange(start as int, next as int) =~= bb.subrange(start as int, cur as int) + bb.subrange(cur as int, next as int));
                    assert forall|v: Seq<NodeBlobView>| pos + enc_node_blobs(v).len() <= bb.len() && #[trigger] bb.subrange(pos as int, pos + enc_node_blobs(v).len()) == enc_node_blobs(v) implies
                        node_blobs_view(bs@) == v.take(k + 1) by {
                        assert(v.take(k + 1) =~= v.take(k as int).push(v[k as int]));
                    }
                }
                cur = next;
                k = k + 1;
            },
        }
    }
    proof {
        assert(bb.subrange(pos as int, cur as int) =~= bb.subrange(pos as int, start as int) + bb.subrange(start as int, cur as int));
        assert(node_blobs_view(bs@).len() == n);
        assert(bb.subrange(pos as int, cur as int) =~= enc_node_blobs(node_blobs_view(bs@)));
        assert forall|v: Seq<NodeBlobView>| pos + enc_node_blobs(v).len() <= bb.len() && #[trigger] bb.subrange(pos as int, pos + enc_node_blobs(v).len()) == enc_node_blobs(v) implies
            node_blobs_view(bs@) == v && cur == pos + enc_node_blobs(v).len() by {
            assert(v.take(k as int) =~= v);
            assert(v.skip(k as int) =~= Seq::<NodeBlobView>::empty());
        }
    }
    Some((bs, cur))
}

/// If the bytes from `pos` to the end are `x` then `y`, each is where it
/// should be.
proof fn lemma_split2(b: Seq<u8>, pos: int, x: Seq<u8>, y: Seq<u8>)
    requires
        0 <= pos <= b.len(),
        b.subrange(pos, b.len() as int) == x + y,
    ensures
        pos + x.len() + y.len() == b.len(),
        b.subrange(pos, pos + x.len()) == x,
        b.subrange(pos + x.len(), b.len() as int) == y,
{
    let w = b.subrange(pos, b.len() as int);
    assert(b.subrange(pos, pos + x.len()) =~= w.subrange(0, x.len() as int));
    assert(w.subrange(0, x.len() as int) =~= x);
    assert(b.subrange(pos + x.len(), b.len() as int) =~= w.subrange(x.len() as int, w.len() as int));
    assert(w.subrange(x.len() as int, w.len() as int) =~= y);
}

/// A blob transaction, as plain values.
pub ghost struct BlobTxView {
    pub identity: Seq<char>,
    pub fees_identity: Seq<char>,
    pub fee_blobs: Seq<NodeBlobView>,
    pub blobs: Seq<NodeBlobView>,
}

/// A contract registration, as plain values.
pub ghost struct RegView {
    pub owner: Seq<char>,
    pub verifier: Seq<char>,
    pub program_id: Seq<u8>,
    pub state_digest: Seq<u8>,
    pub contract_name: Seq<char>,
}

/// What a transaction does, as plain values.
pub ghost enum TxDataView {
    Blob(BlobTxView),
    Proof(Seq<RefView>, Seq<u8>),
    RegisterContract(RegView),
    Stake(Seq<u8>),
}

pub open spec fn blob_tx_view(t: BlobTransaction) -> BlobTxView {
    BlobTxView {
        identity: t.identity@,
        fees_identity: t.fees.identity@,
        fee_blobs: node_blobs_view(t.fees.blobs@),
        blobs: node_blobs_view(t.blobs@),
    }
}

pub open spec fn reg_view(r: RegisterContractTransaction) -> RegView {
    RegView {
        owner: r.owner@,
        verifier: r.verifier@,
        program_id: r.program_id@,
        state_digest: r.state_digest@,
        contract_name: r.contract_name@,
    }
}

pub open spec fn tx_data_view(d: TransactionData) -> TxDataView {
    match d {
        TransactionData::Blob(t) => TxDataView::Blob(blob_tx_view(t)),
        TransactionData::Proof(p) => TxDataView::Proof(refs_view(p.blobs_references@), p.proof@),
        TransactionData::RegisterContract(r) => TxDataView::RegisterContract(reg_view(r)),
        TransactionData::Stake(d) => TxDataView::Stake(d@),
    }
}

/// The bytes of a blob transaction.
pub open spec fn enc_blob_tx(v: BlobTxView) -> Seq<u8> {
    enc_str(v.identity) + enc_str(v.fees_identity) + enc_node_blobs(v.fee_blobs) + enc_node_blobs(v.blobs)
}

/// The bytes of a contract registration.
pub open spec fn enc_reg(v: RegView) -> Seq<u8> {
    enc_str(v.owner) + enc_str(v.verifier) + enc_bytes(v.program_id) + enc_bytes(v.state_digest) + enc_str(v.contract_name)
}

/// The bytes of a proof transaction.
pub open spec fn enc_proof_tx(refs: Seq<RefView>, proof: Seq<u8>) -> Seq<u8> {
    enc_refs(refs) + enc_bytes(proof)
}

/// The tag of each kind of transaction.
pub open spec fn tx_tag(v: TxDataView) -> u64 {
    match v {
        TxDataView::Blob(_) => 0,
        TxDataView::Proof(_, _) => 1,
        TxDataView::RegisterContract(_) => 2,
        TxDataView::Stake(_) => 3,
    }
}

/// The bytes of the contents of a transaction.
pub open spec fn tx_body(v: TxDataView) -> Seq<u8> {
    match v {
        TxDataView::Blob(t) => enc_blob_tx(t),
        TxDataView::Proof(refs, proof) => enc_proof_tx(refs, proof),
        TxDataView::RegisterContract(r) => enc_reg(r),
        TxDataView::Stake(d) => enc_bytes(d),
    }
}

/// The bytes of what a transaction does: the tag of its kind, then its
/// contents.
pub open spec fn enc_tx_data(v: TxDataView) -> Seq<u8> {
    enc_u64(tx_tag(v)) + tx_body(v)
}

pub fn put_tx_data(out: &mut Vec<u8>, d: &TransactionData)
    ensures
        final(out)@ == old(out)@ + enc_tx_data(tx_data_view(*d)),
{
    match d {
        TransactionData::Blob(t) => {
            put_u64(out, 0);
            put_str(out, &t.identity.0);
            put_str(out, &t.fees.identity.0);
            put_node_blobs(out, &t.fees.blobs);
            put_node_blobs(out, &t.blobs);
        },
        TransactionData::Proof(p) => {
            put_u64(out, 1);
            put_refs(out, &p.blobs_references);
            put_bytes(out, p.proof.as_slice());
        },
        TransactionData::RegisterContract(r) => {
            put_u64(out, 2);
            put_str(out, &r.owner);
            put_str(out, &r.verifier);
            put_bytes(out, r.program_id.as_slice());
            put_bytes(out, r.state_digest.0.as_slice());
            put_str(out, &r.contract_name.0);
        },
        TransactionData::Stake(bytes) => {
            put_u64(out, 3);
            put_bytes(out, bytes.as_slice());
        },
    }
    assert(out@ =~= old(out)@ + enc_tx_data(tx_data_view(*d)));
}

/// Reads a blob transaction from `pos` to the end of `b`.
fn get_blob_tx_suffix(b: &[u8], pos: usize) -> (res: Option<BlobTransaction>)
    requires
        pos <= b@.len(),
    ensures
        res matches Some(t) ==> b@.subrange(pos as int, b@.len() as int) == enc_blob_tx(blob_tx_view(t)),
        forall|v: BlobTxView| b@.subrange(pos as int, b@.len() as int) == #[trigger] enc_blob_tx(v)
            ==> (res matches Some(t) && blob_tx_view(t) == v),
{
    let ghost bb = b@;
    let ghost n = bb.len() as int;
    proof {
        assert forall|v: BlobTxView| bb.subrange(pos as int, n) == #[trigger] enc_blob_tx(v) implies {
            let e1 = pos + enc_str(v.identity).len();
            let e2 = e1 + enc_str(v.fees_identity).len();
            let e3 = e2 + enc_node_blobs(v.fee_blobs).len();
            &&& bb.subrange(pos as int, e1) == enc_str(v.identity)
            &&& bb.subrange(e1, e2) == enc_str(v.fees_identity)
            &&& bb.subrange(e2, e3) == enc_node_blobs(v.fee_blobs)
            &&& e3 + enc_node_blobs(v.blobs).len() == n
            &&& bb.subrange(e3, n) == enc_node_blobs(v.blobs)
        } by {
            let a = enc_str(v.identity);
            let c = enc_str(v.fees_identity);
            let d = enc_node_blobs(v.fee_blobs);
            let e = enc_node_blobs(v.blobs);
            assert(a + c + d + e =~= a + (c + (d + e)));
            lemma_split2(bb, pos as int, a, c + (d + e));
            lemma_split2(bb, pos + a.len(), c, d + e);
            lemma_split2(bb, pos + a.len() + c.len(), d, e);
        }
    }
    let (identity, p1) = match get_str(b, pos) {
        Some(r) => r,
        None => {
            proof {
                assert forall|v: BlobTxView| bb.subrange(pos as int, n) == #[trigger] enc_blob_tx(v) implies false by {
                    assert(bb.subrange(pos as int, pos + enc_str(v.identity).len()) == enc_str(v.identity));
                }
            }
            return None;
        },
    };
    proof {
        assert forall|v: BlobTxView| bb.subrange(pos as int, n) == #[trigger] enc_blob_tx(v) implies
            p1 == pos + enc_str(v.identity).len() && identity@ == v.identity by {
            assert(bb.subrange(pos as int, pos + enc_str(v.identity).len()) == enc_str(v.identity));
        }
    }
    let (fees_identity, p2) = match get_str(b, p1) {
        Some(r) => r,
        None => {
            proof {
                assert forall|v: BlobTxView| bb.subrange(pos as int, n) == #[trigger] enc_blob_tx(v) implies false by {
                    assert(bb.subrange(p1 as int, p1 + enc_str(v.fees_identity).len()) == enc_str(v.fees_identity));
                }
            }
            return None;
        },
    };
    proof {
        assert forall|v: BlobTxView| bb.subrange(pos as int, n) == #[trigger] enc_blob_tx(v) implies
            p2 == p1 + enc_str(v.fees_identity).len() && fees_identity@ == v.fees_identity by {
            assert(bb.subrange(p1 as int, p1 + enc_str(v.fees_identity).len()) == enc_str(v.fees_identity));
        }
    }
    let (fee_blobs, p3) = match get_node_blobs(b, p2) {
        Some(r) => r,
        None => {
            proof {
                assert forall|v: BlobTxView| bb.subrange(pos as int, n) == #[trigger] enc_blob_tx(v) implies false by {
                    assert(bb.subrange(p2 as int, p2 + enc_node_blobs(v.fee_blobs).len()) == enc_node_blobs(v.fee_blobs));
                }
            }
            return None;
        },
    };
    proof {
        assert forall|v: BlobTxView| bb.subrange(pos as int, n) == #[trigger] enc_blob_tx(v) implies
            p3 == p2 + enc_node_blobs(v.fee_blobs).len() && node_blobs_view(fee_blobs@) == v.fee_blobs by {
            assert(bb.subrange(p2 as int, p2 + enc_node_blobs(v.fee_blobs).len()) == enc_node_blobs(v.fee_blobs));
        }
    }
    let (blobs, p4) = match get_node_blobs(b, p3) {
        Some(r) => r,
        None => {
            proof {
                assert forall|v: BlobTxView| bb.subrange(pos as int, n) == #[trigger] enc_blob_tx(v) implies false by {
                    assert(bb.subrange(p3 as int, p3 + enc_node_blobs(v.blobs).len()) == enc_node_blobs(v.blobs));
                }
            }
            return None;
        },
    };
    proof {
        assert forall|v: BlobTxView| bb.subrange(pos as int, n) == #[trigger] enc_blob_tx(v) implies
            p4 == n && node_blobs_view(blobs@) == v.blobs by {
            assert(bb.subrange(p3 as int, p3 + enc_node_blobs(v.blobs).len()) == enc_node_blobs(v.blobs));
        }
    }
    if p4 != b.len() {
        return None;
    }
    let t = BlobTransaction {
        identity: Identity(identity),
        fees: Fees { identity: Identity(fees_identity), blobs: fee_blobs },
        blobs,
    };
    proof {
        assert(bb.subrange(pos as int, n) =~= bb.subrange(pos as int, p1 as int) + bb.subrange(p1 as int, p2 as int)
            + bb.subrange(p2 as int, p3 as int) + bb.subrange(p3 as int, p4 as int));
    }
    Some(t)
}

/// Reads a contract registration from `pos` to the end of `b`.
fn get_reg_suffix(b: &[u8], pos: usize) -> (res: Option<RegisterContractTransaction>)
    requires
        pos <= b@.len(),
    ensures
        res matches Some(r) ==> b@.subrange(pos as int, b@.len() as int) == enc_reg(reg_view(r)),
        forall|v: RegView| b@.subrange(pos as int, b@.len() as int) == #[trigger] enc_reg(v)
            ==> (res matches Some(r) && reg_view(r) == v),
{
    let ghost bb = b@;
    let ghost n = bb.len() as int;
    proof {
        assert forall|v: RegView| bb.subrange(pos as int, n) == #[trigger] enc_reg(v) implies {
            let e1 = pos + enc_str(v.owner).len();
            let e2 = e1 + enc_str(v.verifier).len();
            let e3 = e2 + enc_bytes(v.program_id).len();
            let e4 = e3 + enc_bytes(v.state_digest).len();
            &&& bb.subrange(pos as int, e1) == enc_str(v.owner)
            &&& bb.subrange(e1, e2) == enc_str(v.verifier)
            &&& bb.subrange(e2, e3) == enc_bytes(v.program_id)
            &&& bb.subrange(e3, e4) == enc_bytes(v.state_digest)
            &&& e4 + enc_str(v.contract_name).len() == n
            &&& bb.subrange(e4, n) == enc_str(v.contract_name)
        } by {
            let a = enc_str(v.owner);
            let c = enc_str(v.verifier);
            let d = enc_bytes(v.program_id);
            let e = enc_bytes(v.state_digest);
            let f = enc_str(v.contract_name);
            assert(a + c + d + e + f =~= a + (c + (d + (e + f))));
            lemma_split2(bb, pos as int, a, c + (d + (e + f)));
            lemma_split2(bb, pos + a.len(), c, d + (e + f));
            lemma_split2(bb, pos + a.len() + c.len(), d, e + f);
            lemma_split2(bb, pos + a.len() + c.len() + d.len(), e, f);
        }
    }
    let (owner, p1) = match get_str(b, pos) {
        Some(r) => r,
        None => {
            proof {
                assert forall|v: RegView| bb.subrange(pos as int, n) == #[trigger] enc_reg(v) implies false by {
                    assert(bb.subrange(pos as int, pos + enc_str(v.owner).len()) == enc_str(v.owner));
                }
            }
            return None;
        },
    };
    proof {
        assert forall|v: RegView| bb.subrange(pos as int, n) == #[trigger] enc_reg(v) implies
            p1 == pos + enc_str(v.owner).len() && owner@ == v.owner by {
            assert(bb.subrange(pos as int, pos + enc_str(v.owner).len()) == enc_str(v.owner));
        }
    }
    let (verifier, p2) = match get_str(b, p1) {
        Some(r) => r,
        None => {
            proof {
                assert forall|v: RegView| bb.subrange(pos as int, n) == #[trigger] enc_reg(v) implies false by {
                    assert(bb.subrange(p1 as int, p1 + enc_str(v.verifier).len()) == enc_str(v.verifier));
                }
            }
            return None;
        },
    };
    proof {
        assert forall|v: RegView| bb.subrange(pos as int, n) == #[trigger] enc_reg(v) implies
            p2 == p1 + enc_str(v.verifier).len() && verifier@ == v.verifier by {
            assert(bb.subrange(p1 as int, p1 + enc_str(v.verifier).len()) == enc_str(v.verifier));
        }
    }
    let (program_id, p3) = match get_bytes(b, p2) {
        Some(r) => r,
        None => {
            proof {
                assert forall|v: RegView| bb.subrange(pos as int, n) == #[trigger] enc_reg(v) implies false by {
                    assert(bb.subrange(p2 as int, p2 + enc_bytes(v.program_id).len()) == enc_bytes(v.program_id));
                }
            }
            return None;
        },
    };
    proof {
        assert forall|v: RegView| bb.subrange(pos as int, n) == #[trigger] enc_reg(v) implies
            p3 == p2 + enc_bytes(v.program_id).len() && program_id@ == v.program_id by {
            assert(bb.subrange(p2 as int, p2 + enc_bytes(v.program_id).len()) == enc_bytes(v.program_id));
        }
    }
    let (state_digest, p4) = match get_bytes(b, p3) {
        Some(r) => r,
        None => {
            proof {
                assert forall|v: RegView| bb.subrange(pos as int, n) == #[trigger] enc_reg(v) implies false by {
                    assert(bb.subrange(p3 as int, p3 + enc_bytes(v.state_digest).len()) == enc_bytes(v.state_digest));
                }
            }
            return None;
        },
    };
    proof {
        assert forall|v: RegView| bb.subrange(pos as int, n) == #[trigger] enc_reg(v) implies
            p4 == p3 + enc_bytes(v.state_digest).len() && state_digest@ == v.state_digest by {
            assert(bb.subrange(p3 as int, p3 + enc_bytes(v.state_digest).len()) == enc_bytes(v.state_digest));
        }
    }
    let (contract_name, p5) = match get_str(b, p4) {
        Some(r) => r,
        None => {
            proof {
                assert forall|v: RegView| bb.subrange(pos as int, n) == #[trigger] enc_reg(v) implies false by {
                    assert(bb.subrange(p4 as int, p4 + enc_str(v.contract_name).len()) == enc_str(v.contract_name));
                }
            }
            return None;
        },
    };
    proof {
        assert forall|v: RegView| bb.subrange(pos as int, n) == #[trigger] enc_reg(v) implies
            p5 == n && contract_name@ == v.contract_name by {
            assert(bb.subrange(p4 as int, p4 + enc_str(v.contract_name).len()) == enc_str(v.contract_name));
        }
    }
    if p5 != b.len() {
        return None;
    }
    let r = RegisterContractTransaction {
        owner,
        verifier,
        program_id,
        state_digest: StateDigest(state_digest),
        contract_name: ContractName(contract_name),
    };
    proof {
        assert(bb.subrange(pos as int, n) =~= bb.subrange(pos as int, p1 as int) + bb.subrange(p1 as int, p2 as int)
            + bb.subrange(p2 as int, p3 as int) + bb.subrange(p3 as int, p4 as int) + bb.subrange(p4 as int, p5 as int));
    }
    Some(r)
}

/// Reads a proof transaction from `pos` to the end of `b`.
fn get_proof_suffix(b: &[u8], pos: usize) -> (res: Option<ProofTransaction>)
    requires
        pos <= b@.len(),
    ensures
        res matches Some(p) ==> b@.subrange(pos as int, b@.len() as int) == enc_proof_tx(refs_view(p.blobs_references@), p.proof@),
        forall|refs: Seq<RefView>, proof: Seq<u8>| b@.subrange(pos as int, b@.len() as int) == #[trigger] enc_proof_tx(refs, proof)
            ==> (res matches Some(p) && refs_view(p.blobs_references@) == refs && p.proof@ == proof),
{
    let ghost bb = b@;
    let ghost n = bb.len() as int;
    proof {
        assert forall|refs: Seq<RefView>, proof: Seq<u8>| bb.subrange(pos as int, n) == #[trigger] enc_proof_tx(refs, proof) implies {
            &&& bb.subrange(pos as int, pos + enc_refs(refs).len()) == enc_refs(refs)
            &&& pos + enc_refs(refs).len() + enc_bytes(proof).len() == n
            &&& bb.subrange(pos + enc_refs(refs).len(), n) == enc_bytes(proof)
        } by {
            lemma_split2(bb, pos as int, enc_refs(refs), enc_bytes(proof));
        }
    }
    let (refs, p1) = match get_refs(b, pos) {
        Some(r) => r,
        None => {
            proof {
                assert forall|refs: Seq<RefView>, proof: Seq<u8>| bb.subrange(pos as int, n) == #[trigger] enc_proof_tx(refs, proof) implies false by {
                    assert(bb.subrange(pos as int, pos + enc_refs(refs).len()) == enc_refs(refs));
                }
            }
            return None;
        },
    };
    proof {
        assert forall|rv: Seq<RefView>, proof: Seq<u8>| bb.subrange(pos as int, n) == #[trigger] enc_proof_tx(rv, proof) implies
            p1 == pos + enc_refs(rv).len() && refs_view(refs@) == rv by {
            assert(bb.subrange(pos as int, pos + enc_refs(rv).len()) == enc_refs(rv));
        }
    }
    let (proof_bytes, p2) = match get_bytes(b, p1) {
        Some(r) => r,
        None => {
            proof {
                assert forall|refs: Seq<RefView>, proof: Seq<u8>| bb.subrange(pos as int, n) == #[trigger] enc_proof_tx(refs, proof) implies false by {
                    assert(bb.subrange(p1 as int, p1 + enc_bytes(proof).len()) == enc_bytes(proof));
                }
            }
            return None;
        },
    };
    proof {
        assert forall|rv: Seq<RefView>, proof: Seq<u8>| bb.subrange(pos as int, n) == #[trigger] enc_proof_tx(rv, proof) implies
            p2 == n && proof_bytes@ == proof by {
            assert(bb.subrange(p1 as int, p1 + enc_bytes(proof).len()) == enc_bytes(proof));
        }
    }
    if p2 != b.len() {
        return None;
    }
    let p = ProofTransaction { blobs_references: refs, proof: proof_bytes };
    proof {
        assert(bb.subrange(pos as int, n) =~= bb.subrange(pos as int, p1 as int) + bb.subrange(p1 as int, p2 as int));
    }
    Some(p)
}

/// Reads what a transaction does from `pos` to the end of `b`.
pub fn get_tx_data_suffix(b: &[u8], pos: usize) -> (res: Option<TransactionData>)
    requires
        pos <= b@.len(),
    ensures
        res matches Some(d) ==> b@.subrange(pos as int, b@.len() as int) == enc_tx_data(tx_data_view(d)),
        forall|v: TxDataView| b@.subrange(pos as int, b@.len() as int) == #[trigger] enc_tx_data(v)
            ==> (res matches Some(d) && tx_data_view(d) == v),
{
    let ghost bb = b@;
    let ghost n = bb.len() as int;
    proof {
        lemma_auto_spec_u64_to_from_le_bytes();
        assert forall|v: TxDataView| bb.subrange(pos as int, n) == #[trigger] enc_tx_data(v) implies {
            &&& pos + 8 <= n
            &&& bb.subrange(pos as int, pos + 8) == enc_u64(tx_tag(v))
            &&& bb.subrange(pos + 8, n) == tx_body(v)
        } by {
            lemma_enc_u64_len(tx_tag(v));
            lemma_split2(bb, pos as int, enc_u64(tx_tag(v)), tx_body(v));
        }
    }
    let (tag, start) = match get_u64(b, pos) {
        Some(r) => r,
        None => {
            proof {
                assert forall|v: TxDataView| bb.subrange(pos as int, n) == #[trigger] enc_tx_data(v) implies false by {
                    assert(bb.subrange(pos as int, pos + 8) == enc_u64(tx_tag(v)));
                }
            }
            return None;
        },
    };
    proof {
        assert forall|v: TxDataView| bb.subrange(pos as int, n) == #[trigger] enc_tx_data(v) implies
            tag == tx_tag(v) && bb.subrange(start as int, n) == tx_body(v) by {
            assert(bb.subrange(pos as int, pos + 8) == enc_u64(tx_tag(v)));
        }
        assert(bb.subrange(pos as int, n) =~= bb.subrange(pos as int, start as int) + bb.subrange(start as int, n));
    }
    if tag == 0 {
        match get_blob_tx_suffix(b, start) {
            Some(t) => Some(TransactionData::Blob(t)),
            None => {
                proof {
                    assert forall|v: TxDataView| bb.subrange(pos as int, n) == #[trigger] enc_tx_data(v) implies false by {
                        if let TxDataView::Blob(t) = v {
                            assert(bb.subrange(start as int, n) == enc_blob_tx(t));
                        }
                    }
                }
                None
            },
        }
    } else if tag == 1 {
        match get_proof_suffix(b, start) {
            Some(p) => Some(TransactionData::Proof(p)),
            None => {
                proof {
                    assert forall|v: TxDataView| bb.subrange(pos as int, n) == #[trigger] enc_tx_data(v) implies false by {
                        if let TxDataView::Proof(refs, proof) = v {
                            assert(bb.subrange(start as int, n) == enc_proof_tx(refs, proof));
                        }
                    }
                }
                None
            },
        }
    } else if tag == 2 {
        match get_reg_suffix(b, start) {
            Some(r) => Some(TransactionData::RegisterContract(r)),
            None => {
                proof {
                    assert forall|v: TxDataView| bb.subrange(pos as int, n) == #[trigger] enc_tx_data(v) implies false by {
                        if let TxDataView::RegisterContract(r) = v {
                            assert(bb.subrange(start as int, n) == enc_reg(r));
                        }
                    }
                }
                None
            },
        }
    } else if tag == 3 {
        match get_bytes(b, start) {
            Some((d, end)) => {
                if end != b.len() {
                    proof {
                        assert forall|v: TxDataView| bb.subrange(pos as int, n) == #[trigger] enc_tx_data(v) implies false by {
                            if let TxDataView::Stake(x) = v {
                                assert(bb.subrange(start as int, n) == enc_bytes(x));
                                assert(bb.subrange(start as int, start + enc_bytes(x).len()) =~= bb.subrange(start as int, n));
                            }
                        }
                    }
                    return None;
                }
                proof {
                    assert forall|v: TxDataView| bb.subrange(pos as int, n) == #[trigger] enc_tx_data(v) implies
                        tx_data_view(TransactionData::Stake(d)) == v by {
                        if let TxDataView::Stake(x) = v {
                            assert(bb.subrange(start as int, n) == enc_bytes(x));
                            assert(bb.subrange(start as int, start + enc_bytes(x).len()) =~= bb.subrange(start as int, n));
                        }
                    }
                }
                Some(TransactionData::Stake(d))
            },
            None => {
                proof {
                    assert forall|v: TxDataView| bb.subrange(pos as int, n) == #[trigger] enc_tx_data(v) implies false by {
                        if let TxDataView::Stake(x) = v {
                            assert(bb.subrange(start as int, n) == enc_bytes(x));
                            assert(bb.subrange(start as int, start + enc_bytes(x).len()) =~= bb.subrange(start as int, n));
                        }
                    }
                }
                None
            },
        }
    } else {
        None
    }
}

/// Copies blobs, keeping what they are.
fn copy_node_blobs(bs: &Vec<Blob>) -> (res: Vec<Blob>)
    ensures
        node_blobs_view(res@) == node_blobs_view(bs@),
{
    let mut out: Vec<Blob> = Vec::new();
    let mut i: usize = 0;
    while i < bs.len()
        invariant
            i <= bs.len(),
            out.len() == i,
            forall|j: int| 0 <= j < i ==> node_blob_view(#[trigger] out[j]) == node_blob_view(bs[j]),
        decreases bs.len() - i,
    {
        out.push(Blob { contract_name: bs[i].contract_name.copy(), data: BlobData(copy_bytes(&bs[i].data.0)) });
        i = i + 1;
    }
    assert(node_blobs_view(out@) =~= node_blobs_view(bs@));
    out
}

/// Copies what a transaction does, keeping its contents.
pub fn copy_tx_data(d: &TransactionData) -> (res: TransactionData)
    ensures
        tx_data_view(res) == tx_data_view(*d),
{
    match d {
        TransactionData::Blob(t) => TransactionData::Blob(BlobTransaction {
            identity: t.identity.copy(),
            fees: Fees { identity: t.fees.identity.copy(), blobs: copy_node_blobs(&t.fees.blobs) },
            blobs: copy_node_blobs(&t.blobs),
        }),
        TransactionData::Proof(p) => TransactionData::Proof(ProofTransaction {
            blobs_references: copy_refs(&p.blobs_references),
            proof: copy_bytes(&p.proof),
        }),
        TransactionData::RegisterContract(r) => TransactionData::RegisterContract(RegisterContractTransaction {
            owner: copy_string(&r.owner),
            verifier: copy_string(&r.verifier),
            program_id: copy_bytes(&r.program_id),
            state_digest: r.state_digest.copy(),
            contract_name: r.contract_name.copy(),
        }),
        TransactionData::Stake(bytes) => TransactionData::Stake(copy_bytes(bytes)),
    }
}

/// A stored transaction, with where it was sequenced.
#[derive(Debug, Clone, PartialEq, Eq)]
pub struct Transaction {
    pub block_height: BlockHeight,
    pub tx_index: usize,
    pub tx_hash: String,
    pub data: TransactionData,
}

pub ghost struct TxView {
    pub block_height: u64,
    pub tx_index: usize,
    pub tx_hash: Seq<char>,
    pub data: TxDataView,
}

impl View for Transaction {
    type V = TxView;

    open spec fn view(&self) -> TxView {
        TxView {
            block_height: self.block_height.0,
            tx_index: self.tx_index,
            tx_hash: self.tx_hash@,
            data: tx_data_view(self.data),
        }
    }
}

/// The bytes a transaction is stored as.
pub open spec fn enc_tx(v: TxView) -> Seq<u8> {
    enc_u64(v.block_height) + enc_u64(v.tx_index as u64) + enc_str(v.tx_hash) + enc_tx_data(v.data)
}

pub fn encode_tx(t: &Transaction) -> (res: Vec<u8>)
    ensures
        res@ == enc_tx(t@),
{
    let mut out: Vec<u8> = Vec::new();
    put_u64(&mut out, t.block_height.0);
    put_u64(&mut out, t.tx_index as u64);
    put_str(&mut out, &t.tx_hash);
    put_tx_data(&mut out, &t.data);
    assert(out@ =~= enc_tx(t@));
    out
}

/// Reads a stored transaction; `None` when the bytes are not one.
pub fn decode_tx(bytes: &[u8]) -> (res: Option<Transaction>)
    ensures
        res matches Some(t) ==> enc_tx(t@) == bytes@,
        forall|v: TxView| #[trigger] enc_tx(v) == bytes@ ==> (res matches Some(t) && t@ == v),
{
    let ghost b = bytes@;
    let ghost n = b.len() as int;
    proof {
        assert forall|v: TxView| #[trigger] enc_tx(v) == b implies {
            let e3 = (16 + enc_str(v.tx_hash).len()) as int;
            &&& b.subrange(0, 8) == enc_u64(v.block_height)
            &&& b.subrange(8, 16) == enc_u64(v.tx_index as u64)
            &&& b.subrange(16, e3) == enc_str(v.tx_hash)
            &&& e3 <= n
            &&& b.subrange(e3, n) == enc_tx_data(v.data)
        } by {
            lemma_enc_u64_len(v.block_height);
            lemma_enc_u64_len(v.tx_index as u64);
            let a = enc_u64(v.block_height);
            let c = enc_u64(v.tx_index as u64);
            let d = enc_str(v.tx_hash);
            let e = enc_tx_data(v.data);
            assert(b.subrange(0, n) =~= b);
            assert(a + c + d + e =~= a + (c + (d + e)));
            lemma_split2(b, 0, a, c + (d + e));
            lemma_split2(b, 8, c, d + e);
            lemma_split2(b, 16, d, e);
        }
    }
    let (height, p1) = match get_u64(bytes, 0) {
        Some(r) => r,
        None => {
            proof {
                assert forall|v: TxView| #[trigger] enc_tx(v) == b implies false by {
                    assert(b.subrange(0usize as int, 0usize + 8) == enc_u64(v.block_height));
                }
            }
            return None;
        },
    };
    proof {
        assert forall|v: TxView| #[trigger] enc_tx(v) == b implies height == v.block_height by {
            assert(b.subrange(0usize as int, 0usize + 8) == enc_u64(v.block_height));
        }
    }
    let (tx_index, p2) = match get_index(bytes, p1) {
        Some(r) => r,
        None => {
            proof {
                assert forall|v: TxView| #[trigger] enc_tx(v) == b implies false by {
                    assert(b.subrange(p1 as int, p1 + 8) == enc_u64(v.tx_index as u64));
                }
            }
            return None;
        },
    };
    proof {
        assert forall|v: TxView| #[trigger] enc_tx(v) == b implies tx_index == v.tx_index by {
            assert(b.subrange(p1 as int, p1 + 8) == enc_u64(v.tx_index as u64));
        }
    }
    let (tx_hash, p3) = match get_str(bytes, p2) {
        Some(r) => r,
        None => {
            proof {
                assert forall|v: TxView| #[trigger] enc_tx(v) == b implies false by {
                    assert(b.subrange(p2 as int, p2 + enc_str(v.tx_hash).len()) == enc_str(v.tx_hash));
                }
            }
            return None;
        },
    };
    proof {
        assert forall|v: TxView| #[trigger] enc_tx(v) == b implies p3 == 16 + enc_str(v.tx_hash).len() && tx_hash@ == v.tx_hash by {
            assert(b.subrange(p2 as int, p2 + enc_str(v.tx_hash).len()) == enc_str(v.tx_hash));
        }
    }
    let data = match get_tx_data_suffix(bytes, p3) {
        Some(d) => d,
        None => {
            proof {
                assert forall|v: TxView| #[trigger] enc_tx(v) == b implies false by {
                    assert(b.subrange(p3 as int, n) == enc_tx_data(v.data));
                }
            }
            return None;
        },
    };
    let t = Transaction { block_height: BlockHeight(height), tx_index, tx_hash, data };
    proof {
        assert forall|v: TxView| #[trigger] enc_tx(v) == b implies t@ == v by {
            assert(b.subrange(p3 as int, n) == enc_tx_data(v.data));
        }
        assert(b =~= b.subrange(0, p1 as int) + b.subrange(p1 as int, p2 as int) + b.subrange(p2 as int, p3 as int) + b.subrange(p3 as int, n));
        assert(enc_tx(t@) =~= b);
    }
    Some(t)
}

/// The record stored for a sequenced transaction.
pub fn tx_cow(block_height: BlockHeight, tx_index: usize, tx_hash: &String, data: &TransactionData) -> (res: Transaction)
    ensures
        res@ == (TxView { block_height: block_height.0, tx_index, tx_hash: tx_hash@, data: tx_data_view(*data) }),
{
    Transaction { block_height: BlockHeight(block_height.0), tx_index, tx_hash: copy_string(tx_hash), data: copy_tx_data(data) }
}

/// Whether `bytes` are the bytes of a stored transaction.
pub open spec fn is_stored_tx(bytes: Seq<u8>) -> bool {
    exists|v: TxView| #[trigger] enc_tx(v) == bytes
}

/// A stored value read back as a transaction: nothing stays nothing, and
/// bytes that are no stored transaction are an error.
pub fn tx_from_store(stored: Option<Vec<u8>>) -> (res: Result<Option<Transaction>, IndexerError>)
    ensures
        stored is None ==> res matches Ok(None),
        stored matches Some(bytes) ==> match res {
            Ok(Some(t)) => enc_tx(t@) == bytes@,
            Err(IndexerError::Corrupt) => !is_stored_tx(bytes@),
            _ => false,
        },
        stored matches Some(bytes) ==> forall|v: TxView| #[trigger] enc_tx(v) == bytes@ ==> (res matches Ok(Some(t)) && t@ == v),
{
    match stored {
        None => Ok(None),
        Some(bytes) => match decode_tx(bytes.as_slice()) {
            Some(t) => Ok(Some(t)),
            None => Err(IndexerError::Corrupt),
        },
    }
}

/// What a read of the key `k` of `c`, the stored transactions, gives back:
/// the transaction stored there, nothing where there is none, an error
/// where the bytes are no stored transaction (or sled failed).
pub open spec fn reads_tx(c: Map<Seq<u8>, Seq<u8>>, k: Seq<u8>, res: Result<Option<Transaction>, IndexerError>) -> bool {
    &&& res matches Ok(Some(t)) ==> c.contains_key(k) && enc_tx(t@) == c[k]
    &&& res matches Ok(None) ==> !c.contains_key(k)
    &&& res matches Err(IndexerError::Corrupt) ==> c.contains_key(k) && !is_stored_tx(c[k])
    &&& forall|v: TxView| c.contains_key(k) && #[trigger] enc_tx(v) == c[k] ==> match res {
        Ok(found) => found matches Some(t) && t@ == v,
        Err(e) => e is Storage,
    }
}

/// A transaction read back under the hash it was stored under is the one
/// stored there last, unless sled fails.
pub proof fn lemma_retrieve_after_store(c: Map<Seq<u8>, Seq<u8>>, k: Seq<u8>, v: TxView, res: Result<Option<Transaction>, IndexerError>)
    requires
        reads_tx(c.insert(k, enc_tx(v)), k, res),
    ensures
        match res {
            Ok(found) => found matches Some(t) && t@ == v,
            Err(e) => e is Storage,
        },
{
    assert(c.insert(k, enc_tx(v)).contains_key(k));
}

/// The transactions of the indexer, by hash.
#[derive(Debug)]
pub struct Transactions {
    store: Table,
}

impl Transactions {
    /// The stored transactions' bytes, by the bytes of their hash.
    pub closed spec fn stored(&self) -> Map<Seq<u8>, Seq<u8>> {
        self.store.ord_contents()
    }

    /// Opens the transactions' tree.
    pub(crate) fn new(db: sled::Db) -> (res: Result<Transactions, IndexerError>)
        ensures
            res matches Err(e) ==> e is Storage,
    {
        let table = Table::new(db, "transactions", None)?;
        Ok(Transactions { store: table })
    }

    /// Stores the transaction `data` of hash `tx_hash`, sequenced at
    /// `block_height`, `tx_index`: its record (`tx_cow`) encoded
    /// (`encode_tx`) under the bytes of `tx_hash`.
    pub fn store(&mut self, block_height: BlockHeight, tx_index: usize, tx_hash: &String, data: &TransactionData) -> (res: Result<(), IndexerError>)
        ensures
            res is Ok ==> final(self).stored() == old(self).stored().insert(
                encode_utf8(tx_hash@),
                enc_tx(TxView { block_height: block_height.0, tx_index, tx_hash: tx_hash@, data: tx_data_view(*data) }),
            ),
            res matches Err(e) ==> e is Storage,
    {
        let record = tx_cow(block_height, tx_index, tx_hash, data);
        let value = encode_tx(&record);
        self.store.put(tx_hash.as_str().as_bytes(), None, value.as_slice())
    }

    /// The transaction stored under `key`, its hash.
    pub fn retrieve(&self, key: &str) -> (res: Result<Option<Transaction>, IndexerError>)
        ensures
            reads_tx(self.stored(), encode_utf8(key@), res),
    {
        let stored = self.store.ord_get(key.as_bytes())?;
        tx_from_store(stored)
    }
}

} // verus!

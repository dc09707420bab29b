//! Stored proofs, found by where they were sequenced or by their
//! transaction's hash.

use crate::indexer::keys::{proofs_key_bytes, ProofsKey};
use crate::indexer::model::{decode_proof, enc_proof, encode_proof, ref_view, refs_view, Proof, ProofView};
use crate::indexer::blobs::item_values;
use crate::indexer::table::{lemma_last_key_unique, is_last_key, lists_prefix, lists_range, values_of, IndexerError, Table};
use vstd::utf8::encode_utf8;
use crate::model::transaction::{BlobReference, ProofTransaction};
use crate::model::{copy_bytes, copy_string, BlobIndex, BlockHeight};
use vstd::prelude::*;

verus! {

/// Copies proven blobs, keeping what they are.
pub fn copy_refs(rs: &Vec<BlobReference>) -> (res: Vec<BlobReference>)
    ensures
        refs_view(res@) == refs_view(rs@),
{
    let mut out: Vec<BlobReference> = Vec::new();
    let mut i: usize = 0;
    while i < rs.len()
        invariant
            i <= rs.len(),
            out.len() == i,
            forall|j: int| 0 <= j < i ==> ref_view(#[trigger] out[j]) == ref_view(rs[j]),
        decreases rs.len() - i,
    {
        let r = &rs[i];
        out.push(BlobReference {
            contract_name: r.contract_name.copy(),
            blob_tx_hash: r.blob_tx_hash.copy(),
            blob_index: BlobIndex(r.blob_index.0),
        });
        i = i + 1;
    }
    assert(refs_view(out@) =~= refs_view(rs@));
    out
}

/// The record stored for a sequenced proof transaction.
pub fn proof_cow(block_height: BlockHeight, tx_index: usize, tx_hash: &String, proof: &ProofTransaction) -> (res: Proof)
    ensures
        res@ == (ProofView {
            blobs_references: refs_view(proof.blobs_references@),
            proof: proof.proof@,
            block_height: block_height.0,
            tx_index,
            tx_hash: tx_hash@,
        }),
{
    Proof {
        blobs_references: copy_refs(&proof.blobs_references),
        proof: copy_bytes(&proof.proof),
        block_height: BlockHeight(block_height.0),
        tx_index,
        tx_hash: copy_string(tx_hash),
    }
}

/// Whether `bytes` are the bytes of a stored proof.
pub open spec fn is_stored_proof(bytes: Seq<u8>) -> bool {
    exists|v: ProofView| #[trigger] enc_proof(v) == bytes
}

/// A stored value read back as a proof: nothing stays nothing, and bytes
/// that are no stored proof are an error.
pub fn proof_from_store(stored: Option<Vec<u8>>) -> (res: Result<Option<Proof>, IndexerError>)
    ensures
        stored is None ==> res matches Ok(None),
        stored matches Some(bytes) ==> match res {
            Ok(Some(p)) => enc_proof(p@) == bytes@,
            Err(IndexerError::Corrupt) => !is_stored_proof(bytes@),
            _ => false,
        },
        stored matches Some(bytes) ==> forall|v: ProofView| #[trigger] enc_proof(v) == bytes@ ==> (res matches Ok(Some(p)) && p@ == v),
{
    match stored {
        None => Ok(None),
        Some(bytes) => match decode_proof(bytes.as_slice()) {
            Some(p) => Ok(Some(p)),
            None => Err(IndexerError::Corrupt),
        },
    }
}

/// Stored values read back as proofs, in order; an error where one of
/// them is no stored proof.
pub fn proofs_from_store(stored: &Vec<Vec<u8>>) -> (res: Result<Vec<Proof>, IndexerError>)
    ensures
        match res {
            Ok(ps) => ps.len() == stored.len() && forall|i: int| 0 <= i < ps.len() ==> enc_proof(#[trigger] ps[i]@) == stored[i]@,
            Err(IndexerError::Corrupt) => exists|i: int| 0 <= i < stored.len() && !is_stored_proof(#[trigger] stored[i]@),
            _ => false,
        },
{
    let mut out: Vec<Proof> = Vec::new();
    let mut i: usize = 0;
    while i < stored.len()
        invariant
            i <= stored.len(),
            out.len() == i,
            forall|j: int| 0 <= j < i ==> enc_proof(#[trigger] out[j]@) == stored[j]@,
        decreases stored.len() - i,
    {
        match decode_proof(stored[i].as_slice()) {
            Some(p) => out.push(p),
            None => {
                assert(!is_stored_proof(stored[i as int]@));
                return Err(IndexerError::Corrupt);
            },
        }
        i = i + 1;
    }
    Ok(out)
}

/// What a read of the key `k` of `c`, the stored proofs, gives back: the
/// proof stored there, nothing where there is none, an error where the
/// bytes are no stored proof (or sled failed).
pub open spec fn reads_proof(c: Map<Seq<u8>, Seq<u8>>, k: Seq<u8>, res: Result<Option<Proof>, IndexerError>) -> bool {
    &&& res matches Ok(Some(p)) ==> c.contains_key(k) && enc_proof(p@) == c[k]
    &&& res matches Ok(None) ==> !c.contains_key(k)
    &&& res matches Err(IndexerError::Corrupt) ==> c.contains_key(k) && !is_stored_proof(c[k])
    &&& forall|v: ProofView| c.contains_key(k) && #[trigger] enc_proof(v) == c[k] ==> match res {
        Ok(found) => found matches Some(p) && p@ == v,
        Err(e) => e is Storage,
    }
}

/// A proof read back from where it was stored is the proof stored there,
/// unless sled fails.
pub proof fn lemma_get_after_put_proof(c: Map<Seq<u8>, Seq<u8>>, k: Seq<u8>, v: ProofView, res: Result<Option<Proof>, IndexerError>)
    requires
        reads_proof(c.insert(k, enc_proof(v)), k, res),
    ensures
        match res {
            Ok(found) => found matches Some(x) && x@ == v,
            Err(e) => e is Storage,
        },
{
    assert(c.insert(k, enc_proof(v)).contains_key(k));
}

/// A proof read back through the hash of its transaction, once stored
/// under its key and that key under the hash, is the proof stored, unless
/// sled fails: the hash index and the key agree.
pub proof fn lemma_get_with_hash_after_put(
    stored: Map<Seq<u8>, Seq<u8>>,
    by_hash: Map<Seq<u8>, Seq<u8>>,
    h: Seq<u8>,
    k: Seq<u8>,
    v: ProofView,
    res: Result<Option<Proof>, IndexerError>,
)
    requires
        reads_proof(stored.insert(k, enc_proof(v)), by_hash.insert(h, k)[h], res),
    ensures
        match res {
            Ok(found) => found matches Some(x) && x@ == v,
            Err(e) => e is Storage,
        },
{
    assert(by_hash.insert(h, k)[h] == k);
    lemma_get_after_put_proof(stored, k, v, res);
}

/// `ps` are the proofs stored as `vals`, in order.
pub open spec fn decodes_proofs(vals: Seq<Seq<u8>>, ps: Seq<Proof>) -> bool {
    ps.len() == vals.len() && forall|i: int| 0 <= i < ps.len() ==> enc_proof(#[trigger] ps[i]@) == vals[i]
}

/// The proofs of the indexer.
#[derive(Debug)]
pub struct Proofs {
    db: Table,
}

impl Proofs {
    /// The table has its second index.
    pub closed spec fn wf(&self) -> bool {
        self.db.has_alt()
    }

    /// The stored proofs' bytes, by key.
    pub closed spec fn stored(&self) -> Map<Seq<u8>, Seq<u8>> {
        self.db.ord_contents()
    }

    /// The proofs' keys, by the bytes of their transaction's hash.
    pub closed spec fn by_hash(&self) -> Map<Seq<u8>, Seq<u8>> {
        self.db.alt_contents()
    }

    /// Opens the proofs' trees, the second one indexing proofs by the hash
    /// of their transaction.
    pub(crate) fn new(db: sled::Db) -> (res: Result<Proofs, IndexerError>)
        ensures
            res matches Ok(t) ==> t.wf(),
            res matches Err(e) ==> e is Storage,
    {
        proof {
            reveal_strlit("proofs_ord");
            reveal_strlit("proofs_alt");
            assert("proofs_ord"@[7] != "proofs_alt"@[7]);
        }
        let table = Table::new(db, "proofs_ord", Some("proofs_alt"))?;
        Ok(Proofs { db: table })
    }

    /// Number of stored proofs, counted by a scan of the tree.
    pub fn len(&self) -> (res: Result<usize, IndexerError>)
        ensures
            res matches Ok(n) ==> self.stored().dom().finite() && n == self.stored().dom().len(),
            res matches Err(e) ==> e is Storage,
    {
        self.db.len()
    }

    /// Stores the proof transaction `data` of hash `tx_hash`, sequenced at
    /// `block_height`, `tx_index`: its record (`proof_cow`) encoded
    /// (`encode_proof`) under its key (`ProofsKey`), and that key under the
    /// bytes of `tx_hash`.
    pub fn put(&mut self, block_height: BlockHeight, tx_index: usize, tx_hash: &String, data: &ProofTransaction) -> (res: Result<(), IndexerError>)
        requires
            old(self).wf(),
        ensures
            final(self).wf(),
            res is Ok ==> final(self).stored() == old(self).stored().insert(
                proofs_key_bytes(block_height.0, tx_index),
                enc_proof(ProofView {
                    blobs_references: refs_view(data.blobs_references@),
                    proof: data.proof@,
                    block_height: block_height.0,
                    tx_index,
                    tx_hash: tx_hash@,
                }),
            ),
            res is Ok ==> final(self).by_hash() == old(self).by_hash().insert(
                encode_utf8(tx_hash@),
                proofs_key_bytes(block_height.0, tx_index),
            ),
            res matches Err(e) ==> e is Storage,
    {
        let record = proof_cow(block_height, tx_index, tx_hash, data);
        let key = ProofsKey(BlockHeight(block_height.0), tx_index).make_key();
        let value = encode_proof(&record);
        self.db.put(key.as_slice(), Some(tx_hash.as_str().as_bytes()), value.as_slice())
    }

    /// The proof sequenced at `block_height`, `tx_index`.
    pub fn get(&mut self, block_height: BlockHeight, tx_index: usize) -> (res: Result<Option<Proof>, IndexerError>)
        ensures
            *final(self) == *old(self),
            reads_proof(old(self).stored(), proofs_key_bytes(block_height.0, tx_index), res),
    {
        let key = ProofsKey(block_height, tx_index).make_key();
        let stored = self.db.ord_get(key.as_slice())?;
        proof_from_store(stored)
    }

    /// The proof of the transaction of hash `tx_hash`: the one stored under
    /// the key that the hash index holds for it.
    pub fn get_with_hash(&mut self, tx_hash: &str) -> (res: Result<Option<Proof>, IndexerError>)
        requires
            old(self).wf(),
        ensures
            *final(self) == *old(self),
            !old(self).by_hash().contains_key(encode_utf8(tx_hash@)) ==> (res matches Ok(None) || res matches Err(IndexerError::Storage(_))),
            old(self).by_hash().contains_key(encode_utf8(tx_hash@))
                ==> reads_proof(old(self).stored(), old(self).by_hash()[encode_utf8(tx_hash@)], res),
    {
        match self.db.alt_get(tx_hash.as_bytes()) {
            None => Ok(None),
            Some(found) => proof_from_store(found?),
        }
    }

    /// The proof with the greatest key, or nothing when there is none.
    pub fn last(&self) -> (res: Result<Option<Proof>, IndexerError>)
        ensures
            res matches Ok(None) ==> self.stored().dom() == Set::<Seq<u8>>::empty(),
            res matches Ok(Some(p)) ==> exists|k: Seq<u8>| #[trigger] is_last_key(self.stored(), k) && enc_proof(p@) == self.stored()[k],
            res matches Err(IndexerError::Corrupt) ==> exists|k: Seq<u8>|
                #[trigger] is_last_key(self.stored(), k) && !is_stored_proof(self.stored()[k]),
            forall|k: Seq<u8>, v: ProofView| #[trigger] is_last_key(self.stored(), k) && #[trigger] enc_proof(v) == self.stored()[k] ==> match res {
                Ok(found) => found matches Some(p) && p@ == v,
                Err(e) => e is Storage,
            },
    {
        let found = self.db.ord_last()?;
        let ghost mut last: Option<Seq<u8>> = None;
        let stored = match found {
            Some(p) => {
                proof {
                    last = Some(p.0@);
                }
                Some(p.1)
            },
            None => None,
        };
        let r = proof_from_store(stored);
        proof {
            if last is Some {
                let lk = last->0;
                assert(is_last_key(self.stored(), lk));
                assert forall|k: Seq<u8>, v: ProofView| #[trigger] is_last_key(self.stored(), k) && #[trigger] enc_proof(v) == self.stored()[k] implies match r {
                    Ok(f) => f matches Some(x) && x@ == v,
                    Err(e) => e is Storage,
                } by {
                    lemma_last_key_unique(self.stored(), k, lk);
                }
            } else {
                assert forall|k: Seq<u8>| #[trigger] is_last_key(self.stored(), k) implies false by {
                    assert(self.stored().dom().contains(k));
                }
            }
        }
        r
    }

    /// The proofs whose keys fall within those of `min` (included) and
    /// `max` (excluded), in key order.
    pub fn range(&mut self, min: ProofsKey, max: ProofsKey) -> (res: Result<Vec<Proof>, IndexerError>)
        ensures
            *final(self) == *old(self),
            res matches Ok(ps) ==> exists|items: Seq<(Vec<u8>, Vec<u8>)>|
                #[trigger] lists_range(old(self).stored(), items, proofs_key_bytes(min.0.0, min.1), proofs_key_bytes(max.0.0, max.1))
                && decodes_proofs(item_values(items), ps@),
            res matches Err(IndexerError::Corrupt) ==> exists|items: Seq<(Vec<u8>, Vec<u8>)>|
                #[trigger] lists_range(old(self).stored(), items, proofs_key_bytes(min.0.0, min.1), proofs_key_bytes(max.0.0, max.1))
                && exists|i: int| 0 <= i < items.len() && !is_stored_proof(#[trigger] items[i].1@),
    {
        let lo = min.make_key();
        let hi = max.make_key();
        let pairs = self.db.ord_range(lo.as_slice(), hi.as_slice())?;
        let values = values_of(&pairs);
        let r = proofs_from_store(&values);
        proof {
            assert(lists_range(self.stored(), pairs@, lo@, hi@));
            if r is Ok {
                let xs = r->Ok_0;
                assert forall|i: int| 0 <= i < xs.len() implies enc_proof(#[trigger] xs[i]@) == item_values(pairs@)[i] by {
                    assert(values[i]@ == pairs@[i].1@);
                }
                assert(decodes_proofs(item_values(pairs@), xs@));
            }
            if r is Err {
                let i = choose|i: int| 0 <= i < values.len() && !is_stored_proof(#[trigger] values[i]@);
                assert(!is_stored_proof(pairs@[i].1@));
                assert(exists|j: int| 0 <= j < pairs@.len() && !is_stored_proof(#[trigger] pairs@[j].1@));
            }
        }
        r
    }

    /// The proofs whose keys start with that of `prefix`, in key order.
    pub fn scan_prefix(&mut self, prefix: ProofsKey) -> (res: Result<Vec<Proof>, IndexerError>)
        ensures
            *final(self) == *old(self),
            res matches Ok(ps) ==> exists|items: Seq<(Vec<u8>, Vec<u8>)>|
                #[trigger] lists_prefix(old(self).stored(), items, proofs_key_bytes(prefix.0.0, prefix.1))
                && decodes_proofs(item_values(items), ps@),
            res matches Err(IndexerError::Corrupt) ==> exists|items: Seq<(Vec<u8>, Vec<u8>)>|
                #[trigger] lists_prefix(old(self).stored(), items, proofs_key_bytes(prefix.0.0, prefix.1))
                && exists|i: int| 0 <= i < items.len() && !is_stored_proof(#[trigger] items[i].1@),
    {
        let key = prefix.make_key();
        let pairs = self.db.ord_scan_prefix(key.as_slice())?;
        let values = values_of(&pairs);
        let r = proofs_from_store(&values);
        proof {
            assert(lists_prefix(self.stored(), pairs@, key@));
            if r is Ok {
                let xs = r->Ok_0;
                assert forall|i: int| 0 <= i < xs.len() implies enc_proof(#[trigger] xs[i]@) == item_values(pairs@)[i] by {
                    assert(values[i]@ == pairs@[i].1@);
                }
                assert(decodes_proofs(item_values(pairs@), xs@));
            }
            if r is Err {
                let i = choose|i: int| 0 <= i < values.len() && !is_stored_proof(#[trigger] values[i]@);
                assert(!is_stored_proof(pairs@[i].1@));
                assert(exists|j: int| 0 <= j < pairs@.len() && !is_stored_proof(#[trigger] pairs@[j].1@));
            }
        }
        r
    }
}

} // verus!

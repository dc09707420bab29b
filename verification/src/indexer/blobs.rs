//! Stored blobs, found by where they were sequenced or by their contract.

use crate::indexer::keys::{blobs_key_alt_bytes, blobs_key_bytes, lemma_blobs_key_order, BlobsKey, BlobsKeyAlt};
use crate::indexer::model::{decode_blob, enc_blob, encode_blob, Blob, BlobView};
use crate::indexer::codec::{enc_bytes, enc_str, enc_u64, lemma_enc_bytes_split, lemma_enc_str_split, lemma_enc_u64_split};
use crate::indexer::table::{bytes_lt, in_range, lemma_bytes_lt_asym, lemma_last_key_unique, byte_views, is_last_key, lists_prefix, lists_range, read_through, values_of, IndexerError, Table};
use crate::model::transaction::Blob as NodeBlob;
use crate::model::{copy_bytes, copy_string, BlockHeight, Identity};
use vstd::bytes::lemma_auto_spec_u64_to_from_le_bytes;
use vstd::prelude::*;
use vstd::utf8::encode_utf8;

verus! {

/// The record stored for a blob of a sequenced transaction.
pub fn blob_cow(
    block_height: BlockHeight,
    tx_index: usize,
    blob_index: usize,
    tx_hash: &String,
    tx_identity: &Identity,
    blob: &NodeBlob,
) -> (res: Blob)
    ensures
        res@ == (BlobView {
            identity: tx_identity@,
            contract_name: blob.contract_name@,
            data: blob.data.0@,
            block_height: block_height.0,
            tx_index,
            blob_index,
            tx_hash: tx_hash@,
        }),
{
    Blob {
        identity: tx_identity.copy(),
        contract_name: blob.contract_name.copy(),
        data: crate::model::transaction::BlobData(copy_bytes(&blob.data.0)),
        block_height: BlockHeight(block_height.0),
        tx_index,
        blob_index,
        tx_hash: copy_string(tx_hash),
    }
}

/// Whether `bytes` are the bytes of a stored blob.
pub open spec fn is_stored_blob(bytes: Seq<u8>) -> bool {
    exists|v: BlobView| #[trigger] enc_blob(v) == bytes
}

/// A stored value read back as a blob: nothing stays nothing, and bytes
/// that are no stored blob are an error.
pub fn blob_from_store(stored: Option<Vec<u8>>) -> (res: Result<Option<Blob>, IndexerError>)
    ensures
        stored is None ==> res matches Ok(None),
        stored matches Some(bytes) ==> match res {
            Ok(Some(b)) => enc_blob(b@) == bytes@,
            Err(IndexerError::Corrupt) => !is_stored_blob(bytes@),
            _ => false,
        },
        stored matches Some(bytes) ==> forall|v: BlobView| #[trigger] enc_blob(v) == bytes@ ==> (res matches Ok(Some(b)) && b@ == v),
{
    match stored {
        None => Ok(None),
        Some(bytes) => match decode_blob(bytes.as_slice()) {
            Some(b) => Ok(Some(b)),
            None => Err(IndexerError::Corrupt),
        },
    }
}

/// Stored values read back as blobs, in order; an error where one of them
/// is no stored blob.
pub fn blobs_from_store(stored: &Vec<Vec<u8>>) -> (res: Result<Vec<Blob>, IndexerError>)
    ensures
        match res {
            Ok(bs) => bs.len() == stored.len() && forall|i: int| 0 <= i < bs.len() ==> enc_blob(#[trigger] bs[i]@) == stored[i]@,
            Err(IndexerError::Corrupt) => exists|i: int| 0 <= i < stored.len() && !is_stored_blob(#[trigger] stored[i]@),
            _ => false,
        },
{
    let mut out: Vec<Blob> = Vec::new();
    let mut i: usize = 0;
    while i < stored.len()
        invariant
            i <= stored.len(),
            out.len() == i,
            forall|j: int| 0 <= j < i ==> enc_blob(#[trigger] out[j]@) == stored[j]@,
        decreases stored.len() - i,
    {
        match decode_blob(stored[i].as_slice()) {
            Some(b) => out.push(b),
            None => {
                assert(!is_stored_blob(stored[i as int]@));
                return Err(IndexerError::Corrupt);
            },
        }
        i = i + 1;
    }
    Ok(out)
}

/// What a read of the key `k` of `c`, the stored blobs, gives back: the
/// blob stored there, nothing where there is none, an error where the bytes
/// are no stored blob (or sled failed).
pub open spec fn reads_blob(c: Map<Seq<u8>, Seq<u8>>, k: Seq<u8>, res: Result<Option<Blob>, IndexerError>) -> bool {
    &&& res matches Ok(Some(b)) ==> c.contains_key(k) && enc_blob(b@) == c[k]
    &&& res matches Ok(None) ==> !c.contains_key(k)
    &&& res matches Err(IndexerError::Corrupt) ==> c.contains_key(k) && !is_stored_blob(c[k])
    &&& forall|v: BlobView| c.contains_key(k) && #[trigger] enc_blob(v) == c[k] ==> match res {
        Ok(found) => found matches Some(b) && b@ == v,
        Err(e) => e is Storage,
    }
}

/// A blob read back from where it was stored is the blob stored there,
/// unless sled fails.
pub proof fn lemma_get_after_put_blob(c: Map<Seq<u8>, Seq<u8>>, k: Seq<u8>, v: BlobView, res: Result<Option<Blob>, IndexerError>)
    requires
        reads_blob(c.insert(k, enc_blob(v)), k, res),
    ensures
        match res {
            Ok(found) => found matches Some(x) && x@ == v,
            Err(e) => e is Storage,
        },
{
    assert(c.insert(k, enc_blob(v)).contains_key(k));
}

/// The position of a blob, in chain order: height, transaction index,
/// blob index.
pub open spec fn position_lt(a: BlobView, b: BlobView) -> bool {
    a.block_height < b.block_height || (a.block_height == b.block_height && a.tx_index < b.tx_index)
        || (a.block_height == b.block_height && a.tx_index == b.tx_index && a.blob_index < b.blob_index)
}

/// The numbers of a position fit eight hex digits.
pub open spec fn position_small(v: BlobView) -> bool {
    v.block_height < 0x1_0000_0000 && v.tx_index < 0x1_0000_0000 && v.blob_index < 0x1_0000_0000
}

/// The texts and the data of a blob fit the length prefixes of its bytes.
pub open spec fn blob_fits(v: BlobView) -> bool {
    &&& encode_utf8(v.identity).len() <= u64::MAX
    &&& encode_utf8(v.contract_name).len() <= u64::MAX
    &&& v.data.len() <= u64::MAX
    &&& encode_utf8(v.tx_hash).len() <= u64::MAX
}

/// Two blobs that fit their length prefixes have the same bytes only when
/// they are the same blob.
pub proof fn lemma_enc_blob_injective(a: BlobView, b: BlobView)
    requires
        blob_fits(a),
        blob_fits(b),
        enc_blob(a) == enc_blob(b),
    ensures
        a == b,
{
    lemma_auto_spec_u64_to_from_le_bytes();
    let ta5 = enc_str(a.tx_hash);
    let tb5 = enc_str(b.tx_hash);
    let ta4 = enc_u64(a.blob_index as u64) + ta5;
    let tb4 = enc_u64(b.blob_index as u64) + tb5;
    let ta3 = enc_u64(a.tx_index as u64) + ta4;
    let tb3 = enc_u64(b.tx_index as u64) + tb4;
    let ta2 = enc_u64(a.block_height) + ta3;
    let tb2 = enc_u64(b.block_height) + tb3;
    let ta1 = enc_bytes(a.data) + ta2;
    let tb1 = enc_bytes(b.data) + tb2;
    let ta0 = enc_str(a.contract_name) + ta1;
    let tb0 = enc_str(b.contract_name) + tb1;
    assert(enc_blob(a) =~= enc_str(a.identity) + ta0);
    assert(enc_blob(b) =~= enc_str(b.identity) + tb0);
    lemma_enc_str_split(a.identity, ta0, b.identity, tb0);
    lemma_enc_str_split(a.contract_name, ta1, b.contract_name, tb1);
    lemma_enc_bytes_split(a.data, ta2, b.data, tb2);
    lemma_enc_u64_split(a.block_height, ta3, b.block_height, tb3);
    lemma_enc_u64_split(a.tx_index as u64, ta4, b.tx_index as u64, tb4);
    lemma_enc_u64_split(a.blob_index as u64, ta5, b.blob_index as u64, tb5);
    assert(ta5 =~= enc_str(a.tx_hash) + Seq::<u8>::empty());
    assert(tb5 =~= enc_str(b.tx_hash) + Seq::<u8>::empty());
    lemma_enc_str_split(a.tx_hash, Seq::<u8>::empty(), b.tx_hash, Seq::<u8>::empty());
}

/// Each stored blob that fits sits under the key of its position, and its
/// position fits eight hex digits.
pub open spec fn blobs_placed(c: Map<Seq<u8>, Seq<u8>>) -> bool {
    forall|k: Seq<u8>, v: BlobView| #[trigger] c.contains_key(k) && #[trigger] enc_blob(v) == c[k] && blob_fits(v)
        ==> k == blobs_key_bytes(v.block_height, v.tx_index, v.blob_index) && position_small(v)
}

/// Storing, as `put` does, a blob that fits at a position that fits keeps
/// each blob under the key of its position.
pub proof fn lemma_put_keeps_blobs_placed(c: Map<Seq<u8>, Seq<u8>>, v: BlobView)
    requires
        blobs_placed(c),
        blob_fits(v),
        position_small(v),
    ensures
        blobs_placed(c.insert(blobs_key_bytes(v.block_height, v.tx_index, v.blob_index), enc_blob(v))),
{
    let k0 = blobs_key_bytes(v.block_height, v.tx_index, v.blob_index);
    let c2 = c.insert(k0, enc_blob(v));
    assert forall|k: Seq<u8>, w: BlobView| #[trigger] c2.contains_key(k) && #[trigger] enc_blob(w) == c2[k] && blob_fits(w)
        implies k == blobs_key_bytes(w.block_height, w.tx_index, w.blob_index) && position_small(w) by {
        if k == k0 {
            lemma_enc_blob_injective(v, w);
        } else {
            assert(c.contains_key(k));
        }
    }
}

/// Where each blob sits under the key of its position, the blob under the
/// greatest key is at the latest position.
pub proof fn lemma_last_key_is_latest(c: Map<Seq<u8>, Seq<u8>>, k: Seq<u8>, v: BlobView)
    requires
        blobs_placed(c),
        is_last_key(c, k),
        enc_blob(v) == c[k],
        blob_fits(v),
    ensures
        forall|k2: Seq<u8>, v2: BlobView| #[trigger] c.contains_key(k2) && #[trigger] enc_blob(v2) == c[k2] && blob_fits(v2)
            ==> !position_lt(v, v2),
{
    assert(c.contains_key(k));
    assert forall|k2: Seq<u8>, v2: BlobView| #[trigger] c.contains_key(k2) && #[trigger] enc_blob(v2) == c[k2] && blob_fits(v2)
        implies !position_lt(v, v2) by {
        if position_lt(v, v2) {
            lemma_blobs_key_order(v.block_height, v.tx_index, v.blob_index, v2.block_height, v2.tx_index, v2.blob_index);
        }
    }
}

/// Where each blob sits under the key of its position, the blobs that a
/// range of keys lists, read back, come in increasing position, lie within
/// the positions of the range's bounds (the upper one excluded), and are
/// every stored blob that does.
pub proof fn lemma_range_in_position_order(
    c: Map<Seq<u8>, Seq<u8>>,
    items: Seq<(Vec<u8>, Vec<u8>)>,
    bs: Seq<Blob>,
    lo: BlobView,
    hi: BlobView,
)
    requires
        blobs_placed(c),
        position_small(lo),
        position_small(hi),
        lists_range(c, items, blobs_key_bytes(lo.block_height, lo.tx_index, lo.blob_index), blobs_key_bytes(hi.block_height, hi.tx_index, hi.blob_index)),
        decodes_blobs(item_values(items), bs),
        forall|i: int| 0 <= i < bs.len() ==> blob_fits(#[trigger] bs[i]@),
    ensures
        forall|i: int, j: int| 0 <= i < j < bs.len() ==> position_lt(#[trigger] bs[i]@, #[trigger] bs[j]@),
        forall|i: int| 0 <= i < bs.len() ==> !position_lt(#[trigger] bs[i]@, lo) && position_lt(bs[i]@, hi),
        forall|k: Seq<u8>, v: BlobView| #[trigger] c.contains_key(k) && #[trigger] enc_blob(v) == c[k] && blob_fits(v)
            && !position_lt(v, lo) && position_lt(v, hi) ==> exists|i: int| 0 <= i < bs.len() && bs[i]@ == v,
{
    let klo = blobs_key_bytes(lo.block_height, lo.tx_index, lo.blob_index);
    let khi = blobs_key_bytes(hi.block_height, hi.tx_index, hi.blob_index);
    assert forall|i: int| 0 <= i < bs.len() implies items[i].0@ == blobs_key_bytes(bs[i]@.block_height, bs[i]@.tx_index, bs[i]@.blob_index)
        && position_small(bs[i]@) && in_range(items[i].0@, klo, khi) by {
        assert(item_values(items)[i] == items[i].1@);
        assert(c.contains_key(items[i].0@));
        assert(enc_blob(bs[i]@) == c[items[i].0@]);
        assert(in_range(items[i].0@, klo, khi));
    }
    assert forall|i: int, j: int| 0 <= i < j < bs.len() implies position_lt(#[trigger] bs[i]@, #[trigger] bs[j]@) by {
        assert(bytes_lt(items[i].0@, items[j].0@));
        lemma_key_order_back(bs[i]@, bs[j]@);
    }
    assert forall|i: int| 0 <= i < bs.len() implies !position_lt(#[trigger] bs[i]@, lo) && position_lt(bs[i]@, hi) by {
        assert(in_range(items[i].0@, klo, khi));
        lemma_key_order_back(bs[i]@, hi);
        if position_lt(bs[i]@, lo) {
            lemma_blobs_key_order(bs[i]@.block_height, bs[i]@.tx_index, bs[i]@.blob_index, lo.block_height, lo.tx_index, lo.blob_index);
        }
    }
    assert forall|k: Seq<u8>, v: BlobView| #[trigger] c.contains_key(k) && #[trigger] enc_blob(v) == c[k] && blob_fits(v)
        && !position_lt(v, lo) && position_lt(v, hi) implies exists|i: int| 0 <= i < bs.len() && bs[i]@ == v by {
        assert(k == blobs_key_bytes(v.block_height, v.tx_index, v.blob_index));
        lemma_blobs_key_order(v.block_height, v.tx_index, v.blob_index, hi.block_height, hi.tx_index, hi.blob_index);
        if bytes_lt(k, klo) {
            lemma_key_order_back(v, lo);
        }
        assert(in_range(k, klo, khi));
        assert((|x: Seq<u8>| in_range(x, klo, khi))(k));
        let i = choose|i: int| 0 <= i < items.len() && items[i].0@ == k;
        assert(item_values(items)[i] == items[i].1@);
        assert(enc_blob(bs[i]@) == c[k]);
        lemma_enc_blob_injective(bs[i]@, v);
    }
}

/// For positions that fit eight hex digits, a key before another is at an
/// earlier position.
pub proof fn lemma_key_order_back(a: BlobView, b: BlobView)
    requires
        position_small(a),
        position_small(b),
        bytes_lt(
            blobs_key_bytes(a.block_height, a.tx_index, a.blob_index),
            blobs_key_bytes(b.block_height, b.tx_index, b.blob_index),
        ),
    ensures
        position_lt(a, b),
{
    let ka = blobs_key_bytes(a.block_height, a.tx_index, a.blob_index);
    let kb = blobs_key_bytes(b.block_height, b.tx_index, b.blob_index);
    lemma_bytes_lt_asym(ka, kb);
    if position_lt(b, a) {
        lemma_blobs_key_order(b.block_height, b.tx_index, b.blob_index, a.block_height, a.tx_index, a.blob_index);
    }
}

/// `bs` are the blobs stored as `vals`, in order.
pub open spec fn decodes_blobs(vals: Seq<Seq<u8>>, bs: Seq<Blob>) -> bool {
    bs.len() == vals.len() && forall|i: int| 0 <= i < bs.len() ==> enc_blob(#[trigger] bs[i]@) == vals[i]
}

/// The bytes of the values of key and value pairs, in order.
pub open spec fn item_values(items: Seq<(Vec<u8>, Vec<u8>)>) -> Seq<Seq<u8>> {
    items.map_values(|p: (Vec<u8>, Vec<u8>)| p.1@)
}

/// The blobs of the indexer.
#[derive(Debug)]
pub struct Blobs {
    db: Table,
}

impl Blobs {
    /// The table has its second index.
    pub closed spec fn wf(&self) -> bool {
        self.db.has_alt()
    }

    /// The stored blobs' bytes, by key.
    pub closed spec fn stored(&self) -> Map<Seq<u8>, Seq<u8>> {
        self.db.ord_contents()
    }

    /// The blobs' keys, by second key.
    pub closed spec fn by_contract(&self) -> Map<Seq<u8>, Seq<u8>> {
        self.db.alt_contents()
    }

    /// Opens the blobs' trees, the second one indexing blobs by contract.
    pub(crate) fn new(db: sled::Db) -> (res: Result<Blobs, IndexerError>)
        ensures
            res matches Ok(t) ==> t.wf(),
            res matches Err(e) ==> e is Storage,
    {
        proof {
            reveal_strlit("blobs_ord");
            reveal_strlit("blobs_alt");
            assert("blobs_ord"@[6] != "blobs_alt"@[6]);
        }
        let table = Table::new(db, "blobs_ord", Some("blobs_alt"))?;
        Ok(Blobs { db: table })
    }

    /// Number of stored blobs, counted by a scan of the tree.
    pub fn len(&self) -> (res: Result<usize, IndexerError>)
        ensures
            res matches Ok(n) ==> self.stored().dom().finite() && n == self.stored().dom().len(),
            res matches Err(e) ==> e is Storage,
    {
        self.db.len()
    }

    /// Stores the blob `data` of the transaction `tx_hash` of `tx_identity`,
    /// sequenced at `block_height`, `tx_index`, `blob_index`: its record
    /// (`blob_cow`) encoded (`encode_blob`) under its key (`BlobsKey`), and
    /// that key under its second key (`BlobsKeyAlt`).
    pub fn put(
        &mut self,
        block_height: BlockHeight,
        tx_index: usize,
        blob_index: usize,
        tx_hash: &String,
        tx_identity: &Identity,
        data: &NodeBlob,
    ) -> (res: Result<(), IndexerError>)
        requires
            old(self).wf(),
        ensures
            final(self).wf(),
            res is Ok ==> final(self).stored() == old(self).stored().insert(
                blobs_key_bytes(block_height.0, tx_index, blob_index),
                enc_blob(BlobView {
                    identity: tx_identity@,
                    contract_name: data.contract_name@,
                    data: data.data.0@,
                    block_height: block_height.0,
                    tx_index,
                    blob_index,
                    tx_hash: tx_hash@,
                }),
            ),
            res is Ok ==> final(self).by_contract() == old(self).by_contract().insert(
                blobs_key_alt_bytes(data.contract_name@, tx_hash@, blob_index),
                blobs_key_bytes(block_height.0, tx_index, blob_index),
            ),
            res matches Err(e) ==> e is Storage,
    {
        let record = blob_cow(block_height, tx_index, blob_index, tx_hash, tx_identity, data);
        let key = BlobsKey(BlockHeight(block_height.0), tx_index, blob_index).make_key();
        let alt = BlobsKeyAlt(record.contract_name.0.as_str(), tx_hash.as_str(), blob_index).make_key();
        let value = encode_blob(&record);
        self.db.put(key.as_slice(), Some(alt.as_slice()), value.as_slice())
    }

    /// The blob sequenced at `block_height`, `tx_index`, `blob_index`.
    pub fn get(&mut self, block_height: BlockHeight, tx_index: usize, blob_index: usize) -> (res: Result<Option<Blob>, IndexerError>)
        ensures
            *final(self) == *old(self),
            reads_blob(old(self).stored(), blobs_key_bytes(block_height.0, tx_index, blob_index), res),
    {
        let key = BlobsKey(block_height, tx_index, blob_index).make_key();
        let stored = self.db.ord_get(key.as_slice())?;
        blob_from_store(stored)
    }

    /// The blobs whose second key starts with `contract_name`, in the order
    /// of those keys. Always `Some`: blobs have a second index.
    pub fn get_by_contract_name(&mut self, contract_name: &str) -> (res: Option<Result<Vec<Blob>, IndexerError>>)
        requires
            old(self).wf(),
        ensures
            res is Some,
            *final(self) == *old(self),
            res matches Some(Ok(bs)) ==> exists|items: Seq<(Vec<u8>, Vec<u8>)>|
                #[trigger] lists_prefix(old(self).by_contract(), items, vstd::utf8::encode_utf8(contract_name@))
                && decodes_blobs(read_through(old(self).stored(), items), bs@),
            res matches Some(Err(IndexerError::Corrupt)) ==> exists|items: Seq<(Vec<u8>, Vec<u8>)>|
                #[trigger] lists_prefix(old(self).by_contract(), items, vstd::utf8::encode_utf8(contract_name@))
                && exists|i: int| 0 <= i < read_through(old(self).stored(), items).len()
                    && !is_stored_blob(#[trigger] read_through(old(self).stored(), items)[i]),
    {
        let prefix = contract_name.as_bytes();
        match self.db.alt_scan_prefix(prefix) {
            None => None,
            Some(Err(e)) => Some(Err(e)),
            Some(Ok(values)) => {
                let r = blobs_from_store(&values);
                proof {
                    let items = choose|items: Seq<(Vec<u8>, Vec<u8>)>|
                        #[trigger] lists_prefix(self.by_contract(), items, prefix@)
                        && byte_views(values@) == read_through(self.stored(), items);
                    let through = read_through(self.stored(), items);
                    assert(through.len() == values.len());
                    if r is Ok {
                        let xs = r->Ok_0;
                        assert forall|i: int| 0 <= i < xs.len() implies enc_blob(#[trigger] xs[i]@) == through[i] by {
                            assert(byte_views(values@)[i] == values[i]@);
                        }
                        assert(decodes_blobs(through, xs@));
                    }
                    if r is Err {
                        let i = choose|i: int| 0 <= i < values.len() && !is_stored_blob(#[trigger] values[i]@);
                        assert(byte_views(values@)[i] == values[i]@);
                        assert(!is_stored_blob(through[i]));
                    }
                }
                Some(r)
            },
        }
    }

    /// The blob with the greatest key, or nothing when there is none.
    pub fn last(&self) -> (res: Result<Option<Blob>, IndexerError>)
        ensures
            res matches Ok(None) ==> self.stored().dom() == Set::<Seq<u8>>::empty(),
            res matches Ok(Some(b)) ==> exists|k: Seq<u8>| #[trigger] is_last_key(self.stored(), k) && enc_blob(b@) == self.stored()[k],
            res matches Err(IndexerError::Corrupt) ==> exists|k: Seq<u8>|
                #[trigger] is_last_key(self.stored(), k) && !is_stored_blob(self.stored()[k]),
            forall|k: Seq<u8>, v: BlobView| #[trigger] is_last_key(self.stored(), k) && #[trigger] enc_blob(v) == self.stored()[k] ==> match res {
                Ok(found) => found matches Some(b) && b@ == v,
                Err(e) => e is Storage,
            },
    {
        let found = self.db.ord_last()?;
        let ghost mut last: Option<Seq<u8>> = None;
        let stored = match found {
            Some(p) => {
                proof {
                    last = Some(p.0@);
                }
                Some(p.1)
            },
            None => None,
        };
        let r = blob_from_store(stored);
        proof {
            if last is Some {
                let lk = last->0;
                assert(is_last_key(self.stored(), lk));
                assert forall|k: Seq<u8>, v: BlobView| #[trigger] is_last_key(self.stored(), k) && #[trigger] enc_blob(v) == self.stored()[k] implies match r {
                    Ok(f) => f matches Some(x) && x@ == v,
                    Err(e) => e is Storage,
                } by {
                    lemma_last_key_unique(self.stored(), k, lk);
                }
            } else {
                assert forall|k: Seq<u8>| #[trigger] is_last_key(self.stored(), k) implies false by {
                    assert(self.stored().dom().contains(k));
                }
            }
        }
        r
    }

    /// The blobs whose keys fall within those of `min` (included) and `max`
    /// (excluded), in key order.
    pub fn range(&mut self, min: BlobsKey, max: BlobsKey) -> (res: Result<Vec<Blob>, IndexerError>)
        ensures
            *final(self) == *old(self),
            res matches Ok(bs) ==> exists|items: Seq<(Vec<u8>, Vec<u8>)>|
                #[trigger] lists_range(old(self).stored(), items, blobs_key_bytes(min.0.0, min.1, min.2), blobs_key_bytes(max.0.0, max.1, max.2))
                && decodes_blobs(item_values(items), bs@),
            res matches Err(IndexerError::Corrupt) ==> exists|items: Seq<(Vec<u8>, Vec<u8>)>|
                #[trigger] lists_range(old(self).stored(), items, blobs_key_bytes(min.0.0, min.1, min.2), blobs_key_bytes(max.0.0, max.1, max.2))
                && exists|i: int| 0 <= i < items.len() && !is_stored_blob(#[trigger] items[i].1@),
    {
        let lo = min.make_key();
        let hi = max.make_key();
        let pairs = self.db.ord_range(lo.as_slice(), hi.as_slice())?;
        let values = values_of(&pairs);
        let r = blobs_from_store(&values);
        proof {
            assert(lists_range(self.stored(), pairs@, lo@, hi@));
            if r is Ok {
                let xs = r->Ok_0;
                assert forall|i: int| 0 <= i < xs.len() implies enc_blob(#[trigger] xs[i]@) == item_values(pairs@)[i] by {
                    assert(values[i]@ == pairs@[i].1@);
                }
                assert(decodes_blobs(item_values(pairs@), xs@));
            }
            if r is Err {
                let i = choose|i: int| 0 <= i < values.len() && !is_stored_blob(#[trigger] values[i]@);
                assert(!is_stored_blob(pairs@[i].1@));
                assert(exists|j: int| 0 <= j < pairs@.len() && !is_stored_blob(#[trigger] pairs@[j].1@));
            }
        }
        r
    }

    /// The blobs whose keys start with that of `prefix`, in key order.
    pub fn scan_prefix(&mut self, prefix: BlobsKey) -> (res: Result<Vec<Blob>, IndexerError>)
        ensures
            *final(self) == *old(self),
            res matches Ok(bs) ==> exists|items: Seq<(Vec<u8>, Vec<u8>)>|
                #[trigger] lists_prefix(old(self).stored(), items, blobs_key_bytes(prefix.0.0, prefix.1, prefix.2))
                && decodes_blobs(item_values(items), bs@),
            res matches Err(IndexerError::Corrupt) ==> exists|items: Seq<(Vec<u8>, Vec<u8>)>|
                #[trigger] lists_prefix(old(self).stored(), items, blobs_key_bytes(prefix.0.0, prefix.1, prefix.2))
                && exists|i: int| 0 <= i < items.len() && !is_stored_blob(#[trigger] items[i].1@),
    {
        let key = prefix.make_key();
        let pairs = self.db.ord_scan_prefix(key.as_slice())?;
        let values = values_of(&pairs);
        let r = blobs_from_store(&values);
        proof {
            assert(lists_prefix(self.stored(), pairs@, key@));
            if r is Ok {
                let xs = r->Ok_0;
                assert forall|i: int| 0 <= i < xs.len() implies enc_blob(#[trigger] xs[i]@) == item_values(pairs@)[i] by {
                    assert(values[i]@ == pairs@[i].1@);
                }
                assert(decodes_blobs(item_values(pairs@), xs@));
            }
            if r is Err {
                let i = choose|i: int| 0 <= i < values.len() && !is_stored_blob(#[trigger] values[i]@);
                assert(!is_stored_blob(pairs@[i].1@));
                assert(exists|j: int| 0 <= j < pairs@.len() && !is_stored_blob(#[trigger] pairs@[j].1@));
            }
        }
        r
    }
}

} // verus!

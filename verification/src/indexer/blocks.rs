//! Stored blocks, by height, with the last one kept at hand.
//!
//! A block is stored as its height followed by the bytes its caller encodes
//! it to; the key of a block is its height written in decimal, so the
//! "last" block is the one under the greatest such key.

use crate::indexer::codec::{enc_u64, get_u64, lemma_enc_u64_split, put_u64};
use crate::indexer::db::{dec_digits, u64_to_str};
use crate::indexer::table::{bytes_lt, is_last_key, lemma_bytes_lt_asym, IndexerError, Table};
use crate::model::BlockHeight;
use vstd::bytes::lemma_auto_spec_u64_to_from_le_bytes;
use vstd::pervasive::unreached;
use vstd::prelude::*;
use vstd::slice::{slice_subrange, slice_to_vec};
use vstd::utf8::encode_utf8;

verus! {

/// The key of the block at height `h`.
pub open spec fn block_key(h: u64) -> Seq<u8> {
    encode_utf8(dec_digits(h as nat))
}

/// The bytes stored for the block of height `h` encoded as `b`.
pub open spec fn enc_block(h: u64, b: Seq<u8>) -> Seq<u8> {
    enc_u64(h) + b
}

/// A block: its height and the bytes its caller encodes it to.
#[derive(Debug)]
pub struct StoredBlock {
    pub height: BlockHeight,
    pub bytes: Vec<u8>,
}

/// A stored value read back as a block; bytes too short to hold a height
/// are an error.
fn block_from_store(v: &Vec<u8>) -> (res: Result<StoredBlock, IndexerError>)
    ensures
        res matches Ok(b) ==> v@ == enc_block(b.height.0, b.bytes@),
        res matches Err(e) ==> e is Corrupt && v@.len() < 8,
        forall|h: u64, b: Seq<u8>| #[trigger] enc_block(h, b) == v@ ==> (res matches Ok(x) && x.height.0 == h && x.bytes@ == b),
{
    proof {
        lemma_auto_spec_u64_to_from_le_bytes();
    }
    match get_u64(v.as_slice(), 0) {
        None => Err(IndexerError::Corrupt),
        Some((h, end)) => {
            let rest = slice_subrange(v.as_slice(), end, v.len());
            let bytes = slice_to_vec(rest);
            proof {
                assert(v@ =~= enc_block(h, bytes@));
                assert forall|h2: u64, b2: Seq<u8>| #[trigger] enc_block(h2, b2) == v@ implies h2 == h && b2 == bytes@ by {
                    lemma_enc_u64_split(h2, b2, h, bytes@);
                }
            }
            Ok(StoredBlock { height: BlockHeight(h), bytes })
        },
    }
}

/// The blocks of the indexer.
#[derive(Debug)]
pub struct Blocks {
    store: Table,
    pub last: Option<StoredBlock>,
}

impl Blocks {
    /// The last block, when one is known.
    pub closed spec fn latest(&self) -> Option<StoredBlock> {
        self.last
    }

    /// The stored blocks' bytes, by key.
    pub closed spec fn stored(&self) -> Map<Seq<u8>, Seq<u8>> {
        self.store.ord_contents()
    }

    /// Opens the blocks' tree in `db`, which it takes. The last block is
    /// the one under the greatest key; when there is none, the genesis
    /// block, of height 0 and bytes `genesis`, is stored and is the last.
    pub(crate) fn new(db: sled::Db, genesis: &[u8]) -> (res: Result<Blocks, IndexerError>)
        ensures
            res matches Ok(b) ==> b.latest() matches Some(l) && (exists|k: Seq<u8>|
                #[trigger] is_last_key(b.stored(), k) && b.stored()[k] == enc_block(l.height.0, l.bytes@)),
            res matches Err(e) ==> e is Storage || e is Corrupt,
    {
        let store = Table::new(db, "blocks", None)?;
        let mut blocks = Blocks { store, last: None };
        match blocks.store.ord_last()? {
            Some(p) => {
                let l = block_from_store(&p.1)?;
                let ghost k = p.0@;
                let ghost lh = l.height.0;
                let ghost lb = l.bytes@;
                proof {
                    assert(is_last_key(blocks.stored(), k));
                    assert(blocks.stored()[k] == enc_block(lh, lb));
                }
                blocks.last = Some(l);
                proof {
                    assert(blocks.latest() matches Some(x) && x.height.0 == lh && x.bytes@ == lb);
                    assert(is_last_key(blocks.stored(), k) && blocks.stored()[k] == enc_block(lh, lb));
                }
                Ok(blocks)
            },
            None => {
                let ghost before = blocks.stored();
                blocks.store(BlockHeight(0), genesis)?;
                proof {
                    let k = block_key(0);
                    assert(blocks.stored() == before.insert(k, enc_block(0, genesis@)));
                    assert(is_last_key(blocks.stored(), k)) by {
                        assert forall|k2: Seq<u8>| #[trigger] blocks.stored().contains_key(k2) implies !bytes_lt(k, k2) by {
                            assert(k2 == k);
                            lemma_bytes_lt_asym(k, k);
                        }
                    }
                    assert(blocks.latest() matches Some(x) && x.height.0 == 0 && x.bytes@ == genesis@);
                    assert(blocks.stored()[k] == enc_block(0, genesis@));
                }
                Ok(blocks)
            },
        }
    }

    /// The height of the last block.
    pub fn get_latest_height(&self) -> (res: BlockHeight)
        requires
            self.latest() is Some,
        ensures
            res == self.latest()->Some_0.height,
    {
        match &self.last {
            Some(b) => BlockHeight(b.height.0),
            None => unreached(),
        }
    }

    /// The last block.
    pub fn get_latest(&self) -> (res: &StoredBlock)
        requires
            self.latest() is Some,
        ensures
            *res == self.latest()->Some_0,
    {
        match &self.last {
            Some(b) => b,
            None => unreached(),
        }
    }

    /// Stores the block of height `height`, encoded as `block`, under its
    /// key, and keeps it as the last block.
    pub fn store(&mut self, height: BlockHeight, block: &[u8]) -> (res: Result<(), IndexerError>)
        ensures
            res is Ok ==> final(self).stored() == old(self).stored().insert(block_key(height.0), enc_block(height.0, block@)),
            res is Ok ==> (final(self).latest() matches Some(b) && b.height == height && b.bytes@ == block@),
            res is Err ==> final(self).latest() == old(self).latest(),
            res matches Err(e) ==> e is Storage,
    {
        let key = u64_to_str(height.0);
        let mut value: Vec<u8> = Vec::new();
        put_u64(&mut value, height.0);
        let bytes = copy_bytes_slice(block);
        let mut i: usize = 0;
        let ghost start = value@;
        while i < bytes.len()
            invariant
                start == enc_u64(height.0),
                i <= bytes@.len(),
                value@ == start + bytes@.take(i as int),
            decreases bytes@.len() - i,
        {
            value.push(bytes[i]);
            proof {
                assert(bytes@.take(i + 1) =~= bytes@.take(i as int).push(bytes@[i as int]));
                assert(value@ =~= start + bytes@.take(i + 1));
            }
            i = i + 1;
        }
        proof {
            assert(bytes@.take(bytes@.len() as int) =~= bytes@);
        }
        match self.store.put(key.as_str().as_bytes(), None, value.as_slice()) {
            Ok(()) => {
                self.last = Some(StoredBlock { height: BlockHeight(height.0), bytes });
                Ok(())
            },
            Err(e) => Err(e),
        }
    }

    /// The block of height `height`, or nothing; an error where its stored
    /// bytes are too short.
    pub fn retrieve(&self, height: BlockHeight) -> (res: Result<Option<StoredBlock>, IndexerError>)
        ensures
            res matches Ok(Some(b)) ==> self.stored().contains_key(block_key(height.0))
                && self.stored()[block_key(height.0)] == enc_block(b.height.0, b.bytes@),
            res matches Ok(None) ==> !self.stored().contains_key(block_key(height.0)),
            res matches Err(IndexerError::Corrupt) ==> self.stored().contains_key(block_key(height.0))
                && self.stored()[block_key(height.0)].len() < 8,
            forall|h: u64, b: Seq<u8>| self.stored().contains_key(block_key(height.0))
                && #[trigger] enc_block(h, b) == self.stored()[block_key(height.0)] ==> match res {
                    Ok(found) => found matches Some(x) && x.height.0 == h && x.bytes@ == b,
                    Err(e) => e is Storage,
                },
    {
        let key = u64_to_str(height.0);
        match self.store.ord_get(key.as_str().as_bytes())? {
            None => Ok(None),
            Some(v) => Ok(Some(block_from_store(&v)?)),
        }
    }
}

/// A copy of a byte slice.
fn copy_bytes_slice(b: &[u8]) -> (res: Vec<u8>)
    ensures
        res@ == b@,
{
    let mut out: Vec<u8> = Vec::new();
    let mut i: usize = 0;
    while i < b.len()
        invariant
            i <= b@.len(),
            out@ == b@.take(i as int),
        decreases b@.len() - i,
    {
        out.push(b[i]);
        proof {
            assert(b@.take(i + 1) =~= b@.take(i as int).push(b@[i as int]));
        }
        i = i + 1;
    }
    assert(b@.take(b@.len() as int) =~= b@);
    out
}

} // verus!

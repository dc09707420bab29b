//! Records kept by the indexer, their byte layout, and the kinds and
//! statuses of transactions.

use crate::indexer::codec::{enc_bytes, enc_str, enc_u64, get_bytes, get_str, get_u64, lemma_enc_u64_len, put_bytes, put_str, put_u64};
use crate::model::transaction::{BlobData, BlobReference, Transaction, TransactionData};
use crate::model::{BlobIndex, BlockHeight, ContractName, Identity, StateDigest, TxHash};
use vstd::prelude::*;
use vstd::bytes::lemma_auto_spec_u64_to_from_le_bytes;
use vstd::utf8::encode_utf8;

verus! {

/// Kind of a transaction.
#[derive(Debug, Clone, Copy, PartialEq, Eq, Structural)]
pub enum TransactionType {
    BlobTransaction,
    ProofTransaction,
    RegisterContractTransaction,
    Stake,
}

/// Where a transaction stands.
#[derive(Debug, Clone, Copy, PartialEq, Eq, Structural)]
pub enum TransactionStatus {
    Success,
    Failure,
    Sequenced,
    TimedOut,
}

impl TransactionType {
    pub fn get_type_from_transaction(transaction: &Transaction) -> (res: TransactionType)
        ensures
            res == match transaction.transaction_data {
                TransactionData::Blob(_) => TransactionType::BlobTransaction,
                TransactionData::Proof(_) => TransactionType::ProofTransaction,
                TransactionData::RegisterContract(_) => TransactionType::RegisterContractTransaction,
                TransactionData::Stake(_) => TransactionType::Stake,
            },
    {
        match transaction.transaction_data {
            TransactionData::Blob(_) => TransactionType::BlobTransaction,
            TransactionData::Proof(_) => TransactionType::ProofTransaction,
            TransactionData::RegisterContract(_) => TransactionType::RegisterContractTransaction,
            TransactionData::Stake(_) => TransactionType::Stake,
        }
    }
}

/// A stored blob, with where it was sequenced.
#[derive(Debug, Clone, PartialEq, Eq)]
pub struct Blob {
    pub identity: Identity,
    pub contract_name: ContractName,
    pub data: BlobData,
    pub block_height: BlockHeight,
    pub tx_index: usize,
    pub blob_index: usize,
    pub tx_hash: String,
}

pub ghost struct BlobView {
    pub identity: Seq<char>,
    pub contract_name: Seq<char>,
    pub data: Seq<u8>,
    pub block_height: u64,
    pub tx_index: usize,
    pub blob_index: usize,
    pub tx_hash: Seq<char>,
}

impl View for Blob {
    type V = BlobView;

    open spec fn view(&self) -> BlobView {
        BlobView {
            identity: self.identity@,
            contract_name: self.contract_name@,
            data: self.data.0@,
            block_height: self.block_height.0,
            tx_index: self.tx_index,
            blob_index: self.blob_index,
            tx_hash: self.tx_hash@,
        }
    }
}

/// The bytes a blob is stored as.
pub open spec fn enc_blob(b: BlobView) -> Seq<u8> {
    enc_str(b.identity) + enc_str(b.contract_name) + enc_bytes(b.data) + enc_u64(b.block_height)
        + enc_u64(b.tx_index as u64) + enc_u64(b.blob_index as u64) + enc_str(b.tx_hash)
}

pub fn encode_blob(b: &Blob) -> (res: Vec<u8>)
    ensures
        res@ == enc_blob(b@),
{
    let mut out: Vec<u8> = Vec::new();
    put_str(&mut out, &b.identity.0);
    put_str(&mut out, &b.contract_name.0);
    put_bytes(&mut out, b.data.0.as_slice());
    put_u64(&mut out, b.block_height.0);
    put_u64(&mut out, b.tx_index as u64);
    put_u64(&mut out, b.blob_index as u64);
    put_str(&mut out, &b.tx_hash);
    assert(out@ =~= enc_blob(b@));
    out
}

/// Reads an index stored as an integer; fails when it does not fit.
pub(crate) fn get_index(b: &[u8], pos: usize) -> (res: Option<(usize, usize)>)
    ensures
        res matches Some((x, end)) ==> end == pos + 8 && end <= b@.len() && b@.subrange(pos as int, end as int) == enc_u64(x as u64),
        forall|x: usize| pos + 8 <= b@.len() && b@.subrange(pos as int, pos + 8) == #[trigger] enc_u64(x as u64)
            ==> res == Some((x, (pos + 8) as usize)),
{
    match get_u64(b, pos) {
        Some((x, end)) => {
            if x > usize::MAX as u64 {
                return None;
            }
            Some((x as usize, end))
        },
        None => None,
    }
}

/// End of the identity in the layout of `v`.
pub open spec fn blob_e1(v: BlobView) -> int {
    enc_str(v.identity).len() as int
}

/// End of the contract name in the layout of `v`.
pub open spec fn blob_e2(v: BlobView) -> int {
    blob_e1(v) + enc_str(v.contract_name).len()
}

/// End of the data in the layout of `v`.
pub open spec fn blob_e3(v: BlobView) -> int {
    blob_e2(v) + enc_bytes(v.data).len()
}

/// Reads a stored blob; `None` when the bytes are not a stored blob.
pub fn decode_blob(bytes: &[u8]) -> (res: Option<Blob>)
    ensures
        res matches Some(r) ==> enc_blob(r@) == bytes@,
        forall|v: BlobView| #[trigger] enc_blob(v) == bytes@ ==> (res matches Some(r) && r@ == v),
{
    let ghost b = bytes@;
    proof {
        lemma_blob_prefixes(b);
    }
    let (identity, p1) = match get_str(bytes, 0) {
        Some(r) => r,
        None => {
            proof {
                assert forall|v: BlobView| #[trigger] enc_blob(v) == b implies false by {
                    assert(b.subrange(0usize as int, 0usize + enc_str(v.identity).len()) == enc_str(v.identity));
                }
            }
            return None;
        },
    };
    proof {
        assert forall|v: BlobView| #[trigger] enc_blob(v) == b implies p1 == blob_e1(v) && identity@ == v.identity by {
            assert(b.subrange(0usize as int, 0usize + enc_str(v.identity).len()) == enc_str(v.identity));
        }
    }
    let (contract_name, p2) = match get_str(bytes, p1) {
        Some(r) => r,
        None => {
            proof {
                assert forall|v: BlobView| #[trigger] enc_blob(v) == b implies false by {
                    assert(b.subrange(p1 as int, p1 + enc_str(v.contract_name).len()) == enc_str(v.contract_name));
                }
            }
            return None;
        },
    };
    proof {
        assert forall|v: BlobView| #[trigger] enc_blob(v) == b implies p2 == blob_e2(v) && contract_name@ == v.contract_name by {
            assert(b.subrange(p1 as int, p1 + enc_str(v.contract_name).len()) == enc_str(v.contract_name));
        }
    }
    let (data, p3) = match get_bytes(bytes, p2) {
        Some(r) => r,
        None => {
            proof {
                assert forall|v: BlobView| #[trigger] enc_blob(v) == b implies false by {
                    assert(b.subrange(p2 as int, p2 + enc_bytes(v.data).len()) == enc_bytes(v.data));
                }
            }
            return None;
        },
    };
    proof {
        assert forall|v: BlobView| #[trigger] enc_blob(v) == b implies p3 == blob_e3(v) && data@ == v.data by {
            assert(b.subrange(p2 as int, p2 + enc_bytes(v.data).len()) == enc_bytes(v.data));
        }
    }
    let (height, p4) = match get_u64(bytes, p3) {
        Some(r) => r,
        None => {
            proof {
                assert forall|v: BlobView| #[trigger] enc_blob(v) == b implies false by {
                    assert(b.subrange(p3 as int, p3 + 8) == enc_u64(v.block_height));
                }
            }
            return None;
        },
    };
    proof {
        assert forall|v: BlobView| #[trigger] enc_blob(v) == b implies height == v.block_height by {
            assert(b.subrange(p3 as int, p3 + 8) == enc_u64(v.block_height));
        }
    }
    let (tx_index, p5) = match get_index(bytes, p4) {
        Some(r) => r,
        None => {
            proof {
                assert forall|v: BlobView| #[trigger] enc_blob(v) == b implies false by {
                    assert(b.subrange(p4 as int, p4 + 8) == enc_u64(v.tx_index as u64));
                }
            }
            return None;
        },
    };
    proof {
        assert forall|v: BlobView| #[trigger] enc_blob(v) == b implies tx_index == v.tx_index by {
            assert(b.subrange(p4 as int, p4 + 8) == enc_u64(v.tx_index as u64));
        }
    }
    let (blob_index, p6) = match get_index(bytes, p5) {
        Some(r) => r,
        None => {
            proof {
                assert forall|v: BlobView| #[trigger] enc_blob(v) == b implies false by {
                    assert(b.subrange(p5 as int, p5 + 8) == enc_u64(v.blob_index as u64));
                }
            }
            return None;
        },
    };
    proof {
        assert forall|v: BlobView| #[trigger] enc_blob(v) == b implies blob_index == v.blob_index by {
            assert(b.subrange(p5 as int, p5 + 8) == enc_u64(v.blob_index as u64));
        }
    }
    let (tx_hash, p7) = match get_str(bytes, p6) {
        Some(r) => r,
        None => {
            proof {
                assert forall|v: BlobView| #[trigger] enc_blob(v) == b implies false by {
                    assert(b.subrange(p6 as int, p6 + enc_str(v.tx_hash).len()) == enc_str(v.tx_hash));
                }
            }
            return None;
        },
    };
    proof {
        assert forall|v: BlobView| #[trigger] enc_blob(v) == b implies p7 == b.len() && tx_hash@ == v.tx_hash by {
            assert(b.subrange(p6 as int, p6 + enc_str(v.tx_hash).len()) == enc_str(v.tx_hash));
        }
    }
    if p7 != bytes.len() {
        return None;
    }
    let r = Blob {
        identity: Identity(identity),
        contract_name: ContractName(contract_name),
        data: BlobData(data),
        block_height: BlockHeight(height),
        tx_index,
        blob_index,
        tx_hash,
    };
    proof {
        assert(b =~= b.subrange(0, p1 as int) + b.subrange(p1 as int, p2 as int) + b.subrange(p2 as int, p3 as int)
            + b.subrange(p3 as int, p4 as int) + b.subrange(p4 as int, p5 as int) + b.subrange(p5 as int, p6 as int)
            + b.subrange(p6 as int, p7 as int));
        assert(enc_blob(r@) =~= b);
    }
    Some(r)
}

/// When `b` is the layout of some blob, each field's bytes come at their place.
proof fn lemma_blob_prefixes(b: Seq<u8>)
    ensures
        forall|v: BlobView| #[trigger] enc_blob(v) == b ==> {
            let e1 = blob_e1(v);
            let e2 = blob_e2(v);
            let e3 = blob_e3(v);
            &&& b.subrange(0, e1) == enc_str(v.identity)
            &&& b.subrange(e1, e2) == enc_str(v.contract_name)
            &&& b.subrange(e2, e3) == enc_bytes(v.data)
            &&& b.subrange(e3, e3 + 8) == enc_u64(v.block_height)
            &&& b.subrange(e3 + 8, e3 + 16) == enc_u64(v.tx_index as u64)
            &&& b.subrange(e3 + 16, e3 + 24) == enc_u64(v.blob_index as u64)
            &&& b.subrange(e3 + 24, b.len() as int) == enc_str(v.tx_hash)
            &&& b.len() == e3 + 24 + enc_str(v.tx_hash).len()
        },
{
    assert forall|v: BlobView| #[trigger] enc_blob(v) == b implies {
        let e1 = enc_str(v.identity).len() as int;
        let e2 = e1 + enc_str(v.contract_name).len() as int;
        let e3 = e2 + enc_bytes(v.data).len() as int;
        &&& b.subrange(0, e1) == enc_str(v.identity)
        &&& b.subrange(e1, e2) == enc_str(v.contract_name)
        &&& b.subrange(e2, e3) == enc_bytes(v.data)
        &&& b.subrange(e3, e3 + 8) == enc_u64(v.block_height)
        &&& b.subrange(e3 + 8, e3 + 16) == enc_u64(v.tx_index as u64)
        &&& b.subrange(e3 + 16, e3 + 24) == enc_u64(v.blob_index as u64)
        &&& b.subrange(e3 + 24, b.len() as int) == enc_str(v.tx_hash)
        &&& b.len() == e3 + 24 + enc_str(v.tx_hash).len()
    } by {
        lemma_enc_u64_len(v.block_height);
        lemma_enc_u64_len(v.tx_index as u64);
        lemma_enc_u64_len(v.blob_index as u64);
        let e1 = enc_str(v.identity).len() as int;
        let e2 = e1 + enc_str(v.contract_name).len() as int;
        let e3 = e2 + enc_bytes(v.data).len() as int;
        assert(b.subrange(0, e1) =~= enc_str(v.identity));
        assert(b.subrange(e1, e2) =~= enc_str(v.contract_name));
        assert(b.subrange(e2, e3) =~= enc_bytes(v.data));
        assert(b.subrange(e3, e3 + 8) =~= enc_u64(v.block_height));
        assert(b.subrange(e3 + 8, e3 + 16) =~= enc_u64(v.tx_index as u64));
        assert(b.subrange(e3 + 16, e3 + 24) =~= enc_u64(v.blob_index as u64));
        assert(b.subrange(e3 + 24, b.len() as int) =~= enc_str(v.tx_hash));
    }
}

/// A stored contract registration, with where it was sequenced.
#[derive(Debug, Clone, PartialEq, Eq)]
pub struct Contract {
    pub owner: String,
    pub verifier: String,
    pub program_id: Vec<u8>,
    pub state_digest: StateDigest,
    pub contract_name: ContractName,
    pub block_height: BlockHeight,
    pub tx_index: usize,
    pub tx_hash: String,
}

pub ghost struct ContractView {
    pub owner: Seq<char>,
    pub verifier: Seq<char>,
    pub program_id: Seq<u8>,
    pub state_digest: Seq<u8>,
    pub contract_name: Seq<char>,
    pub block_height: u64,
    pub tx_index: usize,
    pub tx_hash: Seq<char>,
}

impl View for Contract {
    type V = ContractView;

    open spec fn view(&self) -> ContractView {
        ContractView {
            owner: self.owner@,
            verifier: self.verifier@,
            program_id: self.program_id@,
            state_digest: self.state_digest@,
            contract_name: self.contract_name@,
            block_height: self.block_height.0,
            tx_index: self.tx_index,
            tx_hash: self.tx_hash@,
        }
    }
}

/// The bytes a contract registration is stored as.
pub open spec fn enc_contract(c: ContractView) -> Seq<u8> {
    enc_str(c.owner) + enc_str(c.verifier) + enc_bytes(c.program_id) + enc_bytes(c.state_digest)
        + enc_str(c.contract_name) + enc_u64(c.block_height) + enc_u64(c.tx_index as u64) + enc_str(c.tx_hash)
}

pub fn encode_contract(c: &Contract) -> (res: Vec<u8>)
    ensures
        res@ == enc_contract(c@),
{
    let mut out: Vec<u8> = Vec::new();
    put_str(&mut out, &c.owner);
    put_str(&mut out, &c.verifier);
    put_bytes(&mut out, c.program_id.as_slice());
    put_bytes(&mut out, c.state_digest.0.as_slice());
    put_str(&mut out, &c.contract_name.0);
    put_u64(&mut out, c.block_height.0);
    put_u64(&mut out, c.tx_index as u64);
    put_str(&mut out, &c.tx_hash);
    assert(out@ =~= enc_contract(c@));
    out
}

pub open spec fn contract_e1(c: ContractView) -> int {
    enc_str(c.owner).len() as int
}

pub open spec fn contract_e2(c: ContractView) -> int {
    contract_e1(c) + enc_str(c.verifier).len()
}

pub open spec fn contract_e3(c: ContractView) -> int {
    contract_e2(c) + enc_bytes(c.program_id).len()
}

pub open spec fn contract_e4(c: ContractView) -> int {
    contract_e3(c) + enc_bytes(c.state_digest).len()
}

pub open spec fn contract_e5(c: ContractView) -> int {
    contract_e4(c) + enc_str(c.contract_name).len()
}

proof fn lemma_contract_prefixes(b: Seq<u8>)
    ensures
        forall|c: ContractView| #[trigger] enc_contract(c) == b ==> {
            &&& b.subrange(0, contract_e1(c)) == enc_str(c.owner)
            &&& b.subrange(contract_e1(c), contract_e2(c)) == enc_str(c.verifier)
            &&& b.subrange(contract_e2(c), contract_e3(c)) == enc_bytes(c.program_id)
            &&& b.subrange(contract_e3(c), contract_e4(c)) == enc_bytes(c.state_digest)
            &&& b.subrange(contract_e4(c), contract_e5(c)) == enc_str(c.contract_name)
            &&& b.subrange(contract_e5(c), contract_e5(c) + 8) == enc_u64(c.block_height)
            &&& b.subrange(contract_e5(c) + 8, contract_e5(c) + 16) == enc_u64(c.tx_index as u64)
            &&& b.subrange(contract_e5(c) + 16, b.len() as int) == enc_str(c.tx_hash)
            &&& b.len() == contract_e5(c) + 16 + enc_str(c.tx_hash).len()
        },
{
    assert forall|c: ContractView| #[trigger] enc_contract(c) == b implies {
        &&& b.subrange(0, contract_e1(c)) == enc_str(c.owner)
        &&& b.subrange(contract_e1(c), contract_e2(c)) == enc_str(c.verifier)
        &&& b.subrange(contract_e2(c), contract_e3(c)) == enc_bytes(c.program_id)
        &&& b.subrange(contract_e3(c), contract_e4(c)) == enc_bytes(c.state_digest)
        &&& b.subrange(contract_e4(c), contract_e5(c)) == enc_str(c.contract_name)
        &&& b.subrange(contract_e5(c), contract_e5(c) + 8) == enc_u64(c.block_height)
        &&& b.subrange(contract_e5(c) + 8, contract_e5(c) + 16) == enc_u64(c.tx_index as u64)
        &&& b.subrange(contract_e5(c) + 16, b.len() as int) == enc_str(c.tx_hash)
        &&& b.len() == contract_e5(c) + 16 + enc_str(c.tx_hash).len()
    } by {
        lemma_enc_u64_len(c.block_height);
        lemma_enc_u64_len(c.tx_index as u64);
        assert(b.subrange(0, contract_e1(c)) =~= enc_str(c.owner));
        assert(b.subrange(contract_e1(c), contract_e2(c)) =~= enc_str(c.verifier));
        assert(b.subrange(contract_e2(c), contract_e3(c)) =~= enc_bytes(c.program_id));
        assert(b.subrange(contract_e3(c), contract_e4(c)) =~= enc_bytes(c.state_digest));
        assert(b.subrange(contract_e4(c), contract_e5(c)) =~= enc_str(c.contract_name));
        assert(b.subrange(contract_e5(c), contract_e5(c) + 8) =~= enc_u64(c.block_height));
        assert(b.subrange(contract_e5(c) + 8, contract_e5(c) + 16) =~= enc_u64(c.tx_index as u64));
        assert(b.subrange(contract_e5(c) + 16, b.len() as int) =~= enc_str(c.tx_hash));
    }
}

/// Reads a stored contract registration; `None` when the bytes are not one.
pub fn decode_contract(bytes: &[u8]) -> (res: Option<Contract>)
    ensures
        res matches Some(r) ==> enc_contract(r@) == bytes@,
        forall|v: ContractView| #[trigger] enc_contract(v) == bytes@ ==> (res matches Some(r) && r@ == v),
{
    let ghost b = bytes@;
    proof {
        lemma_contract_prefixes(b);
    }
    let (owner, p1) = match get_str(bytes, 0) {
        Some(r) => r,
        None => {
            proof {
                assert forall|v: ContractView| #[trigger] enc_contract(v) == b implies false by {
                    assert(b.subrange(0usize as int, 0usize + enc_str(v.owner).len()) == enc_str(v.owner));
                }
            }
            return None;
        },
    };
    proof {
        assert forall|v: ContractView| #[trigger] enc_contract(v) == b implies p1 == contract_e1(v) && owner@ == v.owner by {
            assert(b.subrange(0usize as int, 0usize + enc_str(v.owner).len()) == enc_str(v.owner));
        }
    }
    let (verifier, p2) = match get_str(bytes, p1) {
        Some(r) => r,
        None => {
            proof {
                assert forall|v: ContractView| #[trigger] enc_contract(v) == b implies false by {
                    assert(b.subrange(p1 as int, p1 + enc_str(v.verifier).len()) == enc_str(v.verifier));
                }
            }
            return None;
        },
    };
    proof {
        assert forall|v: ContractView| #[trigger] enc_contract(v) == b implies p2 == contract_e2(v) && verifier@ == v.verifier by {
            assert(b.subrange(p1 as int, p1 + enc_str(v.verifier).len()) == enc_str(v.verifier));
        }
    }
    let (program_id, p3) = match get_bytes(bytes, p2) {
        Some(r) => r,
        None => {
            proof {
                assert forall|v: ContractView| #[trigger] enc_contract(v) == b implies false by {
                    assert(b.subrange(p2 as int, p2 + enc_bytes(v.program_id).len()) == enc_bytes(v.program_id));
                }
            }
            return None;
        },
    };
    proof {
        assert forall|v: ContractView| #[trigger] enc_contract(v) == b implies p3 == contract_e3(v) && program_id@ == v.program_id by {
            assert(b.subrange(p2 as int, p2 + enc_bytes(v.program_id).len()) == enc_bytes(v.program_id));
        }
    }
    let (state_digest, p4) = match get_bytes(bytes, p3) {
        Some(r) => r,
        None => {
            proof {
                assert forall|v: ContractView| #[trigger] enc_contract(v) == b implies false by {
                    assert(b.subrange(p3 as int, p3 + enc_bytes(v.state_digest).len()) == enc_bytes(v.state_digest));
                }
            }
            return None;
        },
    };
    proof {
        assert forall|v: ContractView| #[trigger] enc_contract(v) == b implies p4 == contract_e4(v) && state_digest@ == v.state_digest by {
            assert(b.subrange(p3 as int, p3 + enc_bytes(v.state_digest).len()) == enc_bytes(v.state_digest));
        }
    }
    let (contract_name, p5) = match get_str(bytes, p4) {
        Some(r) => r,
        None => {
            proof {
                assert forall|v: ContractView| #[trigger] enc_contract(v) == b implies false by {
                    assert(b.subrange(p4 as int, p4 + enc_str(v.contract_name).len()) == enc_str(v.contract_name));
                }
            }
            return None;
        },
    };
    proof {
        assert forall|v: ContractView| #[trigger] enc_contract(v) == b implies p5 == contract_e5(v) && contract_name@ == v.contract_name by {
            assert(b.subrange(p4 as int, p4 + enc_str(v.contract_name).len()) == enc_str(v.contract_name));
        }
    }
    let (height, p6) = match get_u64(bytes, p5) {
        Some(r) => r,
        None => {
            proof {
                assert forall|v: ContractView| #[trigger] enc_contract(v) == b implies false by {
                    assert(b.subrange(p5 as int, p5 + 8) == enc_u64(v.block_height));
                }
            }
            return None;
        },
    };
    proof {
        assert forall|v: ContractView| #[trigger] enc_contract(v) == b implies height == v.block_height by {
            assert(b.subrange(p5 as int, p5 + 8) == enc_u64(v.block_height));
        }
    }
    let (tx_index, p7) = match get_index(bytes, p6) {
        Some(r) => r,
        None => {
            proof {
                assert forall|v: ContractView| #[trigger] enc_contract(v) == b implies false by {
                    assert(b.subrange(p6 as int, p6 + 8) == enc_u64(v.tx_index as u64));
                }
            }
            return None;
        },
    };
    proof {
        assert forall|v: ContractView| #[trigger] enc_contract(v) == b implies tx_index == v.tx_index by {
            assert(b.subrange(p6 as int, p6 + 8) == enc_u64(v.tx_index as u64));
        }
    }
    let (tx_hash, p8) = match get_str(bytes, p7) {
        Some(r) => r,
        None => {
            proof {
                assert forall|v: ContractView| #[trigger] enc_contract(v) == b implies false by {
                    assert(b.subrange(p7 as int, p7 + enc_str(v.tx_hash).len()) == enc_str(v.tx_hash));
                }
            }
            return None;
        },
    };
    proof {
        assert forall|v: ContractView| #[trigger] enc_contract(v) == b implies p8 == b.len() && tx_hash@ == v.tx_hash by {
            assert(b.subrange(p7 as int, p7 + enc_str(v.tx_hash).len()) == enc_str(v.tx_hash));
        }
    }
    if p8 != bytes.len() {
        return None;
    }
    let r = Contract {
        owner,
        verifier,
        program_id,
        state_digest: StateDigest(state_digest),
        contract_name: ContractName(contract_name),
        block_height: BlockHeight(height),
        tx_index,
        tx_hash,
    };
    proof {
        assert(b =~= b.subrange(0, p1 as int) + b.subrange(p1 as int, p2 as int) + b.subrange(p2 as int, p3 as int)
            + b.subrange(p3 as int, p4 as int) + b.subrange(p4 as int, p5 as int) + b.subrange(p5 as int, p6 as int)
            + b.subrange(p6 as int, p7 as int) + b.subrange(p7 as int, p8 as int));
        assert(enc_contract(r@) =~= b);
    }
    Some(r)
}

/// A proven blob, as plain values.
pub ghost struct RefView {
    pub contract_name: Seq<char>,
    pub blob_tx_hash: Seq<char>,
    pub blob_index: usize,
}

pub open spec fn ref_view(r: BlobReference) -> RefView {
    RefView { contract_name: r.contract_name@, blob_tx_hash: r.blob_tx_hash@, blob_index: r.blob_index.0 }
}

pub open spec fn refs_view(rs: Seq<BlobReference>) -> Seq<RefView> {
    rs.map_values(|r: BlobReference| ref_view(r))
}

/// The bytes of one proven blob.
pub open spec fn enc_ref(r: RefView) -> Seq<u8> {
    enc_str(r.contract_name) + enc_str(r.blob_tx_hash) + enc_u64(r.blob_index as u64)
}

/// The bytes of proven blobs, one after the other.
pub open spec fn concat_refs(rs: Seq<RefView>) -> Seq<u8>
    decreases rs.len(),
{
    if rs.len() == 0 {
        Seq::empty()
    } else {
        enc_ref(rs[0]) + concat_refs(rs.drop_first())
    }
}

/// Proven blobs, prefixed by their number.
pub open spec fn enc_refs(rs: Seq<RefView>) -> Seq<u8> {
    enc_u64(rs.len() as u64) + concat_refs(rs)
}

pub proof fn lemma_concat_push(rs: Seq<RefView>, r: RefView)
    ensures
        concat_refs(rs.push(r)) == concat_refs(rs) + enc_ref(r),
    decreases rs.len(),
{
    if rs.len() == 0 {
        assert(rs.push(r).drop_first() =~= Seq::<RefView>::empty());
        assert(rs.push(r)[0] == r);
        assert(concat_refs(rs.push(r).drop_first()) =~= Seq::<u8>::empty());
        assert(concat_refs(rs.push(r)) =~= enc_ref(r));
    } else {
        assert(rs.push(r).drop_first() =~= rs.drop_first().push(r));
        lemma_concat_push(rs.drop_first(), r);
        assert(concat_refs(rs.push(r)) =~= concat_refs(rs) + enc_ref(r));
    }
}

proof fn lemma_enc_ref_len(r: RefView)
    ensures
        enc_ref(r).len() >= 24,
{
    lemma_enc_u64_len(r.blob_index as u64);
    lemma_enc_u64_len(encode_utf8(r.contract_name).len() as u64);
    lemma_enc_u64_len(encode_utf8(r.blob_tx_hash).len() as u64);
}

proof fn lemma_concat_len(rs: Seq<RefView>)
    ensures
        concat_refs(rs).len() >= rs.len(),
    decreases rs.len(),
{
    if rs.len() > 0 {
        lemma_enc_ref_len(rs[0]);
        lemma_concat_len(rs.drop_first());
    }
}

pub(crate) fn put_ref(out: &mut Vec<u8>, r: &BlobReference)
    ensures
        final(out)@ == old(out)@ + enc_ref(ref_view(*r)),
{
    put_str(out, &r.contract_name.0);
    put_str(out, &r.blob_tx_hash.0);
    put_u64(out, r.blob_index.0 as u64);
    assert(out@ =~= old(out)@ + enc_ref(ref_view(*r)));
}

pub(crate) fn put_refs(out: &mut Vec<u8>, rs: &Vec<BlobReference>)
    ensures
        final(out)@ == old(out)@ + enc_refs(refs_view(rs@)),
{
    put_u64(out, rs.len() as u64);
    let ghost start = out@;
    let mut i: usize = 0;
    while i < rs.len()
        invariant
            i <= rs@.len(),
            out@ == start + concat_refs(refs_view(rs@).take(i as int)),
        decreases rs@.len() - i,
    {
        put_ref(out, &rs[i]);
        proof {
            assert(refs_view(rs@).take(i + 1) =~= refs_view(rs@).take(i as int).push(ref_view(rs@[i as int])));
            lemma_concat_push(refs_view(rs@).take(i as int), ref_view(rs@[i as int]));
        }
        i = i + 1;
    }
    assert(refs_view(rs@).take(rs@.len() as int) =~= refs_view(rs@));
    assert(out@ =~= old(out)@ + enc_refs(refs_view(rs@)));
}

pub(crate) fn get_ref(b: &[u8], pos: usize) -> (res: Option<(BlobReference, usize)>)
    ensures
        res matches Some((r, end)) ==> pos <= end <= b@.len() && b@.subrange(pos as int, end as int) == enc_ref(ref_view(r)),
        forall|v: RefView| pos + enc_ref(v).len() <= b@.len() && #[trigger] b@.subrange(pos as int, pos + enc_ref(v).len()) == enc_ref(v)
            ==> (res matches Some((r, end)) && ref_view(r) == v && end == pos + enc_ref(v).len()),
{
    let ghost bb = b@;
    proof {
        assert forall|v: RefView| pos + enc_ref(v).len() <= bb.len() && #[trigger] bb.subrange(pos as int, pos + enc_ref(v).len()) == enc_ref(v) implies {
            let e1 = pos + enc_str(v.contract_name).len();
            let e2 = e1 + enc_str(v.blob_tx_hash).len();
            &&& bb.subrange(pos as int, e1) == enc_str(v.contract_name)
            &&& bb.subrange(e1, e2) == enc_str(v.blob_tx_hash)
            &&& bb.subrange(e2, e2 + 8) == enc_u64(v.blob_index as u64)
            &&& e2 + 8 == pos + enc_ref(v).len()
        } by {
            lemma_enc_u64_len(v.blob_index as u64);
            let w = bb.subrange(pos as int, pos + enc_ref(v).len());
            let e1 = pos + enc_str(v.contract_name).len();
            let e2 = e1 + enc_str(v.blob_tx_hash).len();
            assert(bb.subrange(pos as int, e1) =~= w.subrange(0, e1 - pos));
            assert(bb.subrange(e1, e2) =~= w.subrange(e1 - pos, e2 - pos));
            assert(bb.subrange(e2, e2 + 8) =~= w.subrange(e2 - pos, e2 - pos + 8));
        }
    }
    let (name, p1) = match get_str(b, pos) {
        Some(r) => r,
        None => {
            proof {
                assert forall|v: RefView| pos + enc_ref(v).len() <= bb.len() implies #[trigger] bb.subrange(pos as int, pos + enc_ref(v).len()) != enc_ref(v) by {
                    if bb.subrange(pos as int, pos + enc_ref(v).len()) == enc_ref(v) {
                        assert(bb.subrange(pos as int, pos + enc_str(v.contract_name).len()) == enc_str(v.contract_name));
                    }
                }
            }
            return None;
        },
    };
    let (hash, p2) = match get_str(b, p1) {
        Some(r) => r,
        None => {
            proof {
                assert forall|v: RefView| pos + enc_ref(v).len() <= bb.len() implies #[trigger] bb.subrange(pos as int, pos + enc_ref(v).len()) != enc_ref(v) by {
                    if bb.subrange(pos as int, pos + enc_ref(v).len()) == enc_ref(v) {
                        assert(bb.subrange(pos as int, pos + enc_str(v.contract_name).len()) == enc_str(v.contract_name));
                        assert(bb.subrange(p1 as int, p1 + enc_str(v.blob_tx_hash).len()) == enc_str(v.blob_tx_hash));
                    }
                }
            }
            return None;
        },
    };
    let (index, p3) = match get_index(b, p2) {
        Some(r) => r,
        None => {
            proof {
                assert forall|v: RefView| pos + enc_ref(v).len() <= bb.len() implies #[trigger] bb.subrange(pos as int, pos + enc_ref(v).len()) != enc_ref(v) by {
                    if bb.subrange(pos as int, pos + enc_ref(v).len()) == enc_ref(v) {
                        assert(bb.subrange(pos as int, pos + enc_str(v.contract_name).len()) == enc_str(v.contract_name));
                        assert(bb.subrange(p1 as int, p1 + enc_str(v.blob_tx_hash).len()) == enc_str(v.blob_tx_hash));
                        assert(bb.subrange(p2 as int, p2 + 8) == enc_u64(v.blob_index as u64));
                    }
                }
            }
            return None;
        },
    };
    let r = BlobReference { contract_name: ContractName(name), blob_tx_hash: TxHash(hash), blob_index: BlobIndex(index) };
    proof {
        assert(bb.subrange(pos as int, p3 as int) =~= bb.subrange(pos as int, p1 as int) + bb.subrange(p1 as int, p2 as int) + bb.subrange(p2 as int, p3 as int));
        assert forall|v: RefView| pos + enc_ref(v).len() <= bb.len() && #[trigger] bb.subrange(pos as int, pos + enc_ref(v).len()) == enc_ref(v)
            implies ref_view(r) == v && p3 == pos + enc_ref(v).len() by {
            assert(bb.subrange(pos as int, pos + enc_str(v.contract_name).len()) == enc_str(v.contract_name));
            assert(bb.subrange(p1 as int, p1 + enc_str(v.blob_tx_hash).len()) == enc_str(v.blob_tx_hash));
            assert(bb.subrange(p2 as int, p2 + 8) == enc_u64(v.blob_index as u64));
        }
    }
    Some((r, p3))
}

pub(crate) fn get_refs(b: &[u8], pos: usize) -> (res: Option<(Vec<BlobReference>, usize)>)
    ensures
        res matches Some((rs, end)) ==> pos <= end <= b@.len() && b@.subrange(pos as int, end as int) == enc_refs(refs_view(rs@)),
        forall|v: Seq<RefView>| pos + enc_refs(v).len() <= b@.len() && #[trigger] b@.subrange(pos as int, pos + enc_refs(v).len()) == enc_refs(v)
            ==> (res matches Some((rs, end)) && refs_view(rs@) == v && end == pos + enc_refs(v).len()),
{
    let ghost bb = b@;
    let blen = b.len();
    proof {
        lemma_auto_spec_u64_to_from_le_bytes();
    }
    let (n, start) = match get_u64(b, pos) {
        Some(r) => r,
        None => {
            proof {
                assert forall|v: Seq<RefView>| pos + enc_refs(v).len() <= bb.len() implies #[trigger] bb.subrange(pos as int, pos + enc_refs(v).len()) != enc_refs(v) by {
                    lemma_enc_u64_len(v.len() as u64);
                }
            }
            return None;
        },
    };
    proof {
        assert forall|v: Seq<RefView>| pos + enc_refs(v).len() <= bb.len() && #[trigger] bb.subrange(pos as int, pos + enc_refs(v).len()) == enc_refs(v) implies {
            &&& n == v.len()
            &&& refs_view(Seq::<BlobReference>::empty()) == v.take(0)
            &&& start + concat_refs(v.skip(0)).len() <= bb.len()
            &&& bb.subrange(start as int, start + concat_refs(v.skip(0)).len()) == concat_refs(v.skip(0))
            &&& start + concat_refs(v.skip(0)).len() == pos + enc_refs(v).len()
        } by {
            lemma_enc_u64_len(v.len() as u64);
            lemma_concat_len(v);
            let x = v.len() as u64;
            let w = bb.subrange(pos as int, pos + enc_refs(v).len());
            assert(bb.subrange(pos as int, pos + 8) =~= w.subrange(0, 8));
            assert(w.subrange(0, 8) =~= enc_u64(x));
            assert(bb.subrange(pos as int, pos + 8) == enc_u64(x));
            assert(n == x);
            assert(v.skip(0) =~= v);
            assert(v.take(0) =~= Seq::<RefView>::empty());
            assert(refs_view(Seq::<BlobReference>::empty()) =~= Seq::<RefView>::empty());
            assert(bb.subrange(start as int, start + concat_refs(v).len()) =~= w.subrange(8, w.len() as int));
        }
        assert(bb.subrange(start as int, start as int) =~= concat_refs(refs_view(Seq::<BlobReference>::empty())));
    }
    let mut rs: Vec<BlobReference> = Vec::new();
    let mut cur: usize = start;
    let mut k: u64 = 0;
    while k < n
        invariant
            bb == b@,
            blen == bb.len(),
            start == pos + 8,
            start <= cur <= bb.len(),
            k <= n,
            rs@.len() == k,
            bb.subrange(start as int, cur as int) == concat_refs(refs_view(rs@)),
            bb.subrange(pos as int, start as int) == enc_u64(n),
            forall|v: Seq<RefView>| pos + enc_refs(v).len() <= bb.len() && #[trigger] bb.subrange(pos as int, pos + enc_refs(v).len()) == enc_refs(v) ==> {
                &&& n == v.len()
                &&& refs_view(rs@) == v.take(k as int)
                &&& cur + concat_refs(v.skip(k as int)).len() <= bb.len()
                &&& bb.subrange(cur as int, cur + concat_refs(v.skip(k as int)).len()) == concat_refs(v.skip(k as int))
                &&& cur + concat_refs(v.skip(k as int)).len() == pos + enc_refs(v).len()
            },
        decreases n - k,
    {
        let ghost before = rs@;
        match get_ref(b, cur) {
            None => {
                proof {
                    assert forall|v: Seq<RefView>| pos + enc_refs(v).len() <= bb.len() implies #[trigger] bb.subrange(pos as int, pos + enc_refs(v).len()) != enc_refs(v) by {
                        if bb.subrange(pos as int, pos + enc_refs(v).len()) == enc_refs(v) {
                            let rest = v.skip(k as int);
                            assert(rest.len() > 0);
                            let len0 = enc_ref(rest[0]).len();
                            let w = bb.subrange(cur as int, cur + concat_refs(rest).len());
                            assert(concat_refs(rest) == enc_ref(rest[0]) + concat_refs(rest.drop_first()));
                            assert(w.subrange(0, len0 as int) =~= enc_ref(rest[0]));
                            assert(bb.subrange(cur as int, cur + len0) =~= w.subrange(0, len0 as int));
                            assert(bb.subrange(cur as int, cur + enc_ref(rest[0]).len()) == enc_ref(rest[0]));
                        }
                    }
                }
                return None;
            },
            Some((r, next)) => {
                proof {
                    assert forall|v: Seq<RefView>| pos + enc_refs(v).len() <= bb.len() && #[trigger] bb.subrange(pos as int, pos + enc_refs(v).len()) == enc_refs(v) implies {
                        &&& ref_view(r) == v[k as int]
                        &&& next + concat_refs(v.skip(k + 1)).len() <= bb.len()
                        &&& bb.subrange(next as int, next + concat_refs(v.skip(k + 1)).len()) == concat_refs(v.skip(k + 1))
                        &&& next + concat_refs(v.skip(k + 1)).len() == pos + enc_refs(v).len()
                    } by {
                        let rest = v.skip(k as int);
                        assert(rest.len() > 0);
                        assert(rest.drop_first() =~= v.skip(k + 1));
                        let len0 = enc_ref(rest[0]).len();
                        let w = bb.subrange(cur as int, cur + concat_refs(rest).len());
                        assert(concat_refs(rest) == enc_ref(rest[0]) + concat_refs(rest.drop_first()));
                        assert(w.subrange(0, len0 as int) =~= enc_ref(rest[0]));
                        assert(bb.subrange(cur as int, cur + len0) =~= w.subrange(0, len0 as int));
                        assert(bb.subrange(cur as int, cur + enc_ref(rest[0]).len()) == enc_ref(rest[0]));
                        assert(rest[0] == v[k as int]);
                        assert(next == cur + len0);
                        assert(w.subrange(len0 as int, w.len() as int) =~= concat_refs(v.skip(k + 1)));
                        assert(bb.subrange(next as int, next + concat_refs(v.skip(k + 1)).len()) =~= w.subrange(len0 as int, w.len() as int));
                    }
                }
                rs.push(r);
                proof {
                    assert(refs_view(rs@) =~= refs_view(before).push(ref_view(r)));
                    lemma_concat_push(refs_view(before), ref_view(r));
                    assert(bb.subrange(start as int, next as int) =~= bb.subrange(start as int, cur as int) + bb.subrange(cur as int, next as int));
                    assert forall|v: Seq<RefView>| pos + enc_refs(v).len() <= bb.len() && #[trigger] bb.subrange(pos as int, pos + enc_refs(v).len()) == enc_refs(v) implies
                        refs_view(rs@) == v.take(k + 1) by {
                        assert(v.take(k + 1) =~= v.take(k as int).push(v[k as int]));
                    }
                }
                cur = next;
                k = k + 1;
            },
        }
    }
    proof {
        assert(bb.subrange(pos as int, cur as int) =~= bb.subrange(pos as int, start as int) + bb.subrange(start as int, cur as int));
        assert(refs_view(rs@).len() == n);
        assert(bb.subrange(pos as int, cur as int) =~= enc_refs(refs_view(rs@)));
        assert forall|v: Seq<RefView>| pos + enc_refs(v).len() <= bb.len() && #[trigger] bb.subrange(pos as int, pos + enc_refs(v).len()) == enc_refs(v) implies
            refs_view(rs@) == v && cur == pos + enc_refs(v).len() by {
            assert(v.take(k as int) =~= v);
            assert(v.skip(k as int) =~= Seq::<RefView>::empty());
        }
    }
    Some((rs, cur))
}

/// A stored proof, with where it was sequenced.
#[derive(Debug, Clone, PartialEq, Eq)]
pub struct Proof {
    pub blobs_references: Vec<BlobReference>,
    pub proof: Vec<u8>,
    pub block_height: BlockHeight,
    pub tx_index: usize,
    pub tx_hash: String,
}

pub ghost struct ProofView {
    pub blobs_references: Seq<RefView>,
    pub proof: Seq<u8>,
    pub block_height: u64,
    pub tx_index: usize,
    pub tx_hash: Seq<char>,
}

impl View for Proof {
    type V = ProofView;

    open spec fn view(&self) -> ProofView {
        ProofView {
            blobs_references: refs_view(self.blobs_references@),
            proof: self.proof@,
            block_height: self.block_height.0,
            tx_index: self.tx_index,
            tx_hash: self.tx_hash@,
        }
    }
}

/// The bytes a proof is stored as.
pub open spec fn enc_proof(p: ProofView) -> Seq<u8> {
    enc_refs(p.blobs_references) + enc_bytes(p.proof) + enc_u64(p.block_height) + enc_u64(p.tx_index as u64)
        + enc_str(p.tx_hash)
}

pub fn encode_proof(p: &Proof) -> (res: Vec<u8>)
    ensures
        res@ == enc_proof(p@),
{
    let mut out: Vec<u8> = Vec::new();
    put_refs(&mut out, &p.blobs_references);
    put_bytes(&mut out, p.proof.as_slice());
    put_u64(&mut out, p.block_height.0);
    put_u64(&mut out, p.tx_index as u64);
    put_str(&mut out, &p.tx_hash);
    assert(out@ =~= enc_proof(p@));
    out
}

pub open spec fn proof_e1(p: ProofView) -> int {
    enc_refs(p.blobs_references).len() as int
}

pub open spec fn proof_e2(p: ProofView) -> int {
    proof_e1(p) + enc_bytes(p.proof).len()
}

proof fn lemma_proof_prefixes(b: Seq<u8>)
    ensures
        forall|p: ProofView| #[trigger] enc_proof(p) == b ==> {
            &&& b.subrange(0, proof_e1(p)) == enc_refs(p.blobs_references)
            &&& b.subrange(proof_e1(p), proof_e2(p)) == enc_bytes(p.proof)
            &&& b.subrange(proof_e2(p), proof_e2(p) + 8) == enc_u64(p.block_height)
            &&& b.subrange(proof_e2(p) + 8, proof_e2(p) + 16) == enc_u64(p.tx_index as u64)
            &&& b.subrange(proof_e2(p) + 16, b.len() as int) == enc_str(p.tx_hash)
            &&& b.len() == proof_e2(p) + 16 + enc_str(p.tx_hash).len()
        },
{
    assert forall|p: ProofView| #[trigger] enc_proof(p) == b implies {
        &&& b.subrange(0, proof_e1(p)) == enc_refs(p.blobs_references)
        &&& b.subrange(proof_e1(p), proof_e2(p)) == enc_bytes(p.proof)
        &&& b.subrange(proof_e2(p), proof_e2(p) + 8) == enc_u64(p.block_height)
        &&& b.subrange(proof_e2(p) + 8, proof_e2(p) + 16) == enc_u64(p.tx_index as u64)
        &&& b.subrange(proof_e2(p) + 16, b.len() as int) == enc_str(p.tx_hash)
        &&& b.len() == proof_e2(p) + 16 + enc_str(p.tx_hash).len()
    } by {
        lemma_enc_u64_len(p.block_height);
        lemma_enc_u64_len(p.tx_index as u64);
        assert(b.subrange(0, proof_e1(p)) =~= enc_refs(p.blobs_references));
        assert(b.subrange(proof_e1(p), proof_e2(p)) =~= enc_bytes(p.proof));
        assert(b.subrange(proof_e2(p), proof_e2(p) + 8) =~= enc_u64(p.block_height));
        assert(b.subrange(proof_e2(p) + 8, proof_e2(p) + 16) =~= enc_u64(p.tx_index as u64));
        assert(b.subrange(proof_e2(p) + 16, b.len() as int) =~= enc_str(p.tx_hash));
    }
}

/// Reads a stored proof; `None` when the bytes are not one.
pub fn decode_proof(bytes: &[u8]) -> (res: Option<Proof>)
    ensures
        res matches Some(r) ==> enc_proof(r@) == bytes@,
        forall|v: ProofView| #[trigger] enc_proof(v) == bytes@ ==> (res matches Some(r) && r@ == v),
{
    let ghost b = bytes@;
    proof {
        lemma_proof_prefixes(b);
    }
    let (refs, p1) = match get_refs(bytes, 0) {
        Some(r) => r,
        None => {
            proof {
                assert forall|v: ProofView| #[trigger] enc_proof(v) == b implies false by {
                    assert(b.subrange(0usize as int, 0usize + enc_refs(v.blobs_references).len()) == enc_refs(v.blobs_references));
                }
            }
            return None;
        },
    };
    proof {
        assert forall|v: ProofView| #[trigger] enc_proof(v) == b implies p1 == proof_e1(v) && refs_view(refs@) == v.blobs_references by {
            assert(b.subrange(0usize as int, 0usize + enc_refs(v.blobs_references).len()) == enc_refs(v.blobs_references));
        }
    }
    let (proof_bytes, p2) = match get_bytes(bytes, p1) {
        Some(r) => r,
        None => {
            proof {
                assert forall|v: ProofView| #[trigger] enc_proof(v) == b implies false by {
                    assert(b.subrange(p1 as int, p1 + enc_bytes(v.proof).len()) == enc_bytes(v.proof));
                }
            }
            return None;
        },
    };
    proof {
        assert forall|v: ProofView| #[trigger] enc_proof(v) == b implies p2 == proof_e2(v) && proof_bytes@ == v.proof by {
            assert(b.subrange(p1 as int, p1 + enc_bytes(v.proof).len()) == enc_bytes(v.proof));
        }
    }
    let (height, p3) = match get_u64(bytes, p2) {
        Some(r) => r,
        None => {
            proof {
                assert forall|v: ProofView| #[trigger] enc_proof(v) == b implies false by {
                    assert(b.subrange(p2 as int, p2 + 8) == enc_u64(v.block_height));
                }
            }
            return None;
        },
    };
    proof {
        assert forall|v: ProofView| #[trigger] enc_proof(v) == b implies height == v.block_height by {
            assert(b.subrange(p2 as int, p2 + 8) == enc_u64(v.block_height));
        }
    }
    let (tx_index, p4) = match get_index(bytes, p3) {
        Some(r) => r,
        None => {
            proof {
                assert forall|v: ProofView| #[trigger] enc_proof(v) == b implies false by {
                    assert(b.subrange(p3 as int, p3 + 8) == enc_u64(v.tx_index as u64));
                }
            }
            return None;
        },
    };
    proof {
        assert forall|v: ProofView| #[trigger] enc_proof(v) == b implies tx_index == v.tx_index by {
            assert(b.subrange(p3 as int, p3 + 8) == enc_u64(v.tx_index as u64));
        }
    }
    let (tx_hash, p5) = match get_str(bytes, p4) {
        Some(r) => r,
        None => {
            proof {
                assert forall|v: ProofView| #[trigger] enc_proof(v) == b implies false by {
                    assert(b.subrange(p4 as int, p4 + enc_str(v.tx_hash).len()) == enc_str(v.tx_hash));
                }
            }
            return None;
        },
    };
    proof {
        assert forall|v: ProofView| #[trigger] enc_proof(v) == b implies p5 == b.len() && tx_hash@ == v.tx_hash by {
            assert(b.subrange(p4 as int, p4 + enc_str(v.tx_hash).len()) == enc_str(v.tx_hash));
        }
    }
    if p5 != bytes.len() {
        return None;
    }
    let r = Proof { blobs_references: refs, proof: proof_bytes, block_height: BlockHeight(height), tx_index, tx_hash };
    proof {
        assert(b =~= b.subrange(0, p1 as int) + b.subrange(p1 as int, p2 as int) + b.subrange(p2 as int, p3 as int)
            + b.subrange(p3 as int, p4 as int) + b.subrange(p4 as int, p5 as int));
        assert(enc_proof(r@) =~= b);
    }
    Some(r)
}

} // verus!

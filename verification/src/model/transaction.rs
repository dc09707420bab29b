//! Transactions and their blobs.

use crate::model::{BlobIndex, ContractName, Identity, StateDigest, TxHash};
use vstd::prelude::*;

verus! {

/// The bytes a blob carries for its contract.
#[derive(Debug, Clone, Default, PartialEq, Eq, Hash)]
pub struct BlobData(pub Vec<u8>);

/// Data addressed to a contract.
#[derive(Debug, Clone, Default, PartialEq, Eq, Hash)]
pub struct Blob {
    pub contract_name: ContractName,
    pub data: BlobData,
}

/// Who pays the fees of a blob transaction, and the blobs that pay them.
#[derive(Debug, Clone, Default, PartialEq, Eq)]
pub struct Fees {
    pub identity: Identity,
    pub blobs: Vec<Blob>,
}

/// A transaction carrying blobs for contracts, to be proven later.
#[derive(Debug, Clone, Default, PartialEq, Eq)]
pub struct BlobTransaction {
    pub identity: Identity,
    pub fees: Fees,
    pub blobs: Vec<Blob>,
}

/// A blob proven by a proof transaction.
#[derive(Debug, Clone, Default, PartialEq, Eq)]
pub struct BlobReference {
    pub contract_name: ContractName,
    pub blob_tx_hash: TxHash,
    pub blob_index: BlobIndex,
}

/// A proof of some blobs.
#[derive(Debug, Clone, Default, PartialEq, Eq)]
pub struct ProofTransaction {
    pub blobs_references: Vec<BlobReference>,
    pub proof: Vec<u8>,
}

/// The registration of a contract.
#[derive(Debug, Clone, Default, PartialEq, Eq)]
pub struct RegisterContractTransaction {
    pub owner: String,
    pub verifier: String,
    pub program_id: Vec<u8>,
    pub state_digest: StateDigest,
    pub contract_name: ContractName,
}

/// What a transaction does.
#[derive(Debug, Clone, PartialEq, Eq)]
pub enum TransactionData {
    Blob(BlobTransaction),
    Proof(ProofTransaction),
    RegisterContract(RegisterContractTransaction),
    /// A staking action, as its encoded bytes.
    Stake(Vec<u8>),
}

/// A transaction.
#[derive(Debug, Clone, PartialEq, Eq)]
pub struct Transaction {
    pub version: u32,
    pub transaction_data: TransactionData,
}

} // verus!

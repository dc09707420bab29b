//! Data proposals of the mempool.

use crate::model::crypto::AggregateSignature;
use crate::model::transaction::Transaction;
use crate::model::ValidatorPublicKey;
use vstd::prelude::*;

verus! {

/// Hash of a data proposal, as a hex string.
#[derive(Debug, Clone, Default, PartialEq, Eq, Hash)]
pub struct DataProposalHash(pub String);

impl View for DataProposalHash {
    type V = Seq<char>;

    open spec fn view(&self) -> Seq<char> {
        self.0@
    }
}

impl DataProposalHash {
    pub fn copy(&self) -> (res: DataProposalHash)
        ensures
            res@ == self@,
    {
        DataProposalHash(self.0.clone())
    }
}

/// A batch of transactions proposed on a validator's lane, chained to the
/// previous proposal of that lane.
#[derive(Debug, Clone, Default)]
pub struct DataProposal {
    pub id: u32,
    pub parent_data_proposal_hash: Option<DataProposalHash>,
    pub txs: Vec<Transaction>,
}

/// Proof of data availability: the signatures gathered on a proposal.
pub type PoDA = AggregateSignature;

/// For each lane, the last proposal committed and its proof of availability.
pub type Cut = Vec<(ValidatorPublicKey, DataProposalHash, PoDA)>;

} // verus!

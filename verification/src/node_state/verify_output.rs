//! The check of a proof's output against the blob transaction it claims to
//! prove, made when the proof arrives: before any settlement, so it relies
//! on nothing but the transaction and the output.
//!
//! A blob whose data is a structured contract registration or deletion
//! carries that action (`UnsettledBlobMetadata::action`), as its data
//! decodes; the proof's first onchain effect must then be that same action.

use crate::model::transaction::Blob;
use crate::model::{ContractName, Identity, TxHash};
use crate::node_state::settlement::{
    bytes_equal, metas, BlobAction, BlobMeta, HyleOutput, OnchainEffect, RegisterContractEffect, TxContext, UnsettledBlobMetadata,
};
use vstd::prelude::*;

verus! {

/// A blob transaction waiting for proofs.
#[derive(Debug, Clone)]
pub struct UnsettledBlobTransaction {
    pub identity: Identity,
    pub parent_dp_hash: String,
    pub hash: TxHash,
    pub tx_context: TxContext,
    pub blobs: Vec<UnsettledBlobMetadata>,
}

/// An unsettled blob transaction, as plain values.
pub ghost struct TxV {
    pub identity: Seq<char>,
    pub parent: Seq<char>,
    pub hash: Seq<char>,
    pub ctx: TxContext,
    pub blobs: Seq<BlobMeta>,
}

impl View for UnsettledBlobTransaction {
    type V = TxV;

    open spec fn view(&self) -> TxV {
        TxV {
            identity: self.identity@,
            parent: self.parent_dp_hash@,
            hash: self.hash@,
            ctx: self.tx_context,
            blobs: metas(self.blobs@),
        }
    }
}

/// Why a proof's output does not fit the transaction.
#[derive(Debug, Clone, Copy, PartialEq, Eq, Structural)]
pub enum VerifyError {
    IdentityMismatch,
    TxHashMismatch,
    TxContextMismatch,
    BlobsMismatch,
    BlobIndexOutOfBounds,
    NoOnchainEffect,
    EffectMismatch,
    WrongEffectKind,
}

/// Two contexts are the same.
pub open spec fn same_context(a: TxContext, b: TxContext) -> bool {
    &&& a.lane_id@ == b.lane_id@
    &&& a.block_hash@ == b.block_hash@
    &&& a.block_height == b.block_height
    &&& a.timestamp == b.timestamp
    &&& a.chain_id == b.chain_id
}

/// Two blobs are the same.
pub open spec fn same_blob(a: Blob, b: Blob) -> bool {
    a.contract_name@ == b.contract_name@ && a.data.0@ == b.data.0@
}

/// Two registrations are the same.
pub open spec fn same_registration(a: RegisterContractEffect, b: RegisterContractEffect) -> bool {
    &&& a.verifier@ == b.verifier@
    &&& a.program_id@ == b.program_id@
    &&& a.state_commitment@ == b.state_commitment@
    &&& a.contract_name@ == b.contract_name@
    &&& a.timeout_window == b.timeout_window
}

/// Every blob the output saw is the blob of the transaction at that index.
pub open spec fn blobs_included(tx: TxV, out: HyleOutput) -> bool {
    forall|i: int| 0 <= i < out.blobs@.len() ==> {
        let (bi, b) = #[trigger] out.blobs@[i];
        bi.0 < tx.blobs.len() && same_blob(tx.blobs[bi.0 as int].blob, b)
    }
}

/// The first onchain effect of the output matches the action of the blob.
pub open spec fn spec_action_check(out: HyleOutput, action: Option<BlobAction>) -> Result<(), VerifyError> {
    match action {
        None => Ok(()),
        Some(a) => if out.onchain_effects@.len() == 0 {
            Err(VerifyError::NoOnchainEffect)
        } else {
            match (a, out.onchain_effects@[0]) {
                (BlobAction::RegisterContract(p), OnchainEffect::RegisterContract(e)) => if same_registration(e, p) {
                    Ok(())
                } else {
                    Err(VerifyError::EffectMismatch)
                },
                (BlobAction::DeleteContract(n), OnchainEffect::DeleteContract(m)) => if m@ == n@ {
                    Ok(())
                } else {
                    Err(VerifyError::EffectMismatch)
                },
                _ => Err(VerifyError::WrongEffectKind),
            }
        },
    }
}

/// The outcome of checking the output `out` against the transaction `tx`:
/// identity, transaction hash, context (when the output gives one), the
/// blobs the output saw, the blob index, then the action, in that order.
pub open spec fn spec_verify_hyle_output(tx: TxV, out: HyleOutput) -> Result<(), VerifyError> {
    if tx.identity != out.identity@ {
        Err(VerifyError::IdentityMismatch)
    } else if out.tx_hash@ != tx.hash {
        Err(VerifyError::TxHashMismatch)
    } else if out.tx_ctx matches Some(c) && !same_context(c, tx.ctx) {
        Err(VerifyError::TxContextMismatch)
    } else if !blobs_included(tx, out) {
        Err(VerifyError::BlobsMismatch)
    } else if out.index.0 >= tx.blobs.len() {
        Err(VerifyError::BlobIndexOutOfBounds)
    } else {
        spec_action_check(out, tx.blobs[out.index.0 as int].action)
    }
}

fn strings_equal(a: &String, b: &String) -> (res: bool)
    ensures
        res == (a@ == b@),
{
    *a == *b
}

fn same_context_exec(a: &TxContext, b: &TxContext) -> (res: bool)
    ensures
        res == same_context(*a, *b),
{
    strings_equal(&a.lane_id, &b.lane_id) && strings_equal(&a.block_hash, &b.block_hash)
        && a.block_height.0 == b.block_height.0 && a.timestamp == b.timestamp && a.chain_id == b.chain_id
}

fn same_blob_exec(a: &Blob, b: &Blob) -> (res: bool)
    ensures
        res == same_blob(*a, *b),
{
    strings_equal(&a.contract_name.0, &b.contract_name.0) && bytes_equal(&a.data.0, &b.data.0)
}

fn same_registration_exec(a: &RegisterContractEffect, b: &RegisterContractEffect) -> (res: bool)
    ensures
        res == same_registration(*a, *b),
{
    strings_equal(&a.verifier.0, &b.verifier.0) && bytes_equal(&a.program_id.0, &b.program_id.0)
        && bytes_equal(&a.state_commitment.0, &b.state_commitment.0)
        && strings_equal(&a.contract_name.0, &b.contract_name.0) && a.timeout_window == b.timeout_window
}

fn blobs_included_exec(tx: &UnsettledBlobTransaction, out: &HyleOutput) -> (res: bool)
    ensures
        res == blobs_included(tx@, *out),
{
    let mut i: usize = 0;
    while i < out.blobs.len()
        invariant
            i <= out.blobs@.len(),
            forall|j: int| 0 <= j < i ==> {
                let (bi, b) = #[trigger] out.blobs@[j];
                bi.0 < tx@.blobs.len() && same_blob(tx@.blobs[bi.0 as int].blob, b)
            },
        decreases out.blobs@.len() - i,
    {
        let entry = &out.blobs[i];
        if entry.0.0 >= tx.blobs.len() {
            return false;
        }
        assert(tx@.blobs[entry.0.0 as int] == tx.blobs@[entry.0.0 as int]@);
        if !same_blob_exec(&tx.blobs[entry.0.0].blob, &entry.1) {
            return false;
        }
        i = i + 1;
    }
    true
}

/// Checks the output `out` of a proof against the transaction `tx`.
pub fn verify_hyle_output(tx: &UnsettledBlobTransaction, out: &HyleOutput) -> (res: Result<(), VerifyError>)
    ensures
        res == spec_verify_hyle_output(tx@, *out),
{
    if !strings_equal(&tx.identity.0, &out.identity.0) {
        return Err(VerifyError::IdentityMismatch);
    }
    if !strings_equal(&out.tx_hash.0, &tx.hash.0) {
        return Err(VerifyError::TxHashMismatch);
    }
    match &out.tx_ctx {
        Some(c) => {
            if !same_context_exec(c, &tx.tx_context) {
                return Err(VerifyError::TxContextMismatch);
            }
        },
        None => {},
    }
    if !blobs_included_exec(tx, out) {
        return Err(VerifyError::BlobsMismatch);
    }
    if out.index.0 >= tx.blobs.len() {
        return Err(VerifyError::BlobIndexOutOfBounds);
    }
    assert(tx@.blobs[out.index.0 as int] == tx.blobs@[out.index.0 as int]@);
    match &tx.blobs[out.index.0].action {
        None => Ok(()),
        Some(a) => {
            if out.onchain_effects.len() == 0 {
                return Err(VerifyError::NoOnchainEffect);
            }
            match (a, &out.onchain_effects[0]) {
                (BlobAction::RegisterContract(p), OnchainEffect::RegisterContract(e)) => {
                    if same_registration_exec(e, p) {
                        Ok(())
                    } else {
                        Err(VerifyError::EffectMismatch)
                    }
                },
                (BlobAction::DeleteContract(n), OnchainEffect::DeleteContract(m)) => {
                    if strings_equal(&m.0, &n.0) {
                        Ok(())
                    } else {
                        Err(VerifyError::EffectMismatch)
                    }
                },
                _ => Err(VerifyError::WrongEffectKind),
            }
        },
    }
}

/// An output accepted for a blob that holds a contract action carries that
/// same action as its first on-chain effect: a registration equal in every
/// field (verifier, program id, state, name, timeout window), or a deletion
/// of the same contract. Its blob index is one of the transaction's, and
/// it names the transaction's identity and hash, its context when it gives
/// one, and only blobs of the transaction at their own indices.
pub proof fn lemma_accepted_output_carries_the_blob_action(tx: TxV, out: HyleOutput)
    requires
        spec_verify_hyle_output(tx, out) is Ok,
    ensures
        out.identity@ == tx.identity,
        out.tx_hash@ == tx.hash,
        out.tx_ctx matches Some(c) ==> c.lane_id@ == tx.ctx.lane_id@ && c.block_hash@ == tx.ctx.block_hash@
            && c.block_height == tx.ctx.block_height && c.timestamp == tx.ctx.timestamp && c.chain_id == tx.ctx.chain_id,
        forall|i: int| 0 <= i < out.blobs@.len() ==> (#[trigger] out.blobs@[i]).0 .0 < tx.blobs.len()
            && tx.blobs[out.blobs@[i].0 .0 as int].blob.contract_name@ == out.blobs@[i].1.contract_name@
            && tx.blobs[out.blobs@[i].0 .0 as int].blob.data.0@ == out.blobs@[i].1.data.0@,
        out.index.0 < tx.blobs.len(),
        match tx.blobs[out.index.0 as int].action {
            None => true,
            Some(BlobAction::RegisterContract(p)) => out.onchain_effects@.len() > 0 && match out.onchain_effects@[0] {
                OnchainEffect::RegisterContract(e) => {
                    &&& e.verifier@ == p.verifier@
                    &&& e.program_id@ == p.program_id@
                    &&& e.state_commitment@ == p.state_commitment@
                    &&& e.contract_name@ == p.contract_name@
                    &&& e.timeout_window == p.timeout_window
                },
                OnchainEffect::DeleteContract(_) => false,
            },
            Some(BlobAction::DeleteContract(n)) => out.onchain_effects@.len() > 0 && match out.onchain_effects@[0] {
                OnchainEffect::DeleteContract(m) => m@ == n@,
                OnchainEffect::RegisterContract(_) => false,
            },
        },
{
}

} // verus!

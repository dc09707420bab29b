use hyle::model::transaction::{Blob, BlobData};
use hyle::model::{BlobIndex, BlockHeight, ContractName, Identity, ProgramId, StateDigest, TxHash, Verifier};
use hyle::node_state::settlement::{
    BlobAction, HyleOutput, OnchainEffect, RegisterContractEffect, TxContext, UnsettledBlobMetadata,
};
use hyle::node_state::verify_output::{verify_hyle_output, UnsettledBlobTransaction, VerifyError};

fn ctx(height: u64) -> TxContext {
    TxContext {
        lane_id: "lane".to_string(),
        block_hash: "bh".to_string(),
        block_height: BlockHeight(height),
        timestamp: 7,
        chain_id: 1,
    }
}

fn blob(name: &str, data: Vec<u8>) -> Blob {
    Blob { contract_name: ContractName::new(name), data: BlobData(data) }
}

fn tx() -> UnsettledBlobTransaction {
    tx_with(None)
}

fn tx_with(action: Option<BlobAction>) -> UnsettledBlobTransaction {
    UnsettledBlobTransaction {
        identity: Identity::new("alice"),
        parent_dp_hash: "dp".to_string(),
        hash: TxHash::new("tx"),
        tx_context: ctx(3),
        blobs: vec![
            UnsettledBlobMetadata { blob: blob("hyle", vec![1]), possible_proofs: vec![], action: None },
            UnsettledBlobMetadata { blob: blob("c1", vec![2]), possible_proofs: vec![], action },
        ],
    }
}

fn registration(name: &str) -> RegisterContractEffect {
    RegisterContractEffect {
        verifier: Verifier("test".to_string()),
        program_id: ProgramId(vec![]),
        state_commitment: StateDigest(vec![0]),
        contract_name: ContractName::new(name),
        timeout_window: None,
    }
}

fn output() -> HyleOutput {
    HyleOutput {
        version: 1,
        initial_state: StateDigest(vec![]),
        next_state: StateDigest(vec![]),
        identity: Identity::new("alice"),
        index: BlobIndex(1),
        success: true,
        tx_hash: TxHash::new("tx"),
        state_reads: vec![],
        onchain_effects: vec![],
        program_outputs: vec![],
        tx_ctx: Some(ctx(3)),
        blobs: vec![(BlobIndex(1), blob("c1", vec![2]))],
    }
}

#[test]
fn a_fitting_output_is_accepted() {
    assert_eq!(verify_hyle_output(&tx(), &output()), Ok(()));
}

#[test]
fn each_mismatch_has_its_error() {
    let mut o = output();
    o.identity = Identity::new("bob");
    assert_eq!(verify_hyle_output(&tx(), &o), Err(VerifyError::IdentityMismatch));
    let mut o = output();
    o.tx_hash = TxHash::new("other");
    assert_eq!(verify_hyle_output(&tx(), &o), Err(VerifyError::TxHashMismatch));
    let mut o = output();
    o.tx_ctx = Some(ctx(4));
    assert_eq!(verify_hyle_output(&tx(), &o), Err(VerifyError::TxContextMismatch));
    let mut o = output();
    o.tx_ctx = None;
    assert_eq!(verify_hyle_output(&tx(), &o), Ok(()));
    let mut o = output();
    o.blobs = vec![(BlobIndex(1), blob("c1", vec![9]))];
    assert_eq!(verify_hyle_output(&tx(), &o), Err(VerifyError::BlobsMismatch));
    let mut o = output();
    o.index = BlobIndex(2);
    assert_eq!(verify_hyle_output(&tx(), &o), Err(VerifyError::BlobIndexOutOfBounds));
}

#[test]
fn a_contract_action_needs_the_same_first_effect() {
    let t = tx_with(Some(BlobAction::RegisterContract(registration("c2"))));
    assert_eq!(verify_hyle_output(&t, &output()), Err(VerifyError::NoOnchainEffect));
    let mut o = output();
    o.onchain_effects = vec![OnchainEffect::RegisterContract(registration("c2"))];
    assert_eq!(verify_hyle_output(&t, &o), Ok(()));
    o.onchain_effects = vec![OnchainEffect::RegisterContract(registration("c3"))];
    assert_eq!(verify_hyle_output(&t, &o), Err(VerifyError::EffectMismatch));
    o.onchain_effects = vec![OnchainEffect::DeleteContract(ContractName::new("c2"))];
    assert_eq!(verify_hyle_output(&t, &o), Err(VerifyError::WrongEffectKind));
    let t = tx_with(Some(BlobAction::DeleteContract(ContractName::new("c2"))));
    assert_eq!(verify_hyle_output(&t, &o), Ok(()));
}

use hyle::mempool::lanes::{CanBePutOnTop, Lane, LanesStorage};
use hyle::model::mempool::DataProposalHash;
use hyle::model::transaction::{Blob, BlobData};
use hyle::model::{BlobIndex, BlockHeight, ContractName, Identity, ProgramId, StateDigest, TxHash, Verifier};
use hyle::node_state::block::{TransactionStateEvent, TxError};
use hyle::node_state::settlement::{BlobAction, HyleOutput, RegisterContractEffect, SettleError, TimeoutWindow, TxContext};
use hyle::node_state::state::{
    BlobInput, BlobProofOutput, BlobTx, BlobTxHandled, Block, BlockTx, NodeState, SignedBlock, TxData,
};

fn new_blob(contract: &str) -> BlobInput {
    BlobInput {
        blob: Blob { contract_name: ContractName::new(contract), data: BlobData(vec![0, 1, 2, 3]) },
        action: None,
        native_output: None,
    }
}

fn register_blob(name: &str) -> BlobInput {
    let effect = RegisterContractEffect {
        verifier: Verifier("test".to_string()),
        program_id: ProgramId(vec![]),
        state_commitment: StateDigest(vec![0, 1, 2, 3]),
        contract_name: ContractName::new(name),
        timeout_window: None,
    };
    BlobInput {
        blob: Blob { contract_name: ContractName::new("hyle"), data: BlobData(vec![]) },
        action: Some(BlobAction::RegisterContract(effect)),
        native_output: None,
    }
}

fn blob_tx(identity: &str, blobs: Vec<BlobInput>) -> BlobTx {
    BlobTx { identity: Identity::new(identity), identity_valid: identity.contains('@'), blobs }
}

fn entry(hash: &str, data: TxData) -> BlockTx {
    BlockTx { lane_id: "lane".to_string(), dp_hash: "dp".to_string(), tx_hash: TxHash::new(hash), data }
}

fn signed_block(height: u64, txs: Vec<BlockTx>) -> SignedBlock {
    SignedBlock {
        height: BlockHeight(height),
        hash: format!("block{height}"),
        parent_hash: String::new(),
        timestamp: 0,
        chain_id: 0,
        txs,
    }
}

fn bogus_tx_context() -> TxContext {
    TxContext {
        lane_id: String::new(),
        block_hash: "0xfedbeef".to_string(),
        block_height: BlockHeight(133),
        timestamp: 0,
        chain_id: 0,
    }
}

fn events_of(block: &Block, hash: &str) -> Vec<TransactionStateEvent> {
    block
        .settled
        .transactions_events
        .iter()
        .filter(|(h, _)| h.0 == hash)
        .map(|(_, e)| e.clone())
        .collect()
}

fn is_unsettled(state: &NodeState, hash: &str) -> bool {
    state.unsettled_transactions.iter().any(|t| t.hash.0 == hash)
}

#[test]
fn blob_tx_without_blobs() {
    let mut state = NodeState::new();
    let tx = blob_tx("test@c1", vec![]);
    let res = state.handle_blob_tx(String::new(), TxHash::new("t"), tx, bogus_tx_context());
    assert!(matches!(res, Err(TxError::NoBlobs)));
}

#[test]
fn blob_tx_with_incorrect_identity() {
    let mut state = NodeState::new();
    let tx = blob_tx("incorrect_id", vec![new_blob("test")]);
    let res = state.handle_blob_tx(String::new(), TxHash::new("t"), tx, bogus_tx_context());
    assert!(matches!(res, Err(TxError::InvalidIdentity)));
}

#[test]
fn test_tx_timeout_simple() {
    let mut state = NodeState::new();
    let register_c1 = entry("reg", TxData::Blob(blob_tx("hyle@hyle", vec![register_blob("c1")])));
    let tx = entry("tx", TxData::Blob(blob_tx("test@c1", vec![new_blob("c1"), new_blob("c1")])));
    let first = state.handle_signed_block(signed_block(3, vec![register_c1, tx]));
    assert_eq!(first.settled.successful_txs, vec![TxHash::new("reg")]);
    assert_eq!(first.txs, vec![("dp".to_string(), TxHash::new("reg")), ("dp".to_string(), TxHash::new("tx"))]);
    assert!(state.contracts.contains_key(&"c1".to_string()));
    assert!(is_unsettled(&state, "tx"));
    assert_eq!(events_of(&first, "tx"), vec![TransactionStateEvent::Sequenced]);

    let later = state.handle_signed_block(signed_block(103, vec![]));
    assert!(later.timed_out_txs.contains(&TxHash::new("tx")));
    assert!(!is_unsettled(&state, "tx"));
    assert_eq!(events_of(&later, "tx"), vec![TransactionStateEvent::TimedOut]);
    assert_eq!(state.current_height, BlockHeight(103));
}

#[test]
fn a_new_node_knows_only_hyle() {
    let state = NodeState::new();
    assert_eq!(state.current_height, BlockHeight(0));
    assert_eq!(state.contracts.len(), 1);
    assert!(state.contracts.contains_key(&"hyle".to_string()));
    assert!(state.unsettled_transactions.is_empty());
}

#[test]
fn a_duplicate_blob_tx_is_ignored() {
    let mut state = NodeState::new();
    let first = state.handle_blob_tx(String::new(), TxHash::new("t"), blob_tx("a@c1", vec![new_blob("c1")]), bogus_tx_context());
    assert!(matches!(first, Ok(BlobTxHandled::Sequenced)));
    let again = state.handle_blob_tx(String::new(), TxHash::new("t"), blob_tx("a@c1", vec![new_blob("c1")]), bogus_tx_context());
    assert!(matches!(again, Ok(BlobTxHandled::Duplicate)));
    assert_eq!(state.unsettled_transactions.len(), 1);
}

#[test]
fn refused_transactions_are_listed_as_failed() {
    let mut state = NodeState::new();
    let bad = entry("bad", TxData::Blob(blob_tx("nobody", vec![new_blob("c1")])));
    let block = state.handle_signed_block(signed_block(1, vec![bad]));
    assert_eq!(block.settled.failed_txs, vec![TxHash::new("bad")]);
    assert_eq!(events_of(&block, "bad"), vec![TransactionStateEvent::Error(TxError::InvalidIdentity)]);
    assert_eq!(block.txs, vec![("dp".to_string(), TxHash::new("bad"))]);
}

#[test]
fn a_proof_for_an_unknown_transaction_is_an_error() {
    let mut state = NodeState::new();
    let out = HyleOutput {
        version: 1,
        initial_state: StateDigest(vec![]),
        next_state: StateDigest(vec![]),
        identity: Identity::new("a@c1"),
        index: BlobIndex(0),
        success: true,
        tx_hash: TxHash::new("missing"),
        state_reads: vec![],
        onchain_effects: vec![],
        program_outputs: vec![],
        tx_ctx: None,
        blobs: vec![],
    };
    let proof = BlobProofOutput { blob_tx_hash: TxHash::new("missing"), program_id: ProgramId(vec![]), hyle_output: out };
    let block = state.handle_signed_block(signed_block(1, vec![entry("p", TxData::VerifiedProof(vec![proof]))]));
    assert_eq!(events_of(&block, "p"), vec![TransactionStateEvent::Error(TxError::BlobTxNotFound)]);
    assert!(block.settled.failed_txs.is_empty());
}

#[test]
fn a_tx_waiting_for_a_proof_is_sequenced() {
    let mut state = NodeState::new();
    let tx = entry("h", TxData::Blob(blob_tx("a@hyle", vec![register_blob("c9"), new_blob("c9")])));
    let block = state.handle_signed_block(signed_block(1, vec![tx]));
    // The blob for c9 waits for a proof, so nothing settles yet.
    assert_eq!(events_of(&block, "h"), vec![TransactionStateEvent::Sequenced]);
    assert!(is_unsettled(&state, "h"));
    assert!(!events_of(&block, "h").contains(&TransactionStateEvent::SettleFailed(SettleError::NotReady)));
}

#[test]
fn lane_cleanup_removes_the_proposals_after_the_previous_cut() {
    let mut lane = Lane::new();
    for (h, s) in [("a", 1u64), ("b", 2), ("c", 3)] {
        lane.put_no_verification(DataProposalHash(h.to_string()), s);
    }
    lane.update_lane_tip(DataProposalHash("c".to_string()), 3);
    lane.clean_and_update(Some(&DataProposalHash("a".to_string())), &DataProposalHash("x".to_string()), 9);
    assert_eq!(lane.entries, vec![(DataProposalHash("a".to_string()), 1)]);
    assert_eq!(lane.tip, Some((DataProposalHash("x".to_string()), 9)));
}

#[test]
fn lane_cleanup_keeps_a_lane_already_at_the_new_cut() {
    let mut storage = LanesStorage::new();
    let mut lane = Lane::new();
    lane.put_no_verification(DataProposalHash("a".to_string()), 1);
    lane.put_no_verification(DataProposalHash("b".to_string()), 2);
    lane.update_lane_tip(DataProposalHash("b".to_string()), 2);
    storage.lanes.insert("v1".to_string(), lane);
    storage.clean_and_update_lane(&"v1".to_string(), None, &DataProposalHash("b".to_string()), 2);
    let lane = storage.lanes.get(&"v1".to_string()).unwrap();
    assert_eq!(lane.entries.len(), 2);
    assert_eq!(lane.tip, Some((DataProposalHash("b".to_string()), 2)));
}

#[test]
fn proposals_are_put_on_top_forked_or_refused() {
    let mut lane = Lane::new();
    lane.put_no_verification(DataProposalHash("a".to_string()), 1);
    lane.put_no_verification(DataProposalHash("b".to_string()), 2);
    lane.update_lane_tip(DataProposalHash("b".to_string()), 2);
    assert_eq!(lane.can_be_put_on_top(Some(&DataProposalHash("b".to_string()))), CanBePutOnTop::Yes);
    assert_eq!(lane.can_be_put_on_top(Some(&DataProposalHash("a".to_string()))), CanBePutOnTop::Fork);
    assert_eq!(lane.can_be_put_on_top(Some(&DataProposalHash("z".to_string()))), CanBePutOnTop::No);
    assert_eq!(lane.can_be_put_on_top(None), CanBePutOnTop::Fork);
    assert_eq!(Lane::new().can_be_put_on_top(None), CanBePutOnTop::Yes);
}

#[test]
fn a_proven_blob_tx_settles_and_moves_the_contract_state() {
    let mut state = NodeState::new();
    let register_c1 = entry("reg", TxData::Blob(blob_tx("hyle@hyle", vec![register_blob("c1")])));
    let tx = entry("tx", TxData::Blob(blob_tx("bob@c1", vec![new_blob("c1")])));
    state.handle_signed_block(signed_block(1, vec![register_c1, tx]));
    assert!(is_unsettled(&state, "tx"));

    let out = HyleOutput {
        version: 1,
        initial_state: StateDigest(vec![0, 1, 2, 3]),
        next_state: StateDigest(vec![4, 5]),
        identity: Identity::new("bob@c1"),
        index: BlobIndex(0),
        success: true,
        tx_hash: TxHash::new("tx"),
        state_reads: vec![],
        onchain_effects: vec![],
        program_outputs: vec![],
        tx_ctx: None,
        blobs: vec![(BlobIndex(0), Blob { contract_name: ContractName::new("c1"), data: BlobData(vec![0, 1, 2, 3]) })],
    };
    let proof = BlobProofOutput { blob_tx_hash: TxHash::new("tx"), program_id: ProgramId(vec![]), hyle_output: out };
    let block = state.handle_signed_block(signed_block(2, vec![entry("proof", TxData::VerifiedProof(vec![proof]))]));
    assert_eq!(
        events_of(&block, "tx"),
        vec![
            TransactionStateEvent::NewProof { blob_index: 0, proof_tx_hash: TxHash::new("proof") },
            TransactionStateEvent::Settled,
        ]
    );
    assert_eq!(block.settled.successful_txs, vec![TxHash::new("tx")]);
    assert_eq!(block.settled.verified_blobs, vec![(TxHash::new("tx"), 0, Some(0))]);
    assert_eq!(block.blob_proof_outputs.len(), 1);
    assert_eq!(block.blob_proof_outputs[0].blob_proof_output_index, 0);
    assert!(!is_unsettled(&state, "tx"));
    assert_eq!(state.contracts.get(&"c1".to_string()).unwrap().state, StateDigest(vec![4, 5]));
    assert_eq!(block.lane_ids.get(&"tx".to_string()), Some(&"lane".to_string()));
}

use hyle::indexer::block_rows::{
    block_rows, BlockTx, HandledProofOutput, IndexError, ProcessedBlock, TransactionKind, TransactionStatus,
};
use hyle::model::{ContractName, ProgramId, StateDigest, TxHash, Verifier};
use hyle::node_state::settlement::RegisterContractEffect;
use hyle::str_map::StrMap;

fn tx(hash: &str, version: u32, kind: TransactionKind) -> BlockTx {
    BlockTx { parent_dp_hash: format!("dp-{hash}"), tx_hash: TxHash::new(hash), version, kind }
}

fn block() -> ProcessedBlock {
    let mut lane_ids = StrMap::new();
    lane_ids.insert("b1".to_string(), "lane-a".to_string());
    lane_ids.insert("p1".to_string(), "lane-b".to_string());
    let mut dp_parent_hashes = StrMap::new();
    dp_parent_hashes.insert("b1".to_string(), "dp-b1".to_string());
    dp_parent_hashes.insert("p1".to_string(), "dp-p1".to_string());
    dp_parent_hashes.insert("old".to_string(), "dp-old".to_string());
    ProcessedBlock {
        hash: "block12".to_string(),
        height: 12,
        txs: vec![tx("b1", 1, TransactionKind::Blob), tx("p1", 1, TransactionKind::Proof)],
        lane_ids,
        dp_parent_hashes,
        event_txs: vec![TxHash::new("b1")],
        successful_txs: vec![TxHash::new("b1")],
        failed_txs: vec![],
        timed_out_txs: vec![TxHash::new("old")],
        blob_proof_outputs: vec![HandledProofOutput {
            proof_tx_hash: TxHash::new("p1"),
            blob_tx_hash: TxHash::new("b1"),
            blob_index: 0,
            blob_proof_output_index: 0,
            contract_name: ContractName::new("c1"),
        }],
        verified_blobs: vec![(TxHash::new("b1"), 0, Some(0))],
        registered_contracts: vec![(
            TxHash::new("b1"),
            RegisterContractEffect {
                verifier: Verifier("risc0".to_string()),
                program_id: ProgramId(vec![1]),
                state_commitment: StateDigest(vec![2]),
                contract_name: ContractName::new("c9"),
                timeout_window: None,
            },
        )],
        updated_states: vec![(ContractName::new("c1"), StateDigest(vec![7]))],
    }
}

#[test]
fn a_block_gives_its_rows() {
    let rows = block_rows(&block()).unwrap();
    assert_eq!(rows.height, 12);
    assert_eq!(rows.txs.len(), 2);
    assert_eq!(rows.txs[0].status, TransactionStatus::Sequenced);
    assert_eq!(rows.txs[0].lane_id, "lane-a");
    assert_eq!(rows.txs[1].status, TransactionStatus::Success);
    assert_eq!(rows.txs[1].index, 1);
    assert_eq!(rows.event_parents, vec!["dp-b1".to_string()]);
    assert_eq!(rows.status_updates.len(), 2);
    assert_eq!(rows.status_updates[0].status, TransactionStatus::Success);
    assert_eq!(rows.status_updates[1].status, TransactionStatus::TimedOut);
    assert_eq!(rows.status_updates[1].parent_dp_hash, "dp-old");
    assert_eq!(rows.proof_outputs[0].proof_parent_dp_hash, "dp-p1");
    assert_eq!(rows.proof_outputs[0].blob_parent_dp_hash, "dp-b1");
    assert_eq!(rows.verified_blobs[0].settled_output, Some(0));
    assert_eq!(rows.block_hash, "block12");
    assert_eq!(rows.txs[1].block_hash, "block12");
    assert_eq!(rows.txs[1].block_height, 12);
    assert_eq!(rows.contracts[0].contract_name, "c9");
    assert_eq!(rows.contracts[0].parent_dp_hash, "dp-b1");
    assert_eq!(rows.contracts[0].program_id, vec![1]);
    assert_eq!(rows.states[0].contract_name, "c1");
    assert_eq!(rows.states[0].state_commitment, vec![7]);
}

#[test]
fn a_registration_without_parent_is_refused() {
    let mut b = block();
    b.registered_contracts[0].0 = TxHash::new("zz");
    assert_eq!(block_rows(&b).unwrap_err(), IndexError::NoParentHash(TxHash::new("zz")));
}

#[test]
fn a_transaction_without_lane_is_refused() {
    let mut b = block();
    b.txs.push(tx("x", 1, TransactionKind::Blob));
    assert_eq!(block_rows(&b).unwrap_err(), IndexError::NoLaneId(TxHash::new("x")));
}

#[test]
fn a_version_too_large_is_refused_before_the_lane() {
    let mut b = block();
    b.txs.push(tx("x", u32::MAX, TransactionKind::Blob));
    assert_eq!(block_rows(&b).unwrap_err(), IndexError::VersionTooLarge(TxHash::new("x")));
}

#[test]
fn a_failed_transaction_without_parent_is_refused() {
    let mut b = block();
    b.failed_txs.push(TxHash::new("gone"));
    assert_eq!(block_rows(&b).unwrap_err(), IndexError::NoParentHash(TxHash::new("gone")));
}

#[test]
fn a_height_too_large_is_refused() {
    let mut b = block();
    b.height = u64::MAX;
    assert_eq!(block_rows(&b).unwrap_err(), IndexError::HeightTooLarge);
}

#[test]
fn an_index_too_large_is_refused() {
    let mut b = block();
    b.verified_blobs.push((TxHash::new("b1"), 1usize << 31, None));
    assert_eq!(block_rows(&b).unwrap_err(), IndexError::IndexTooLarge);
}

use hyle::model::transaction::{Blob, BlobData};
use hyle::model::{BlobIndex, BlockHeight, ContractName, Identity, ProgramId, StateDigest, TxHash, Verifier};
use hyle::node_state::settlement::{
    get_contract, get_tx_timeout_window, process_proof, try_to_settle_blob_tx, Contract,
    HyleOutput, OnchainEffect, ProofError, RegisterContractEffect, SettleError, SideEffect, TimeoutWindow,
    UnsettledBlobMetadata,
};
use hyle::model::BlobsHash;
use hyle::node_state::block::{on_settled_blob_tx, SettledBlock, TransactionStateEvent};
use hyle::node_state::model::{UnsettledBlobMetadata as QueuedBlob, UnsettledTransaction};
use hyle::node_state::ordered_tx_map::OrderedTxMap;
use hyle::node_state::settlement::SettlementResult;
use hyle::str_map::StrMap;

fn settle(
    contracts: &mut StrMap<Contract>,
    blobs: &Vec<UnsettledBlobMetadata>,
    res: SettlementResult,
) -> (SettledBlock, Option<Vec<BlobsHash>>) {
    let mut block = SettledBlock::new();
    let unsettled = OrderedTxMap::default();
    let next = on_settled_blob_tx(contracts, &unsettled, &mut block, TxHash::new("tx"), blobs, Ok(res));
    (block, next)
}

fn contract(name: &str, state: u8, window: TimeoutWindow) -> Contract {
    Contract {
        name: ContractName::new(name),
        program_id: ProgramId(vec![7]),
        state: StateDigest(vec![state]),
        verifier: Verifier("test".to_string()),
        timeout_window: window,
    }
}

fn output(initial: u8, next: u8, success: bool) -> HyleOutput {
    HyleOutput {
        version: 1,
        initial_state: StateDigest(vec![initial]),
        next_state: StateDigest(vec![next]),
        identity: Identity::new("alice"),
        index: BlobIndex(0),
        success,
        tx_hash: TxHash::new("tx"),
        state_reads: vec![],
        onchain_effects: vec![],
        program_outputs: vec![],
        tx_ctx: None,
        blobs: vec![],
    }
}

fn blob(name: &str, proofs: Vec<(ProgramId, HyleOutput)>) -> UnsettledBlobMetadata {
    UnsettledBlobMetadata {
        blob: Blob { contract_name: ContractName::new(name), data: BlobData(vec![]) },
        possible_proofs: proofs,
        action: None,
    }
}

fn registry() -> StrMap<Contract> {
    let mut m = StrMap::new();
    m.insert("c1".to_string(), contract("c1", 1, TimeoutWindow::Timeout(BlockHeight(50))));
    m.insert("c2".to_string(), contract("c2", 5, TimeoutWindow::NoTimeout));
    m
}

#[test]
fn settled_transaction_moves_the_contract_state() {
    let mut contracts = registry();
    let blobs = vec![blob("c1", vec![(ProgramId(vec![7]), output(1, 2, true))])];
    let res = try_to_settle_blob_tx(&contracts, &blobs).unwrap().unwrap();
    assert_eq!(res.blob_proof_output_indices, vec![0]);
    settle(&mut contracts, &blobs, res);
    assert_eq!(contracts.get(&"c1".to_string()).unwrap().state, StateDigest(vec![2]));
    assert_eq!(contracts.get(&"c2".to_string()).unwrap().state, StateDigest(vec![5]));
}

#[test]
fn unregistered_contract_cannot_settle() {
    let contracts = registry();
    let blobs = vec![blob("nope", vec![(ProgramId(vec![7]), output(1, 2, true))])];
    assert_eq!(try_to_settle_blob_tx(&contracts, &blobs).err(), Some(SettleError::UnregisteredContract));
}

#[test]
fn no_matching_proof_is_not_ready() {
    let contracts = registry();
    let blobs = vec![blob("c1", vec![(ProgramId(vec![7]), output(9, 2, true))])];
    assert_eq!(try_to_settle_blob_tx(&contracts, &blobs).err(), Some(SettleError::NotReady));
}

#[test]
fn failed_proof_settles_as_failure() {
    let contracts = registry();
    let blobs = vec![blob("c1", vec![(ProgramId(vec![7]), output(1, 2, false))])];
    assert!(try_to_settle_blob_tx(&contracts, &blobs).unwrap().is_err());
}

#[test]
fn later_proof_is_used_when_the_first_does_not_fit() {
    let contracts = registry();
    let blobs = vec![blob(
        "c1",
        vec![(ProgramId(vec![8]), output(1, 2, true)), (ProgramId(vec![7]), output(1, 3, true))],
    )];
    let res = try_to_settle_blob_tx(&contracts, &blobs).unwrap().unwrap();
    assert_eq!(res.blob_proof_output_indices, vec![1]);
}

#[test]
fn second_blob_sees_the_state_left_by_the_first() {
    let mut contracts = registry();
    let blobs = vec![
        blob("c1", vec![(ProgramId(vec![7]), output(1, 2, true))]),
        blob("c1", vec![(ProgramId(vec![7]), output(1, 9, true)), (ProgramId(vec![7]), output(2, 3, true))]),
    ];
    let res = try_to_settle_blob_tx(&contracts, &blobs).unwrap().unwrap();
    assert_eq!(res.blob_proof_output_indices, vec![0, 1]);
    settle(&mut contracts, &blobs, res);
    assert_eq!(contracts.get(&"c1".to_string()).unwrap().state, StateDigest(vec![3]));
}

#[test]
fn proof_errors_have_their_reasons() {
    let contracts = registry();
    let changes: StrMap<SideEffect> = StrMap::new();
    let name = ContractName::new("c1");
    assert_eq!(
        process_proof(&contracts, &changes, &name, &(ProgramId(vec![7]), output(4, 2, true))).err(),
        Some(ProofError::InitialStateMismatch)
    );
    assert_eq!(
        process_proof(&contracts, &changes, &name, &(ProgramId(vec![6]), output(1, 2, true))).err(),
        Some(ProofError::ProgramIdMismatch)
    );
    assert_eq!(
        process_proof(&contracts, &changes, &ContractName::new("zz"), &(ProgramId(vec![7]), output(1, 2, true))).err(),
        Some(ProofError::ContractNotFound)
    );
    let mut reads = output(1, 2, true);
    reads.state_reads = vec![(ContractName::new("c2"), StateDigest(vec![6]))];
    assert_eq!(
        process_proof(&contracts, &changes, &name, &(ProgramId(vec![7]), reads)).err(),
        Some(ProofError::StateReadMismatch)
    );
    let mut big = output(1, 2, true);
    big.next_state = StateDigest(vec![0; 10 * 1024 * 1024 + 1]);
    assert_eq!(
        process_proof(&contracts, &changes, &name, &(ProgramId(vec![7]), big)).err(),
        Some(ProofError::StateTooLong)
    );
    let mut reg = output(1, 2, true);
    reg.onchain_effects = vec![OnchainEffect::RegisterContract(RegisterContractEffect {
        verifier: Verifier("test".to_string()),
        program_id: ProgramId(vec![1]),
        state_commitment: StateDigest(vec![0]),
        contract_name: ContractName::new("other"),
        timeout_window: None,
    })];
    assert!(matches!(
        process_proof(&contracts, &changes, &name, &(ProgramId(vec![7]), reg)).err(),
        Some(ProofError::InvalidContractName(_))
    ));
}

#[test]
fn sub_contract_registration_is_applied() {
    let mut contracts = registry();
    let mut out = output(1, 2, true);
    out.onchain_effects = vec![OnchainEffect::RegisterContract(RegisterContractEffect {
        verifier: Verifier("test".to_string()),
        program_id: ProgramId(vec![1]),
        state_commitment: StateDigest(vec![0]),
        contract_name: ContractName::new("sub.c1"),
        timeout_window: None,
    })];
    let blobs = vec![blob("c1", vec![(ProgramId(vec![7]), out)])];
    let res = try_to_settle_blob_tx(&contracts, &blobs).unwrap().unwrap();
    settle(&mut contracts, &blobs, res);
    let sub = contracts.get(&"sub.c1".to_string()).unwrap();
    assert_eq!(sub.state, StateDigest(vec![0]));
    assert_eq!(sub.timeout_window, TimeoutWindow::Timeout(BlockHeight(50)));
}

#[test]
fn timeout_window_is_the_smallest_of_the_blobs() {
    let contracts = registry();
    let names = vec![
        Blob { contract_name: ContractName::new("c2"), data: BlobData(vec![]) },
        Blob { contract_name: ContractName::new("c1"), data: BlobData(vec![]) },
    ];
    let w = get_tx_timeout_window(&contracts, &names);
    assert_eq!(w, TimeoutWindow::Timeout(BlockHeight(50)));
    let only_c2 = vec![Blob { contract_name: ContractName::new("c2"), data: BlobData(vec![]) }];
    assert_eq!(get_tx_timeout_window(&contracts, &only_c2), TimeoutWindow::NoTimeout);
}

#[test]
fn pending_change_shadows_the_registry() {
    let contracts = registry();
    let mut changes: StrMap<SideEffect> = StrMap::new();
    changes.insert("c1".to_string(), SideEffect::UpdateState(contract("c1", 42, TimeoutWindow::NoTimeout)));
    changes.insert("c2".to_string(), SideEffect::Delete(ContractName::new("c2")));
    assert_eq!(get_contract(&contracts, &changes, &ContractName::new("c1")).unwrap().state, StateDigest(vec![42]));
    // A pending deletion does not hide the stored contract.
    assert_eq!(get_contract(&contracts, &changes, &ContractName::new("c2")).unwrap().state, StateDigest(vec![5]));
    assert!(get_contract(&contracts, &changes, &ContractName::new("c3")).is_none());
}

#[test]
fn failed_settlement_is_only_listed_as_failed() {
    let mut contracts = registry();
    let blobs = vec![blob("c1", vec![])];
    let mut block = SettledBlock::new();
    let unsettled = OrderedTxMap::default();
    let next = on_settled_blob_tx(&mut contracts, &unsettled, &mut block, TxHash::new("bad"), &blobs, Err(()));
    assert!(next.is_none());
    assert_eq!(block.failed_txs, vec![TxHash::new("bad")]);
    assert!(block.successful_txs.is_empty());
    assert!(block.verified_blobs.is_empty());
    assert_eq!(block.transactions_events, vec![(TxHash::new("bad"), TransactionStateEvent::SettledAsFailed)]);
    assert_eq!(contracts.get(&"c1".to_string()).unwrap().state, StateDigest(vec![1]));
}

#[test]
fn successful_settlement_records_blobs_states_and_registrations() {
    let mut contracts = registry();
    let mut out = output(1, 2, true);
    out.onchain_effects = vec![OnchainEffect::RegisterContract(RegisterContractEffect {
        verifier: Verifier("test".to_string()),
        program_id: ProgramId(vec![1]),
        state_commitment: StateDigest(vec![0]),
        contract_name: ContractName::new("sub.c1"),
        timeout_window: None,
    })];
    let blobs = vec![
        blob("c1", vec![(ProgramId(vec![7]), out)]),
        blob("c2", vec![(ProgramId(vec![7]), output(9, 9, true)), (ProgramId(vec![7]), output(5, 6, true))]),
    ];
    let res = try_to_settle_blob_tx(&contracts, &blobs).unwrap().unwrap();
    let (block, next) = settle(&mut contracts, &blobs, res);
    assert_eq!(block.successful_txs, vec![TxHash::new("tx")]);
    assert!(block.failed_txs.is_empty());
    assert_eq!(block.transactions_events, vec![(TxHash::new("tx"), TransactionStateEvent::Settled)]);
    assert_eq!(block.verified_blobs, vec![(TxHash::new("tx"), 0, Some(0)), (TxHash::new("tx"), 1, Some(1))]);
    assert_eq!(block.registered_contracts.len(), 1);
    assert_eq!(block.registered_contracts[0].1.contract_name, ContractName::new("sub.c1"));
    assert_eq!(block.updated_states.get(&"c1".to_string()), Some(&StateDigest(vec![2])));
    assert_eq!(block.updated_states.get(&"c2".to_string()), Some(&StateDigest(vec![6])));
    assert_eq!(block.updated_states.get(&"sub.c1".to_string()), Some(&StateDigest(vec![0])));
    assert!(block.deleted_contracts.is_empty());
    assert_eq!(next, Some(vec![]));
}

fn queued(hash: &str, contracts: &[&str]) -> UnsettledTransaction {
    UnsettledTransaction {
        identity: Identity::new("alice"),
        tx_hash: TxHash::new(hash),
        blobs_hash: BlobsHash(hash.to_string()),
        blobs: contracts
            .iter()
            .map(|c| QueuedBlob { contract_name: ContractName::new(c), metadata: vec![] })
            .collect(),
    }
}

#[test]
fn next_transactions_are_the_heads_of_the_contracts_queues() {
    let mut contracts = registry();
    let blobs = vec![
        blob("c1", vec![(ProgramId(vec![7]), output(1, 2, true))]),
        blob("c1", vec![(ProgramId(vec![7]), output(2, 3, true))]),
        blob("c2", vec![(ProgramId(vec![7]), output(5, 6, true))]),
    ];
    let res = try_to_settle_blob_tx(&contracts, &blobs).unwrap().unwrap();
    let mut unsettled = OrderedTxMap::default();
    unsettled.add(queued("h1", &["c1", "c2"]), false);
    unsettled.add(queued("h2", &["c1"]), false);
    unsettled.add(queued("h3", &["c3"]), false);
    let mut block = SettledBlock::new();
    let next = on_settled_blob_tx(&mut contracts, &unsettled, &mut block, TxHash::new("tx"), &blobs, Ok(res)).unwrap();
    assert_eq!(next, vec![BlobsHash("h1".to_string())]);
}

fn hyle_blob(action: Option<hyle::node_state::settlement::BlobAction>) -> UnsettledBlobMetadata {
    UnsettledBlobMetadata {
        blob: Blob { contract_name: ContractName::new("hyle"), data: BlobData(vec![0, 1, 2, 3]) },
        possible_proofs: vec![],
        action,
    }
}

fn registry_with_hyle() -> StrMap<Contract> {
    let mut m = registry();
    m.insert("hyle".to_string(), contract("hyle", 0, TimeoutWindow::NoTimeout));
    m
}

fn register(name: &str) -> Option<hyle::node_state::settlement::BlobAction> {
    Some(hyle::node_state::settlement::BlobAction::RegisterContract(RegisterContractEffect {
        verifier: Verifier("test".to_string()),
        program_id: ProgramId(vec![]),
        state_commitment: StateDigest(vec![0, 1, 2, 3]),
        contract_name: ContractName::new(name),
        timeout_window: None,
    }))
}

fn delete(name: &str) -> Option<hyle::node_state::settlement::BlobAction> {
    Some(hyle::node_state::settlement::BlobAction::DeleteContract(ContractName::new(name)))
}

#[test]
fn hyle_registers_top_level_and_sub_names() {
    for name in ["c3", "c4.hyle"] {
        let mut contracts = registry_with_hyle();
        let blobs = vec![hyle_blob(register(name))];
        let res = try_to_settle_blob_tx(&contracts, &blobs).unwrap().unwrap();
        assert_eq!(res.blob_proof_output_indices, vec![0]);
        settle(&mut contracts, &blobs, res);
        let c = contracts.get(&name.to_string()).unwrap();
        assert_eq!(c.state, StateDigest(vec![0, 1, 2, 3]));
        assert_eq!(c.timeout_window, TimeoutWindow::Timeout(BlockHeight(100)));
    }
}

#[test]
fn hyle_refuses_bad_names_existing_contracts_and_other_data() {
    let contracts = registry_with_hyle();
    for action in [register("c1.hyle.lol"), register("c3.other"), register(".hyle"), register("c1"), None] {
        let blobs = vec![hyle_blob(action)];
        assert!(try_to_settle_blob_tx(&contracts, &blobs).unwrap().is_err());
    }
}

#[test]
fn hyle_deletes_only_existing_contracts() {
    let mut contracts = registry_with_hyle();
    let blobs = vec![hyle_blob(delete("nope"))];
    assert!(try_to_settle_blob_tx(&contracts, &blobs).unwrap().is_err());
    let blobs = vec![hyle_blob(register("c5")), hyle_blob(delete("c5")), hyle_blob(delete("c2"))];
    let res = try_to_settle_blob_tx(&contracts, &blobs).unwrap().unwrap();
    assert_eq!(res.blob_proof_output_indices, vec![0, 0, 0]);
    settle(&mut contracts, &blobs, res);
    assert!(contracts.get(&"c5".to_string()).is_none());
    assert!(contracts.get(&"c2".to_string()).is_none());
    assert!(contracts.get(&"c1".to_string()).is_some());
}

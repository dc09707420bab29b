use hyle::mempool::fees_checker::{check_fees, FeeRunError, FeesError};
use hyle::model::transaction::{Blob, BlobData, BlobTransaction, Fees, Transaction, TransactionData};
use hyle::mempool::KnownContracts;
use hyle::model::{ContractName, Identity, ProgramId, Verifier};

fn fee_blob(name: &str) -> Blob {
    Blob { contract_name: ContractName::new(name), data: BlobData(vec![]) }
}

fn blob_tx(identity: &str, fee_blobs: Vec<Blob>) -> Transaction {
    Transaction {
        version: 1,
        transaction_data: TransactionData::Blob(BlobTransaction {
            identity: Identity::new("sender"),
            fees: Fees { identity: Identity::new(identity), blobs: fee_blobs },
            blobs: vec![],
        }),
    }
}

#[test]
fn matching_identities_pay() {
    let tx = blob_tx("alice", vec![fee_blob("hyfi"), fee_blob("hydentity")]);
    let runs = vec![Ok(Identity::new("alice")), Ok(Identity::new("alice"))];
    assert!(check_fees(&tx, &runs).is_ok());
}

#[test]
fn unknown_fee_contract_is_refused() {
    let tx = blob_tx("alice", vec![fee_blob("hyfi"), fee_blob("other")]);
    let runs = vec![Ok(Identity::new("alice")), Ok(Identity::new("alice"))];
    match check_fees(&tx, &runs) {
        Err(FeesError::InvalidContractName(n)) => assert_eq!(n, ContractName::new("other")),
        other => panic!("unexpected {:?}", other),
    }
}

#[test]
fn failed_run_is_refused() {
    let tx = blob_tx("alice", vec![fee_blob("hyfi")]);
    let runs = vec![Err(FeeRunError::Failed)];
    assert!(matches!(check_fees(&tx, &runs), Err(FeesError::Run(FeeRunError::Failed))));
    let runs = vec![Err(FeeRunError::Decode)];
    assert!(matches!(check_fees(&tx, &runs), Err(FeesError::Run(FeeRunError::Decode))));
}

#[test]
fn first_refused_blob_decides() {
    let tx = blob_tx("alice", vec![fee_blob("bad"), fee_blob("hyfi")]);
    let runs = vec![Ok(Identity::new("alice")), Err(FeeRunError::Failed)];
    assert!(matches!(check_fees(&tx, &runs), Err(FeesError::InvalidContractName(_))));
}

#[test]
fn differing_identities_are_refused() {
    let tx = blob_tx("alice", vec![fee_blob("hyfi"), fee_blob("hyfi")]);
    let runs = vec![Ok(Identity::new("alice")), Ok(Identity::new("bob"))];
    assert!(matches!(check_fees(&tx, &runs), Err(FeesError::IdentitiesDiffer)));
}

#[test]
fn other_payer_is_refused() {
    let tx = blob_tx("alice", vec![fee_blob("hydentity")]);
    let runs = vec![Ok(Identity::new("bob"))];
    assert!(matches!(check_fees(&tx, &runs), Err(FeesError::IdentityMismatch)));
}

#[test]
fn other_transactions_pay_no_fees() {
    let tx = Transaction { version: 1, transaction_data: TransactionData::Stake(vec![1]) };
    assert!(check_fees(&tx, &vec![]).is_ok());
}

#[test]
fn known_contracts_register_and_replace() {
    let mut known = KnownContracts::new();
    let name = ContractName::new("c1");
    assert!(known.get(&name).is_none());
    known.register_contract(&name, &Verifier("risc0".to_string()), &ProgramId(vec![1]));
    assert_eq!(known.get(&name).unwrap().1, ProgramId(vec![1]));
    known.register_contract(&name, &Verifier("sp1".to_string()), &ProgramId(vec![2]));
    let (v, p) = known.get(&name).unwrap();
    assert_eq!(v, &Verifier("sp1".to_string()));
    assert_eq!(p, &ProgramId(vec![2]));
}

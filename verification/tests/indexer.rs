use hyle::indexer::blobs::blob_cow;
use hyle::indexer::contracts::contract_cow;
use hyle::indexer::db::{u64_to_str, IndexerDb};
use hyle::indexer::keys::{put_hex08, BlobsKey, BlobsKeyAlt, ProofsKey};
use hyle::indexer::model::{
    decode_blob, decode_contract, decode_proof, encode_blob, encode_contract, encode_proof, TransactionType,
};
use hyle::indexer::proofs::proof_cow;
use hyle::indexer::table::IndexerError;
use hyle::indexer::transactions::{decode_tx, encode_tx, tx_cow};
use hyle::model::transaction::{
    Blob, BlobData, BlobReference, BlobTransaction, Fees, ProofTransaction, RegisterContractTransaction, Transaction,
    TransactionData,
};
use hyle::model::{BlobIndex, BlockHeight, ContractName, Identity, StateDigest, TxHash};

fn temp_db() -> sled::Db {
    sled::Config::new().temporary(true).open().unwrap()
}

fn node_blob(name: &str, data: Vec<u8>) -> Blob {
    Blob { contract_name: ContractName::new(name), data: BlobData(data) }
}

fn proof_tx() -> ProofTransaction {
    ProofTransaction {
        blobs_references: vec![
            BlobReference {
                contract_name: ContractName::new("c1"),
                blob_tx_hash: TxHash::new("h1"),
                blob_index: BlobIndex(0),
            },
            BlobReference {
                contract_name: ContractName::new("c2"),
                blob_tx_hash: TxHash::new("h2"),
                blob_index: BlobIndex(3),
            },
        ],
        proof: vec![1, 2, 3],
    }
}

fn registration(name: &str) -> RegisterContractTransaction {
    RegisterContractTransaction {
        owner: "hyle".to_string(),
        verifier: "risc0".to_string(),
        program_id: vec![4, 5],
        state_digest: StateDigest(vec![6]),
        contract_name: ContractName::new(name),
    }
}

#[test]
fn hex_keys_are_padded_to_eight_digits() {
    assert_eq!(BlobsKey(BlockHeight(1), 2, 255).make_key(), b"00000001:00000002:000000ff".to_vec());
    assert_eq!(ProofsKey(BlockHeight(0x1_0000_0000), 10).make_key(), b"100000000:0000000a".to_vec());
    assert_eq!(BlobsKeyAlt("c1", "abc", 16).make_key(), b"c1:abc:00000010".to_vec());
    let mut out = vec![b'x'];
    put_hex08(&mut out, 0);
    assert_eq!(out, b"x00000000".to_vec());
    let mut out = Vec::new();
    put_hex08(&mut out, u64::MAX);
    assert_eq!(out, b"ffffffffffffffff".to_vec());
}

#[test]
fn stored_records_read_back() {
    let b = blob_cow(BlockHeight(3), 1, 2, &"txh".to_string(), &Identity::new("bob"), &node_blob("c1", vec![9, 8]));
    assert_eq!(decode_blob(&encode_blob(&b)), Some(b.clone()));
    let p = proof_cow(BlockHeight(4), 0, &"ptx".to_string(), &proof_tx());
    assert_eq!(decode_proof(&encode_proof(&p)), Some(p.clone()));
    let c = contract_cow(BlockHeight(5), 7, &"rtx".to_string(), &registration("new"));
    assert_eq!(decode_contract(&encode_contract(&c)), Some(c.clone()));
}

#[test]
fn record_fields_come_from_the_transaction() {
    let b = blob_cow(BlockHeight(3), 1, 2, &"txh".to_string(), &Identity::new("bob"), &node_blob("c1", vec![9, 8]));
    assert_eq!(b.identity, Identity::new("bob"));
    assert_eq!(b.contract_name, ContractName::new("c1"));
    assert_eq!(b.data, BlobData(vec![9, 8]));
    assert_eq!((b.block_height, b.tx_index, b.blob_index), (BlockHeight(3), 1, 2));
    let p = proof_cow(BlockHeight(4), 0, &"ptx".to_string(), &proof_tx());
    assert_eq!(p.blobs_references, proof_tx().blobs_references);
    assert_eq!(p.tx_hash, "ptx".to_string());
}

#[test]
fn truncated_or_padded_bytes_are_refused() {
    let b = blob_cow(BlockHeight(3), 1, 2, &"txh".to_string(), &Identity::new("bob"), &node_blob("c1", vec![9]));
    let mut bytes = encode_blob(&b);
    bytes.push(0);
    assert_eq!(decode_blob(&bytes), None);
    bytes.truncate(bytes.len() - 2);
    assert_eq!(decode_blob(&bytes), None);
    assert_eq!(decode_proof(&[]), None);
    assert_eq!(decode_contract(&[1, 2, 3]), None);
}

#[test]
fn invalid_utf8_text_is_refused() {
    let b = blob_cow(BlockHeight(3), 1, 2, &"t".to_string(), &Identity::new("a"), &node_blob("c", vec![]));
    let mut bytes = encode_blob(&b);
    // The identity "a" is the byte right after its 8-byte length.
    bytes[8] = 0xff;
    assert_eq!(decode_blob(&bytes), None);
}

#[test]
fn blobs_store_and_find() {
    let db = temp_db();
    let mut blobs = IndexerDb::new(db.clone(), b"genesis").unwrap().blobs;
    let tx_hash = "tx1".to_string();
    let id = Identity::new("alice");
    blobs.put(BlockHeight(1), 0, 0, &tx_hash, &id, &node_blob("c1", vec![1])).unwrap();
    blobs.put(BlockHeight(1), 0, 1, &tx_hash, &id, &node_blob("c2", vec![2])).unwrap();
    blobs.put(BlockHeight(2), 3, 0, &"tx2".to_string(), &id, &node_blob("c1", vec![3])).unwrap();
    assert_eq!(blobs.len().unwrap(), 3);

    let got = blobs.get(BlockHeight(1), 0, 1).unwrap().unwrap();
    assert_eq!(got.data, BlobData(vec![2]));
    assert_eq!(got.contract_name, ContractName::new("c2"));
    assert!(blobs.get(BlockHeight(9), 0, 0).unwrap().is_none());

    let last = blobs.last().unwrap().unwrap();
    assert_eq!(last.block_height, BlockHeight(2));

    let by_c1 = blobs.get_by_contract_name("c1").unwrap().unwrap();
    assert_eq!(by_c1.len(), 2);
    assert!(by_c1.iter().all(|b| b.contract_name == ContractName::new("c1")));

    let in_range = blobs.range(BlobsKey(BlockHeight(1), 0, 0), BlobsKey(BlockHeight(2), 0, 0)).unwrap();
    assert_eq!(in_range.len(), 2);
    assert_eq!(in_range[0].blob_index, 0);
    assert_eq!(in_range[1].blob_index, 1);

    let prefix = blobs.scan_prefix(BlobsKey(BlockHeight(2), 3, 0)).unwrap();
    assert_eq!(prefix.len(), 1);
}

#[test]
fn proofs_store_and_find() {
    let db = temp_db();
    let mut proofs = IndexerDb::new(db.clone(), b"genesis").unwrap().proofs;
    proofs.put(BlockHeight(7), 1, &"p1".to_string(), &proof_tx()).unwrap();
    proofs.put(BlockHeight(8), 0, &"p2".to_string(), &ProofTransaction::default()).unwrap();
    assert_eq!(proofs.len().unwrap(), 2);
    let p = proofs.get(BlockHeight(7), 1).unwrap().unwrap();
    assert_eq!(p.proof, vec![1, 2, 3]);
    let by_hash = proofs.get_with_hash("p2").unwrap().unwrap();
    assert_eq!(by_hash.block_height, BlockHeight(8));
    assert!(proofs.get_with_hash("nope").unwrap().is_none());
    assert_eq!(proofs.last().unwrap().unwrap().tx_hash, "p2".to_string());
    assert_eq!(proofs.range(ProofsKey(BlockHeight(0), 0), ProofsKey(BlockHeight(8), 0)).unwrap().len(), 1);
    assert_eq!(proofs.scan_prefix(ProofsKey(BlockHeight(8), 0)).unwrap().len(), 1);
}

#[test]
fn contracts_store_and_find() {
    let db = temp_db();
    let mut contracts = IndexerDb::new(db.clone(), b"genesis").unwrap().contracts;
    contracts.put(BlockHeight(1), 0, &"r1".to_string(), &registration("alpha")).unwrap();
    contracts.put(BlockHeight(2), 0, &"r2".to_string(), &registration("alps")).unwrap();
    contracts.put(BlockHeight(3), 0, &"r3".to_string(), &registration("beta")).unwrap();
    assert_eq!(contracts.len().unwrap(), 3);
    assert_eq!(contracts.get("alps").unwrap().unwrap().block_height, BlockHeight(2));
    assert!(contracts.get("gamma").unwrap().is_none());
    assert_eq!(contracts.all().unwrap().len(), 3);
    assert_eq!(contracts.scan_prefix("alp").unwrap().len(), 2);
}

#[test]
fn corrupt_value_is_an_error() {
    let db = temp_db();
    let tree = db.open_tree("contracts_ord").unwrap();
    tree.insert(b"bad", vec![1u8, 2, 3]).unwrap();
    let mut contracts = IndexerDb::new(db.clone(), b"genesis").unwrap().contracts;
    assert!(matches!(contracts.get("bad"), Err(IndexerError::Corrupt)));
}

#[test]
fn whole_store_opens() {
    let db = temp_db();
    let mut all = IndexerDb::new(db.clone(), b"genesis").unwrap();
    all.contracts.put(BlockHeight(1), 0, &"r".to_string(), &registration("x")).unwrap();
    assert_eq!(all.contracts.len().unwrap(), 1);
    assert_eq!(all.blobs.len().unwrap(), 0);
    assert_eq!(all.proofs.len().unwrap(), 0);
}

#[test]
fn transaction_kinds() {
    let blob_tx = Transaction {
        version: 1,
        transaction_data: TransactionData::Blob(BlobTransaction {
            identity: Identity::new("a"),
            fees: Fees::default(),
            blobs: vec![],
        }),
    };
    assert_eq!(TransactionType::get_type_from_transaction(&blob_tx), TransactionType::BlobTransaction);
    let proof = Transaction { version: 1, transaction_data: TransactionData::Proof(proof_tx()) };
    assert_eq!(TransactionType::get_type_from_transaction(&proof), TransactionType::ProofTransaction);
    let reg = Transaction { version: 1, transaction_data: TransactionData::RegisterContract(registration("n")) };
    assert_eq!(TransactionType::get_type_from_transaction(&reg), TransactionType::RegisterContractTransaction);
    let stake = Transaction { version: 1, transaction_data: TransactionData::Stake(vec![]) };
    assert_eq!(TransactionType::get_type_from_transaction(&stake), TransactionType::Stake);
}

#[test]
fn keys_sort_like_positions() {
    let a = BlobsKey(BlockHeight(1), 2, 3).make_key();
    let b = BlobsKey(BlockHeight(1), 10, 0).make_key();
    let c = BlobsKey(BlockHeight(2), 0, 0).make_key();
    assert!(a < b && b < c);
    let p = ProofsKey(BlockHeight(15), 255).make_key();
    let q = ProofsKey(BlockHeight(16), 0).make_key();
    assert!(p < q);
}

#[test]
fn decimal_heights() {
    assert_eq!(u64_to_str(0), "0");
    assert_eq!(u64_to_str(7), "7");
    assert_eq!(u64_to_str(1200), "1200");
    assert_eq!(u64_to_str(u64::MAX), "18446744073709551615");
}

#[test]
fn transactions_store_and_read_back() {
    let db = temp_db();
    let mut txs = IndexerDb::new(db.clone(), b"genesis").unwrap().transactions;
    let blob_tx = TransactionData::Blob(BlobTransaction {
        identity: Identity::new("alice.hydentity"),
        fees: Fees { identity: Identity::new("alice.hydentity"), blobs: vec![node_blob("hyfi", vec![1])] },
        blobs: vec![node_blob("c1", vec![2, 3]), node_blob("c2", vec![])],
    });
    let all = vec![
        blob_tx,
        TransactionData::Proof(proof_tx()),
        TransactionData::RegisterContract(registration("newc")),
        TransactionData::Stake(vec![9, 9]),
    ];
    for (i, d) in all.iter().enumerate() {
        txs.store(BlockHeight(5), i, &format!("h{i}"), d).unwrap();
    }
    for (i, d) in all.iter().enumerate() {
        let t = txs.retrieve(&format!("h{i}")).unwrap().unwrap();
        assert_eq!(&t.data, d);
        assert_eq!(t.tx_index, i);
        assert_eq!(t.block_height, BlockHeight(5));
        assert_eq!(decode_tx(&encode_tx(&t)), Some(t.clone()));
    }
    assert!(txs.retrieve("missing").unwrap().is_none());
}

#[test]
fn unknown_transaction_kind_is_refused() {
    let t = tx_cow(BlockHeight(1), 0, &"h".to_string(), &TransactionData::Stake(vec![]));
    let mut bytes = encode_tx(&t);
    // The kind tag follows the height, the index and the hash ("h").
    let tag_at = 8 + 8 + 8 + 1;
    bytes[tag_at] = 7;
    assert_eq!(decode_tx(&bytes), None);
}

#[test]
fn storing_under_a_held_key_replaces_and_keeps_the_count() {
    let db = temp_db();
    let mut contracts = IndexerDb::new(db.clone(), b"genesis").unwrap().contracts;
    contracts.put(BlockHeight(1), 0, &"r1".to_string(), &registration("alpha")).unwrap();
    contracts.put(BlockHeight(5), 2, &"r2".to_string(), &registration("alpha")).unwrap();
    assert_eq!(contracts.len().unwrap(), 1);
    let c = contracts.get("alpha").unwrap().unwrap();
    assert_eq!(c.block_height, BlockHeight(5));
    assert_eq!(c.tx_hash, "r2".to_string());

    let mut blobs = IndexerDb::new(db.clone(), b"genesis").unwrap().blobs;
    let id = Identity::new("alice");
    blobs.put(BlockHeight(1), 0, 0, &"tx1".to_string(), &id, &node_blob("c1", vec![1])).unwrap();
    blobs.put(BlockHeight(1), 0, 0, &"tx1".to_string(), &id, &node_blob("c1", vec![9])).unwrap();
    assert_eq!(blobs.len().unwrap(), 1);
    assert_eq!(blobs.get(BlockHeight(1), 0, 0).unwrap().unwrap().data, BlobData(vec![9]));
}

#[test]
fn the_hash_index_of_proofs_agrees_with_their_keys() {
    let db = temp_db();
    let mut proofs = IndexerDb::new(db.clone(), b"genesis").unwrap().proofs;
    proofs.put(BlockHeight(3), 4, &"p9".to_string(), &proof_tx()).unwrap();
    let by_key = proofs.get(BlockHeight(3), 4).unwrap().unwrap();
    let by_hash = proofs.get_with_hash("p9").unwrap().unwrap();
    assert_eq!(by_key.tx_hash, by_hash.tx_hash);
    assert_eq!(by_key.block_height, by_hash.block_height);
    assert_eq!(by_key.tx_index, by_hash.tx_index);
    assert_eq!(by_key.proof, by_hash.proof);
}

#[test]
fn an_empty_table_has_no_last_record() {
    let db = temp_db();
    let blobs = IndexerDb::new(db.clone(), b"genesis").unwrap().blobs;
    assert!(blobs.last().unwrap().is_none());
    assert_eq!(blobs.len().unwrap(), 0);
}

#[test]
fn a_transaction_stored_twice_reads_back_as_the_last() {
    let db = temp_db();
    let mut txs = IndexerDb::new(db.clone(), b"genesis").unwrap().transactions;
    txs.store(BlockHeight(1), 0, &"x".to_string(), &TransactionData::Stake(vec![1])).unwrap();
    txs.store(BlockHeight(2), 7, &"x".to_string(), &TransactionData::Stake(vec![2])).unwrap();
    let t = txs.retrieve("x").unwrap().unwrap();
    assert_eq!(t.block_height, BlockHeight(2));
    assert_eq!(t.tx_index, 7);
    assert_eq!(t.data, TransactionData::Stake(vec![2]));
}

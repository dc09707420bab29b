use hyle::model::{BlobsHash, ContractName, Identity, TxHash};
use hyle::node_state::model::{UnsettledBlobMetadata, UnsettledTransaction};
use hyle::node_state::ordered_tx_map::OrderedTxMap;

fn new_tx(hash: &str, contract: &str, blobs_hash: &str) -> UnsettledTransaction {
    UnsettledTransaction {
        identity: Identity("toto".to_string()),
        tx_hash: TxHash::new(hash),
        blobs_hash: BlobsHash::new(blobs_hash),
        blobs: vec![UnsettledBlobMetadata {
            contract_name: ContractName(contract.to_string()),
            metadata: vec![],
        }],
    }
}

#[test]
fn can_add_tx() {
    let mut map = OrderedTxMap::default();
    let tx = new_tx("tx1", "contract1", "blobs_hash1");

    map.add(tx, false);
    assert_eq!(map.len(), 1);
    assert_eq!(map.order_count(), 1);
}

#[test]
fn can_get_tx() {
    let mut map = OrderedTxMap::default();
    let blobs_hash1 = BlobsHash::new("blobs_hash1");
    let blobs_hash2 = BlobsHash::new("blobs_hash2");
    let blobs_hash3 = BlobsHash::new("blobs_hash3");

    let tx1 = new_tx("tx1", "c1", "blobs_hash1");
    let tx2 = new_tx("tx2", "c1", "blobs_hash2");
    let tx3 = new_tx("tx3", "c2", "blobs_hash3");

    map.add(tx1.clone(), false);
    map.add(tx2.clone(), false);
    map.add(tx3.clone(), false);

    assert_eq!(blobs_hash1, map.get(&blobs_hash1).unwrap().blobs_hash);
    assert_eq!(blobs_hash2, map.get(&blobs_hash2).unwrap().blobs_hash);
    assert_eq!(blobs_hash3, map.get(&blobs_hash3).unwrap().blobs_hash);

    assert_eq!(map.len(), 3);
    assert_eq!(map.order_count(), 2);
}

#[test]
fn double_add_ignored() {
    let mut map = OrderedTxMap::default();
    let blobs_hash1 = BlobsHash::new("blobs_hash1");

    let tx1 = new_tx("tx1", "c1", "blobs_hash1");

    map.add(tx1.clone(), false);
    map.add(tx1.clone(), false); // Add the same transaction again

    assert_eq!(blobs_hash1, map.get(&blobs_hash1).unwrap().blobs_hash);

    assert_eq!(map.len(), 1);
    assert_eq!(map.order_count(), 1);
    assert_eq!(map.order_of(&ContractName("c1".to_string())).unwrap().len(), 1);
}

#[test]
fn check_next_unsettled_tx() {
    let mut map = OrderedTxMap::default();
    let blobs_hash1 = BlobsHash::new("blobs_hash1");
    let blobs_hash2 = BlobsHash::new("blobs_hash2");
    let blobs_hash3 = BlobsHash::new("blobs_hash3");

    let tx1 = new_tx("tx1", "c1", "blobs_hash1");
    let tx2 = new_tx("tx2", "c1", "blobs_hash2");
    let tx3 = new_tx("tx3", "c2", "blobs_hash3");

    map.add(tx1.clone(), false);
    map.add(tx2.clone(), false);
    map.add(tx3.clone(), false);

    assert!(map.is_next_unsettled_tx(&blobs_hash1));
    assert!(!map.is_next_unsettled_tx(&blobs_hash2));
    assert!(map.is_next_unsettled_tx(&blobs_hash3));

    let blobs_hash4 = BlobsHash::new("blobs_hash4");
    assert!(!map.is_next_unsettled_tx(&blobs_hash4)); // Non-existent transaction
}

#[test]
fn remove_tx() {
    let mut map = OrderedTxMap::default();
    let blobs_hash1 = BlobsHash::new("blobs_hash1");
    let blobs_hash2 = BlobsHash::new("blobs_hash2");
    let blobs_hash3 = BlobsHash::new("blobs_hash3");
    let c1 = ContractName("c1".to_string());

    let tx1 = new_tx("tx1", "c1", "blobs_hash1");
    let tx2 = new_tx("tx2", "c1", "blobs_hash2");
    let tx3 = new_tx("tx3", "c2", "blobs_hash3");

    map.add(tx1.clone(), false);
    map.add(tx2.clone(), false);
    map.add(tx3.clone(), false);

    map.remove(&blobs_hash1);

    assert!(!map.is_next_unsettled_tx(&blobs_hash1));
    assert!(map.is_next_unsettled_tx(&blobs_hash2));
    assert!(map.is_next_unsettled_tx(&blobs_hash3));

    assert_eq!(map.len(), 2);
    assert_eq!(map.order_count(), 2);
    assert_eq!(map.order_of(&c1).unwrap().len(), 1);

    map.remove(&blobs_hash2);
    assert_eq!(map.len(), 1);
    assert_eq!(map.order_count(), 2);
    assert_eq!(map.order_of(&c1).unwrap().len(), 0);
}

#[test]
fn lookup_by_tx_hash_follows_the_index_used() {
    let mut map = OrderedTxMap::default();
    map.add(new_tx("tx1", "c1", "bh1"), true);
    map.add(new_tx("tx2", "c1", "bh2"), false);
    assert_eq!(map.get_for_fees(&TxHash::new("tx1")).unwrap().blobs_hash, BlobsHash::new("bh1"));
    assert!(map.get_for_blobs(&TxHash::new("tx1")).is_none());
    assert_eq!(map.get_for(&TxHash::new("tx2"), false).unwrap().blobs_hash, BlobsHash::new("bh2"));
    assert!(map.get_for(&TxHash::new("tx2"), true).is_none());
}

#[test]
fn remove_for_blob_clears_the_queue() {
    let mut map = OrderedTxMap::default();
    map.add(new_tx("tx1", "c1", "bh1"), false);
    map.add(new_tx("tx2", "c1", "bh2"), false);
    map.remove_for_blob(&TxHash::new("tx1"));
    assert!(map.get(&BlobsHash::new("bh1")).is_none());
    assert!(map.is_next_unsettled_tx(&BlobsHash::new("bh2")));
    assert_eq!(map.order_of(&ContractName("c1".to_string())).unwrap().len(), 1);
    // An unknown hash changes nothing.
    map.remove_for_blob(&TxHash::new("nope"));
    assert_eq!(map.len(), 1);
}

#[test]
fn later_transaction_waits_behind_earlier_one() {
    let mut map = OrderedTxMap::default();
    map.add(new_tx("tx1", "c1", "bh1"), false);
    map.add(new_tx("tx2", "c1", "bh2"), false);
    map.add(new_tx("tx3", "c1", "bh3"), false);
    assert!(map.is_next_unsettled_tx(&BlobsHash::new("bh1")));
    assert!(!map.is_next_unsettled_tx(&BlobsHash::new("bh3")));
    map.remove(&BlobsHash::new("bh2"));
    assert!(map.is_next_unsettled_tx(&BlobsHash::new("bh1")));
    assert!(!map.is_next_unsettled_tx(&BlobsHash::new("bh3")));
}

use hyle::indexer::db::IndexerDb;
use hyle::model::BlockHeight;

#[test]
fn an_empty_store_starts_from_genesis() {
    let db = sled::Config::new().temporary(true).open().unwrap();
    let blocks = IndexerDb::new(db, b"genesis").unwrap().blocks;
    assert_eq!(blocks.get_latest_height(), BlockHeight(0));
    assert_eq!(blocks.get_latest().bytes, b"genesis".to_vec());
    assert_eq!(blocks.retrieve(BlockHeight(0)).unwrap().unwrap().bytes, b"genesis".to_vec());
}

#[test]
fn stored_blocks_read_back_and_become_the_latest() {
    let db = sled::Config::new().temporary(true).open().unwrap();
    let mut blocks = IndexerDb::new(db.clone(), b"g").unwrap().blocks;
    blocks.store(BlockHeight(5), b"five").unwrap();
    assert_eq!(blocks.get_latest_height(), BlockHeight(5));
    let b = blocks.retrieve(BlockHeight(5)).unwrap().unwrap();
    assert_eq!(b.height, BlockHeight(5));
    assert_eq!(b.bytes, b"five".to_vec());
    assert!(blocks.retrieve(BlockHeight(7)).unwrap().is_none());
    drop(blocks);
    let reopened = IndexerDb::new(db, b"g").unwrap().blocks;
    assert_eq!(reopened.get_latest_height(), BlockHeight(5));
}

use hyle::model::{BlockHeight, TxHash};
use hyle::node_state::model::Timeouts as TimeoutsByTx;
use hyle::node_state::timeouts::Timeouts;

#[test]
fn model_timeout() {
    let mut t = TimeoutsByTx::default();
    let b1 = BlockHeight(0);
    let b2 = BlockHeight(1);
    let tx1 = TxHash::new("tx1");

    t.set(tx1.clone(), b1);

    assert_eq!(t.list_timeouts(&b1).unwrap().len(), 1);
    assert_eq!(t.list_timeouts(&b2), None);
    assert_eq!(t.get(&tx1), Some(&b1));

    t.set(tx1.clone(), b2);
    assert_eq!(t.get(&tx1), Some(&b2));

    t.drop(&b1);
    assert_eq!(t.get(&tx1), Some(&b2));
    assert_eq!(t.list_timeouts(&b1), None);
    assert_eq!(t.list_timeouts(&b2).unwrap().len(), 1);

    t.drop(&b2);
    assert_eq!(t.get(&tx1), None);
    assert_eq!(t.list_timeouts(&b2), None);
}

fn after(b: BlockHeight, t: &Timeouts) -> BlockHeight {
    BlockHeight(b.0 + t.get_timeout_window().0)
}

#[test]
fn timeouts_timeout() {
    let mut t = Timeouts::default();
    let b1 = BlockHeight(0);
    let b2 = BlockHeight(1);
    let tx1 = TxHash::new("tx1");

    t.set(tx1.clone(), b1);

    assert_eq!(t.list_timeouts(after(b1, &t)).unwrap().len(), 1);
    assert_eq!(t.list_timeouts(after(b2, &t)), None);
    assert_eq!(t.find(&tx1), Some(after(b1, &t)));

    t.set(tx1.clone(), b2);

    assert_eq!(t.drop(&after(b1, &t)), vec![tx1.clone()]);

    // Now this returns b2
    assert_eq!(t.find(&tx1), Some(after(b2, &t)));
    assert_eq!(t.list_timeouts(after(b1, &t)), None);
    assert_eq!(t.list_timeouts(after(b2, &t)).unwrap().len(), 1);

    assert_eq!(t.drop(&after(b2, &t)), vec![tx1.clone()]);
    assert_eq!(t.find(&tx1), None);
    assert_eq!(t.list_timeouts(after(b2, &t)), None);
}

#[test]
fn default_window_is_one_hundred_blocks() {
    let t = Timeouts::default();
    assert_eq!(t.get_timeout_window(), BlockHeight(100));
}

#[test]
fn timeouts_come_back_in_the_order_they_were_set() {
    let mut t = Timeouts::default();
    t.set(TxHash::new("a"), BlockHeight(5));
    t.set(TxHash::new("b"), BlockHeight(5));
    t.set(TxHash::new("c"), BlockHeight(6));
    assert_eq!(t.drop(&BlockHeight(105)), vec![TxHash::new("a"), TxHash::new("b")]);
    assert_eq!(t.drop(&BlockHeight(105)), Vec::<TxHash>::new());
    assert_eq!(t.drop(&BlockHeight(106)), vec![TxHash::new("c")]);
}

#[test]
fn setting_twice_at_one_height_lists_twice() {
    let mut t = Timeouts::default();
    t.set(TxHash::new("a"), BlockHeight(0));
    t.set(TxHash::new("a"), BlockHeight(0));
    assert_eq!(t.list_timeouts(BlockHeight(100)).unwrap().len(), 2);
}

#[test]
fn setting_again_moves_the_timeout_by_tx() {
    let mut t = TimeoutsByTx::default();
    t.set(TxHash::new("a"), BlockHeight(3));
    t.set(TxHash::new("b"), BlockHeight(3));
    t.set(TxHash::new("a"), BlockHeight(4));
    assert_eq!(t.list_timeouts(&BlockHeight(3)).unwrap(), &vec![TxHash::new("b")]);
    assert_eq!(t.drop(&BlockHeight(4)), vec![TxHash::new("a")]);
    assert_eq!(t.get(&TxHash::new("a")), None);
    assert_eq!(t.get(&TxHash::new("b")), Some(&BlockHeight(3)));
}

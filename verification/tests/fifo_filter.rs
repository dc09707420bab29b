use hyle::p2p::fifo_filter::FifoFilter;

#[test]
fn test_insert_and_contains() {
    let mut cache = FifoFilter::new(3);

    cache.set("apple");
    cache.set("banana");
    cache.set("orange");

    assert!(cache.check(&"apple"));
    assert!(cache.check(&"banana"));
    assert!(cache.check(&"orange"));
    assert!(!cache.check(&"grape"));
}

#[test]
fn test_eviction() {
    let mut cache = FifoFilter::new(3);

    cache.set("apple");
    cache.set("banana");
    cache.set("orange");

    // Adding a fourth element should evict "apple"
    cache.set("grape");

    assert!(!cache.check(&"apple"));
    assert!(cache.check(&"banana"));
    assert!(cache.check(&"orange"));
    assert!(cache.check(&"grape"));
}

#[test]
fn test_eviction_order() {
    let mut cache = FifoFilter::new(3);

    cache.set("apple");
    cache.set("banana");
    cache.set("orange");

    // Adding a fourth element should evict "apple"
    cache.set("grape");
    assert!(!cache.check(&"apple"));

    // Adding a fifth element should evict "banana"
    cache.set("melon");
    assert!(!cache.check(&"banana"));

    // Adding a sixth element should evict "orange"
    cache.set("berry");
    assert!(!cache.check(&"orange"));

    assert!(cache.check(&"grape"));
    assert!(cache.check(&"melon"));
    assert!(cache.check(&"berry"));
}

#[test]
fn set_key_is_checked_at_once() {
    let mut cache = FifoFilter::new(1);
    cache.set(vec![7u8]);
    assert!(cache.check(&vec![7u8]));
    cache.set(vec![8u8]);
    assert!(cache.check(&vec![8u8]));
    assert!(!cache.check(&vec![7u8]));
}

#[test]
fn repeated_key_is_forgotten_early() {
    // The first copy of "a" leaves the queue when capacity is reached, and
    // takes "a" out of the filter although a later copy is still queued.
    let mut cache = FifoFilter::new(2);
    cache.set("a");
    cache.set("a");
    cache.set("b");
    assert!(cache.check(&"a"));
    assert!(cache.check(&"b"));
    cache.set("c");
    assert!(!cache.check(&"a"));
    assert!(cache.check(&"b"));
    assert!(cache.check(&"c"));
}

#[test]
fn zero_capacity_still_remembers() {
    let mut cache = FifoFilter::new(0);
    cache.set(vec![1u8]);
    assert!(cache.check(&vec![1u8]));
}

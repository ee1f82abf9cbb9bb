use std::sync::Arc;

use lsm_block::block::builder::BlockBuilder;
use lsm_block::block::iterator::BlockIterator;
use lsm_block::block::Block;

const TEST_NUM: usize = 1000;

fn generate_key_value() -> Vec<(Vec<u8>, Vec<u8>)> {
    let mut key_value = Vec::new();
    for i in 0..TEST_NUM {
        let key = format!("key{:06}", i);
        let value = format!("value{:06}", i);
        key_value.push((key.into_bytes(), value.into_bytes()));
    }
    key_value
}

fn generate_block() -> Block {
    let key_value = generate_key_value();
    let mut builder = BlockBuilder::new(100000);
    for (key, value) in key_value {
        let _ok = builder.append(&key, &value);
    }
    builder.build()
}

#[test]
fn test_basic() {
    let mut builder = BlockBuilder::new(20);
    assert!(builder.append(b"key1", b"value1"));
    assert_eq!(builder.current_size(), 18);
    assert!(!builder.append(b"key2", b"value2"));
}

#[test]
fn test_seek_to() {
    let mut builder = BlockBuilder::new(100);
    assert_eq!(builder.append(b"key1", b"value1"), true);
    assert_eq!(builder.append(b"key2", b"value2"), true);
    assert_eq!(builder.append(b"key3", b"value3"), true);
    let block = builder.build();
    let mut iter = BlockIterator::new(Arc::new(block));
    iter.seek_to(0);
    assert_eq!(iter.key(), b"key1");
    assert_eq!(iter.value(), b"value1");
    iter.seek_to(1);
    assert_eq!(iter.key(), b"key2");
    assert_eq!(iter.value(), b"value2");
    iter.seek_to(2);
    assert_eq!(iter.key(), b"key3");
    assert_eq!(iter.value(), b"value3");
    iter.seek_to(3);
    assert_eq!(iter.key().is_empty(), true);
    assert_eq!(iter.value().is_empty(), true);
}

#[test]
fn test_block() {
    let block = generate_block();
    let mut iter = BlockIterator::new(Arc::new(block));
    for i in 0..TEST_NUM {
        iter.seek_to(i);
        assert_eq!(iter.key(), format!("key{:06}", i).as_bytes());
        assert_eq!(iter.value(), format!("value{:06}", i).as_bytes());
    }
    for i in 0..TEST_NUM {
        iter.seek_to_key(format!("key{:06}", i).as_bytes());
        assert_eq!(iter.key(), format!("key{:06}", i).as_bytes());
        assert_eq!(iter.value(), format!("value{:06}", i).as_bytes());
    }
    iter.seek_to(TEST_NUM);
    assert_eq!(iter.key(), "".as_bytes());
}

#[test]
fn test_fresh_iterator_is_invalid() {
    let mut builder = BlockBuilder::new(100);
    assert!(builder.append(b"key1", b"value1"));
    let block = builder.build();
    let iter = BlockIterator::new(Arc::new(block));
    assert!(iter.key().is_empty());
    assert!(iter.value().is_empty());
}

#[test]
fn test_empty_value_entry() {
    let mut builder = BlockBuilder::new(100);
    assert!(builder.append(b"a", b""));
    assert_eq!(builder.current_size(), 9);
    let block = builder.build();
    let mut iter = BlockIterator::new(Arc::new(block));
    iter.seek_to(0);
    assert_eq!(iter.key(), b"a");
    assert!(iter.value().is_empty());
    iter.next();
    assert!(iter.key().is_empty());
    assert!(iter.value().is_empty());
}

#[test]
fn test_current_size_growth() {
    let mut builder = BlockBuilder::new(100);
    assert_eq!(builder.current_size(), 2);
    assert!(builder.append(b"a", b""));
    assert_eq!(builder.current_size(), 2 + 1 + 0 + 6);
    assert!(builder.append(b"b", b"xy"));
    assert_eq!(builder.current_size(), 9 + 1 + 2 + 6);
}

#[test]
fn test_append_full_block_unchanged() {
    let mut builder = BlockBuilder::new(9);
    assert!(builder.append(b"a", b""));
    assert_eq!(builder.current_size(), 9);
    assert!(!builder.append(b"b", b""));
    assert_eq!(builder.current_size(), 9);
    let block = builder.build();
    let mut iter = BlockIterator::new(Arc::new(block));
    iter.seek_to(0);
    assert_eq!(iter.key(), b"a");
    iter.seek_to(1);
    assert!(iter.key().is_empty());
}

#[test]
fn test_seek_to_key_lower_bound() {
    let mut builder = BlockBuilder::new(100);
    assert!(builder.append(b"b", b"1"));
    assert!(builder.append(b"d", b"2"));
    assert!(builder.append(b"f", b"3"));
    let block = builder.build();
    let mut iter = BlockIterator::new(Arc::new(block));
    // before every stored key: lands on the first entry
    iter.seek_to_key(b"a");
    assert_eq!(iter.key(), b"b");
    assert_eq!(iter.value(), b"1");
    // strictly between two stored keys: lands on the next greater key
    iter.seek_to_key(b"c");
    assert_eq!(iter.key(), b"d");
    assert_eq!(iter.value(), b"2");
    // exactly on a stored key: lands on that key
    iter.seek_to_key(b"d");
    assert_eq!(iter.key(), b"d");
    // a prefix of a stored key sorts before it
    iter.seek_to_key(b"");
    assert_eq!(iter.key(), b"b");
    // past every stored key: invalid
    iter.seek_to_key(b"g");
    assert!(iter.key().is_empty());
    assert!(iter.value().is_empty());
}

#[test]
fn test_next_stays_invalid() {
    let mut builder = BlockBuilder::new(100);
    assert!(builder.append(b"k1", b"v1"));
    assert!(builder.append(b"k2", b"v2"));
    let block = builder.build();
    let mut iter = BlockIterator::new(Arc::new(block));
    iter.seek_to(0);
    assert_eq!(iter.key(), b"k1");
    iter.next();
    assert_eq!(iter.key(), b"k2");
    iter.next();
    assert!(iter.key().is_empty());
    for _ in 0..5 {
        iter.next();
        assert!(iter.key().is_empty());
        assert!(iter.value().is_empty());
    }
}

#[test]
fn test_shared_block_many_iterators() {
    let mut builder = BlockBuilder::new(100);
    assert!(builder.append(b"k1", b"v1"));
    assert!(builder.append(b"k2", b"v2"));
    let block = Arc::new(builder.build());
    let mut first = BlockIterator::new(Arc::clone(&block));
    let mut second = BlockIterator::new(Arc::clone(&block));
    first.seek_to(0);
    second.seek_to(1);
    assert_eq!(first.key(), b"k1");
    assert_eq!(second.key(), b"k2");
    assert_eq!(first.value(), b"v1");
    assert_eq!(second.value(), b"v2");
}

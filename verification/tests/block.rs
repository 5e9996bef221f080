use mini_lsm::block::iterator::BlockIterator;
use mini_lsm::block::Block;
use mini_lsm::block::BlockBuilder;
use mini_lsm::iterators::merge_iterator::MergeIterator;
use mini_lsm::iterators::StorageIterator;
use std::sync::Arc;

fn block_of(entries: &[(&str, &str)], block_size: usize) -> Block {
    let mut builder = BlockBuilder::new(block_size);
    for (key, value) in entries {
        assert!(builder.add(key.as_bytes(), value.as_bytes()));
    }
    builder.build()
}

fn scan(iter: &mut BlockIterator) -> Vec<(Vec<u8>, Vec<u8>)> {
    let mut out = Vec::new();
    while iter.is_valid() {
        out.push((iter.key().to_vec(), iter.value().to_vec()));
        iter.next();
    }
    out
}

fn owned(entries: &[(&str, &str)]) -> Vec<(Vec<u8>, Vec<u8>)> {
    entries.iter().map(|(k, v)| (k.as_bytes().to_vec(), v.as_bytes().to_vec())).collect()
}

#[test]
fn block_encode_writes_entries_then_offsets() {
    let block = block_of(&[("a", "1"), ("bc", "234")], 4096);
    let expected: Vec<u8> = vec![
        0, 1, b'a', 0, 1, b'1', // first entry
        0, 2, b'b', b'c', 0, 3, b'2', b'3', b'4', // second entry
        0, 0, 0, 6, // offsets
    ];
    assert_eq!(block.encode().as_ref(), &expected[..]);
    assert_eq!(block.data(), &expected[..15]);
    assert_eq!(block.offsets(), &[0u16, 6u16][..]);
    assert_eq!(block.len(), 2);
}

#[test]
fn block_encode_writes_lengths_big_endian() {
    let key = vec![b'k'; 258];
    let mut builder = BlockBuilder::new(4096);
    assert!(builder.add(&key, b""));
    assert!(builder.add(b"z", b"v"));
    let bytes = builder.build().encode();
    assert_eq!(&bytes[..2], &[1u8, 2u8][..]);
    assert_eq!(&bytes[260..262], &[0u8, 0u8][..]);
    // The second entry starts at 262 = 0x0106.
    assert_eq!(&bytes[bytes.len() - 4..], &[0u8, 0u8, 1u8, 6u8][..]);
}

#[test]
fn empty_block_encodes_to_nothing() {
    let block = BlockBuilder::new(64).build();
    assert_eq!(block.len(), 0);
    assert!(block.encode().is_empty());
    let decoded = Block::decode(&[]);
    assert_eq!(decoded.len(), 0);
}

#[test]
fn block_round_trip_yields_the_entries() {
    let entries = [("apple", "red"), ("banana", ""), ("cherry", "dark red"), ("date", "brown")];
    let encoded = block_of(&entries, 4096).encode();
    let decoded = Block::decode(encoded.as_ref());
    assert_eq!(decoded.len(), 4);
    assert_eq!(decoded.encode(), encoded);
    let mut iter = BlockIterator::create_and_seek_to_first(Arc::new(decoded));
    assert_eq!(scan(&mut iter), owned(&entries));
}

#[test]
fn block_round_trip_of_many_entries() {
    let mut builder = BlockBuilder::new(60000);
    let mut expected = Vec::new();
    for i in 0..500u32 {
        let key = format!("key_{:05}", i).into_bytes();
        let value = format!("value_{}", i * 7).into_bytes();
        assert!(builder.add(&key, &value));
        expected.push((key, value));
    }
    let decoded = Block::decode(builder.build().encode().as_ref());
    let mut iter = BlockIterator::create_and_seek_to_first(Arc::new(decoded));
    assert_eq!(scan(&mut iter), expected);
}

#[test]
fn block_builder_is_full_at_block_size() {
    let mut builder = BlockBuilder::new(16);
    assert!(builder.is_empty());
    assert_eq!(builder.estimated_size(), 0);
    assert!(builder.add(b"11", b"11"));
    assert!(!builder.is_empty());
    assert_eq!(builder.estimated_size(), 10);
    // 10 bytes so far, and 2 + 2 + 6 more, exceed 16.
    assert!(!builder.add(b"22", b"22"));
    assert_eq!(builder.estimated_size(), 10);
    assert_eq!(builder.build().len(), 1);
}

#[test]
fn block_builder_fills_up_to_block_size() {
    let mut builder = BlockBuilder::new(20);
    assert!(builder.add(b"11", b"11"));
    // 10 + 2 + 2 + 6 = 20 fits exactly.
    assert!(builder.add(b"22", b"22"));
    assert_eq!(builder.estimated_size(), 20);
    assert!(!builder.add(b"3", b""));
}

#[test]
fn block_builder_takes_a_first_entry_of_any_size() {
    let mut builder = BlockBuilder::new(4);
    assert!(builder.add(b"a long key", b"and a long value"));
    assert!(!builder.add(b"b", b""));
    let block = builder.build();
    assert_eq!(block.len(), 1);
}

#[test]
fn block_builder_is_full_when_offsets_run_out() {
    let mut builder = BlockBuilder::new(1 << 20);
    let value = vec![7u8; 40000];
    assert!(builder.add(b"a", &value));
    // The second entry starts at 40005, which fits 16 bits.
    assert!(builder.add(b"b", &value));
    // The third would start at 80010, which does not.
    assert!(!builder.add(b"c", &value));
    let block = builder.build();
    assert_eq!(block.offsets(), &[0u16, 40005u16][..]);
    let mut iter = BlockIterator::create_and_seek_to_key(Arc::new(block), b"b");
    assert_eq!(iter.key(), b"b");
    assert_eq!(iter.value(), &value[..]);
    iter.next();
    assert!(!iter.is_valid());
}

#[test]
fn block_iterator_seek_to_key_lands_on_first_not_less() {
    let block = Arc::new(block_of(&[("A", "1"), ("C", "3"), ("E", "5")], 4096));
    let iter = BlockIterator::create_and_seek_to_key(block.clone(), b"B");
    assert!(iter.is_valid());
    assert_eq!(iter.key(), b"C");
    assert_eq!(iter.value(), b"3");
    let iter = BlockIterator::create_and_seek_to_key(block.clone(), b"C");
    assert_eq!(iter.key(), b"C");
    assert_eq!(iter.value(), b"3");
    let iter = BlockIterator::create_and_seek_to_key(block.clone(), b"F");
    assert!(!iter.is_valid());
    let iter = BlockIterator::create_and_seek_to_key(block, b"");
    assert_eq!(iter.key(), b"A");
}

#[test]
fn block_iterator_seeks_again_and_again() {
    let block = Arc::new(block_of(&[("A", "1"), ("C", "3"), ("E", "5")], 4096));
    let mut iter = BlockIterator::create_and_seek_to_first(block);
    assert_eq!(iter.key(), b"A");
    iter.seek_to_key(b"D");
    assert_eq!(iter.key(), b"E");
    assert_eq!(iter.value(), b"5");
    iter.seek_to_key(b"Z");
    assert!(!iter.is_valid());
    iter.seek_to_first();
    assert!(iter.is_valid());
    assert_eq!(iter.key(), b"A");
    assert_eq!(iter.value(), b"1");
}

#[test]
fn block_iterator_past_the_end_stays_invalid() {
    let block = Arc::new(block_of(&[("A", "1")], 4096));
    let mut iter = BlockIterator::create_and_seek_to_first(block);
    assert!(iter.is_valid());
    iter.next();
    assert!(!iter.is_valid());
    assert_eq!(iter.key(), b"");
    assert_eq!(iter.value(), b"");
    iter.next();
    iter.next();
    assert!(!iter.is_valid());
}

#[test]
fn block_iterator_over_empty_block_is_invalid() {
    let block = Arc::new(BlockBuilder::new(64).build());
    let mut iter = BlockIterator::create_and_seek_to_first(block.clone());
    assert!(!iter.is_valid());
    iter.next();
    assert!(!iter.is_valid());
    let iter = BlockIterator::create_and_seek_to_key(block, b"a");
    assert!(!iter.is_valid());
}

#[test]
fn block_iterator_yields_tombstones_as_empty_values() {
    let block = Arc::new(block_of(&[("a", ""), ("b", "v")], 4096));
    let mut iter = BlockIterator::create_and_seek_to_first(block);
    assert!(iter.is_valid());
    assert_eq!(iter.key(), b"a");
    assert_eq!(iter.value(), b"");
    iter.next();
    assert_eq!(iter.key(), b"b");
    assert_eq!(iter.value(), b"v");
}

#[test]
fn block_is_shared_by_cursors() {
    let block = Arc::new(block_of(&[("a", "1"), ("b", "2")], 4096));
    let mut first = BlockIterator::create_and_seek_to_first(block.clone());
    let second = BlockIterator::create_and_seek_to_key(block, b"b");
    first.next();
    assert_eq!(first.key(), second.key());
    assert_eq!(first.value(), second.value());
}

#[test]
fn block_cursors_merge_as_sources() {
    let newer = Arc::new(block_of(&[("a", "new a"), ("c", "")], 4096));
    let older = Arc::new(block_of(&[("a", "old a"), ("b", "old b"), ("c", "old c")], 4096));
    let mut iter = MergeIterator::create(vec![
        Box::new(BlockIterator::create_and_seek_to_first(newer)),
        Box::new(BlockIterator::create_and_seek_to_key(older, b"b")),
    ]);
    let mut out = Vec::new();
    while iter.is_valid() {
        out.push((iter.key().to_vec(), iter.value().to_vec()));
        iter.next().unwrap();
    }
    assert_eq!(out, owned(&[("a", "new a"), ("b", "old b"), ("c", "")]));
}

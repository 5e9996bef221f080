use mini_lsm::block::iterator::BlockIterator;
use mini_lsm::block::Block;
use mini_lsm::table::builder::SsTableBuilder;
use mini_lsm::table::BlockMeta;
use mini_lsm::table::BuildError;
use std::sync::Arc;

#[test]
fn builder_splits_blocks_at_block_size() {
    let mut builder = SsTableBuilder::new(16);
    builder.add(b"11", b"11");
    assert_eq!(builder.estimated_size(), 0);
    builder.add(b"22", b"22");
    assert_eq!(builder.estimated_size(), 10);
    builder.add(b"33", b"33");
    assert_eq!(builder.estimated_size(), 20);
    let table = builder.build(7).unwrap();
    assert_eq!(table.id, 7);
    assert_eq!(table.max_ts, 0);
    assert_eq!(table.block_meta.len(), 3);
    assert_eq!(table.block_meta_offset, 30);
    let offsets: Vec<usize> = table.block_meta.iter().map(|m| m.offset).collect();
    assert_eq!(offsets, vec![0, 10, 20]);
    for (meta, key) in table.block_meta.iter().zip([b"11", b"22", b"33"]) {
        assert_eq!(meta.first_key.as_ref(), key);
        assert_eq!(meta.last_key.as_ref(), key);
    }
    assert_eq!(table.first_key.as_ref(), b"11");
    assert_eq!(table.last_key.as_ref(), b"33");
}

#[test]
fn builder_writes_blocks_index_and_trailer() {
    let mut builder = SsTableBuilder::new(16);
    builder.add(b"11", b"11");
    builder.add(b"22", b"22");
    let table = builder.build(1).unwrap();
    let expected: Vec<u8> = vec![
        0, 2, b'1', b'1', 0, 2, b'1', b'1', 0, 0, // first block
        0, 2, b'2', b'2', 0, 2, b'2', b'2', 0, 0, // second block
        0, 0, 0, 0, 0, 2, b'1', b'1', 0, 2, b'1', b'1', // first record
        0, 0, 0, 10, 0, 2, b'2', b'2', 0, 2, b'2', b'2', // second record
        0, 0, 0, 20, // where the index starts
    ];
    assert_eq!(table.data, expected);
    assert_eq!(table.block_meta_offset, 20);
}

#[test]
fn builder_keeps_key_ranges_in_order() {
    let mut builder = SsTableBuilder::new(64);
    let mut keys = Vec::new();
    for i in 0..100u32 {
        let key = format!("key_{:03}", i).into_bytes();
        builder.add(&key, format!("value_{}", i).as_bytes());
        keys.push(key);
    }
    let table = builder.build_for_test().unwrap();
    assert_eq!(table.id, 0);
    let metas = &table.block_meta;
    assert!(metas.len() > 1);
    assert_eq!(metas[0].first_key.as_ref(), &keys[0][..]);
    assert_eq!(metas[metas.len() - 1].last_key.as_ref(), &keys[99][..]);
    assert_eq!(table.first_key.as_ref(), &keys[0][..]);
    assert_eq!(table.last_key.as_ref(), &keys[99][..]);
    for meta in metas.iter() {
        assert!(meta.first_key.as_ref() <= meta.last_key.as_ref());
    }
    for pair in metas.windows(2) {
        assert!(pair[0].last_key.as_ref() < pair[1].first_key.as_ref());
        assert!(pair[0].offset < pair[1].offset);
    }
    // The blocks lie one after the other and hold the entries in order.
    let mut seen = Vec::new();
    for (i, meta) in metas.iter().enumerate() {
        let end = if i + 1 < metas.len() { metas[i + 1].offset } else { table.block_meta_offset };
        let block = Block::decode(&table.data[meta.offset..end]);
        let mut iter = BlockIterator::create_and_seek_to_first(Arc::new(block));
        assert_eq!(iter.key(), meta.first_key.as_ref());
        while iter.is_valid() {
            seen.push(iter.key().to_vec());
            iter.next();
        }
        assert_eq!(seen.last().unwrap().as_slice(), meta.last_key.as_ref());
    }
    assert_eq!(seen, keys);
}

#[test]
fn builder_counts_one_block_per_boundary_crossing() {
    // Each entry takes 4 + 4 + 2 bytes in a block with its offset; a block
    // of 32 bytes takes three of them.
    let mut builder = SsTableBuilder::new(32);
    for i in 0..10u8 {
        builder.add(&[b'k', b'0' + i], &[b'v', b'0' + i]);
    }
    let table = builder.build(3).unwrap();
    assert_eq!(table.block_meta.len(), 4);
    let firsts: Vec<Vec<u8>> = table.block_meta.iter().map(|m| m.first_key.to_vec()).collect();
    assert_eq!(firsts, vec![b"k0".to_vec(), b"k3".to_vec(), b"k6".to_vec(), b"k9".to_vec()]);
    let lasts: Vec<Vec<u8>> = table.block_meta.iter().map(|m| m.last_key.to_vec()).collect();
    assert_eq!(lasts, vec![b"k2".to_vec(), b"k5".to_vec(), b"k8".to_vec(), b"k9".to_vec()]);
}

#[test]
fn builder_with_one_block_has_one_record() {
    let mut builder = SsTableBuilder::new(4096);
    builder.add(b"a", b"1");
    builder.add(b"b", b"");
    builder.add(b"c", b"3");
    assert_eq!(builder.estimated_size(), 0);
    let table = builder.build(9).unwrap();
    assert_eq!(table.block_meta.len(), 1);
    assert_eq!(table.block_meta[0].offset, 0);
    assert_eq!(table.block_meta[0].first_key.as_ref(), b"a");
    assert_eq!(table.block_meta[0].last_key.as_ref(), b"c");
    assert_eq!(table.block_meta_offset, 6 + 5 + 6 + 6);
}

#[test]
fn builder_without_entries_does_not_build() {
    let builder = SsTableBuilder::new(4096);
    assert_eq!(builder.estimated_size(), 0);
    assert!(matches!(builder.build(1), Err(BuildError::Empty)));
    assert!(matches!(SsTableBuilder::new(16).build_for_test(), Err(BuildError::Empty)));
}

#[test]
fn block_meta_index_is_written_record_by_record() {
    let metas = vec![
        BlockMeta {
            offset: 0x01020304,
            first_key: bytes::Bytes::copy_from_slice(b"ab"),
            last_key: bytes::Bytes::copy_from_slice(b"xyz"),
        },
        BlockMeta {
            offset: 5,
            first_key: bytes::Bytes::copy_from_slice(b"z"),
            last_key: bytes::Bytes::new(),
        },
    ];
    assert_eq!(BlockMeta::encoded_len(&metas), Some(13 + 9));
    let mut buf = vec![0xee];
    BlockMeta::encode_block_meta(&metas, &mut buf);
    let expected: Vec<u8> = vec![
        0xee, 1, 2, 3, 4, 0, 2, b'a', b'b', 0, 3, b'x', b'y', b'z', //
        0, 0, 0, 5, 0, 1, b'z', 0, 0,
    ];
    assert_eq!(buf, expected);
    assert_eq!(BlockMeta::encoded_len(&[]), Some(0));
}

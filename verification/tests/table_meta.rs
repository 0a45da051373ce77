use bytes::Bytes;
use sstable::block_meta::{BlockMeta, BlockMetaVec};
use sstable::builder::SsTableBuilder;
use sstable::error::TableError;
use sstable::key::{KeyBytes, KeySlice};
use sstable::lookup::Lookup;
use sstable::table::{SsTable, SsTableId, SsTableMeta};

fn key(bytes: &str, version: u64) -> KeyBytes {
    KeyBytes::new(Bytes::from(bytes.as_bytes().to_vec()), version)
}

fn sample() -> Vec<u8> {
    let mut b = SsTableBuilder::new(32);
    b.add(key("apple", 1), Some(b"red".to_vec())).unwrap();
    b.add(key("apple", 4), Some(b"green".to_vec())).unwrap();
    b.add(key("banana", 2), None).unwrap();
    b.add(key("cherry", 1), Some(b"dark".to_vec())).unwrap();
    let (table, bytes) = b.finish(SsTableId(5)).unwrap();
    assert_eq!(table.num_blocks(), 3);
    bytes
}

fn split(bytes: &[u8]) -> (Vec<u8>, Vec<u8>) {
    let n = bytes.len();
    let meta_offset = u64::from_le_bytes(bytes[n - 16..n - 8].try_into().unwrap()) as usize;
    (bytes[..meta_offset].to_vec(), bytes[meta_offset..n - 16].to_vec())
}

#[test]
fn footer_decodes_and_encodes_to_the_same_octets() {
    let (_, footer) = split(&sample());
    let meta = SsTableMeta::decode(SsTableId(5), &footer).unwrap();
    assert_eq!(meta.id, SsTableId(5));
    assert_eq!(meta.min_key, key("apple", 1));
    assert_eq!(meta.max_key, key("cherry", 1));
    assert_eq!(meta.block_metas.len(), 3);
    assert_eq!(meta.block_metas.get(0).first_key, key("apple", 1));
    assert_eq!(meta.block_metas.get(0).offset, 0);
    assert_eq!(meta.block_metas.get(1).first_key, key("apple", 4));
    assert_eq!(meta.block_metas.get(2).first_key, key("cherry", 1));
    assert!(meta.block_metas.get(1).offset < meta.block_metas.get(2).offset);
    let mut again = vec![0xaau8];
    meta.encode(&mut again);
    assert_eq!(again[0], 0xaa);
    assert_eq!(&again[1..], &footer[..]);
}

#[test]
fn footer_with_octets_missing_or_left_over_is_refused() {
    let (_, footer) = split(&sample());
    for cut in 1..=footer.len() {
        assert!(SsTableMeta::decode(SsTableId(5), &footer[..footer.len() - cut]).is_none());
    }
    let mut longer = footer.clone();
    longer.push(0);
    assert!(SsTableMeta::decode(SsTableId(5), &longer).is_none());
}

#[test]
fn index_encodes_count_then_entries() {
    let mut index = BlockMetaVec::new();
    index.push(BlockMeta { first_key: key("a", 1), offset: 0 });
    index.push(BlockMeta { first_key: key("bc", 2), offset: 0x0102_0304 });
    let mut buf = Vec::new();
    index.encode(&mut buf);
    let want: Vec<u8> = vec![
        2, 0, 0, 0, // count
        1, 0, b'a', 1, 0, 0, 0, 0, 0, 0, 0, 0, 0, 0, 0, // first entry
        2, 0, b'b', b'c', 2, 0, 0, 0, 0, 0, 0, 0, 4, 3, 2, 1, // second entry
    ];
    assert_eq!(buf, want);
    let (back, next) = BlockMetaVec::decode(&buf, 0).unwrap();
    assert_eq!(next, buf.len());
    assert_eq!(back.len(), 2);
    assert_eq!(back.get(1).first_key, key("bc", 2));
    assert_eq!(back.get(1).offset, 0x0102_0304);
    assert!(back.is_increasing());
    assert!(BlockMetaVec::decode(&buf[..buf.len() - 1], 0).is_none());
}

#[test]
fn index_order_is_checked_by_key_and_by_offset() {
    let mut index = BlockMetaVec::new();
    assert!(index.is_increasing());
    index.push(BlockMeta { first_key: key("a", 1), offset: 0 });
    assert!(index.is_increasing());
    index.push(BlockMeta { first_key: key("a", 2), offset: 10 });
    assert!(index.is_increasing());
    index.push(BlockMeta { first_key: key("a", 2), offset: 20 });
    assert!(!index.is_increasing());
    let mut index = BlockMetaVec::new();
    index.push(BlockMeta { first_key: key("a", 1), offset: 10 });
    index.push(BlockMeta { first_key: key("b", 1), offset: 10 });
    assert!(!index.is_increasing());
}

#[test]
fn index_finds_the_last_block_not_after_the_key() {
    let mut index = BlockMetaVec::new();
    assert_eq!(index.find_block_index(&KeySlice::from_slice(b"a", 1)), None);
    index.push(BlockMeta { first_key: key("b", 5), offset: 0 });
    index.push(BlockMeta { first_key: key("d", 1), offset: 10 });
    index.push(BlockMeta { first_key: key("d", 9), offset: 20 });
    assert_eq!(index.find_block_index(&KeySlice::from_slice(b"a", 9)), None);
    assert_eq!(index.find_block_index(&KeySlice::from_slice(b"b", 4)), None);
    assert_eq!(index.find_block_index(&KeySlice::from_slice(b"b", 5)), Some(0));
    assert_eq!(index.find_block_index(&KeySlice::from_slice(b"c", 0)), Some(0));
    assert_eq!(index.find_block_index(&KeySlice::from_slice(b"d", 0)), Some(0));
    assert_eq!(index.find_block_index(&KeySlice::from_slice(b"d", 1)), Some(1));
    assert_eq!(index.find_block_index(&KeySlice::from_slice(b"d", 8)), Some(1));
    assert_eq!(index.find_block_index(&KeySlice::from_slice(b"d", 9)), Some(2));
    assert_eq!(index.find_block_index(&KeySlice::from_slice(b"z", 0)), Some(2));
}

#[test]
fn table_is_made_of_footer_and_body_that_agree() {
    let (body, footer) = split(&sample());
    let meta = SsTableMeta::decode(SsTableId(8), &footer).unwrap();
    let table = SsTable::from_meta(meta, body).unwrap();
    assert_eq!(table.table_id(), SsTableId(8));
    assert_eq!(table.get(b"apple", 3), Lookup::Found(b"red".to_vec()));
    assert_eq!(table.get(b"banana", 3), Lookup::Deleted);
}

#[test]
fn footer_and_body_that_disagree_are_refused() {
    let (body, footer) = split(&sample());
    let error_of = |meta: SsTableMeta, body: Vec<u8>| SsTable::from_meta(meta, body).err();
    let decode = || SsTableMeta::decode(SsTableId(8), &footer).unwrap();
    // No block at all.
    let mut meta = decode();
    meta.block_metas = BlockMetaVec::new();
    assert_eq!(error_of(meta, body.clone()), Some(TableError::CorruptMeta));
    // The smallest key comes after the largest.
    let mut meta = decode();
    meta.max_key = key("apple", 0);
    assert_eq!(error_of(meta, body.clone()), Some(TableError::CorruptMeta));
    // The smallest key is not the first key of the first block.
    let mut meta = decode();
    meta.min_key = key("apple", 0);
    assert_eq!(error_of(meta, body.clone()), Some(TableError::CorruptMeta));
    // The index does not grow.
    let mut meta = decode();
    let mut index = BlockMetaVec::new();
    index.push(BlockMeta { first_key: key("apple", 1), offset: 0 });
    index.push(BlockMeta { first_key: key("apple", 1), offset: meta.block_metas.get(1).offset });
    meta.block_metas = index;
    assert_eq!(error_of(meta, body.clone()), Some(TableError::CorruptMeta));
    // The last block starts beyond the body.
    assert_eq!(error_of(decode(), body[..10].to_vec()), Some(TableError::CorruptMeta));
    // The largest key is not the last key of the last block.
    let mut meta = decode();
    meta.max_key = key("cherry", 2);
    assert_eq!(error_of(meta, body.clone()), Some(TableError::CorruptBlock));
    // The body is cut short within the last block.
    assert_eq!(error_of(decode(), body[..body.len() - 1].to_vec()), Some(TableError::CorruptBlock));
    // A first key of the index is not the first key of its block.
    let meta = decode();
    let mut index = BlockMetaVec::new();
    index.push(BlockMeta { first_key: key("apple", 1), offset: 0 });
    index.push(BlockMeta { first_key: key("apple", 3), offset: meta.block_metas.get(1).offset });
    index.push(BlockMeta { first_key: key("cherry", 1), offset: meta.block_metas.get(2).offset });
    let meta = SsTableMeta { block_metas: index, ..meta };
    assert_eq!(error_of(meta, body.clone()), Some(TableError::CorruptBlock));
}

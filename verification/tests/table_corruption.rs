use bytes::Bytes;
use sstable::block::read_block;
use sstable::builder::SsTableBuilder;
use sstable::error::TableError;
use sstable::key::KeyBytes;
use sstable::table::{SsTable, SsTableId};

fn key(bytes: &str, version: u64) -> KeyBytes {
    KeyBytes::new(Bytes::from(bytes.as_bytes().to_vec()), version)
}

fn sample(block_size: usize) -> Vec<u8> {
    let mut b = SsTableBuilder::new(block_size);
    b.add(key("apple", 1), Some(b"red".to_vec())).unwrap();
    b.add(key("apple", 4), Some(b"green".to_vec())).unwrap();
    b.add(key("banana", 2), None).unwrap();
    b.add(key("cherry", 1), Some(b"dark".to_vec())).unwrap();
    b.add(key("damson", 9), Some(Vec::new())).unwrap();
    let (_, bytes) = b.finish(SsTableId(1)).unwrap();
    bytes
}

fn error_of(bytes: Vec<u8>) -> Option<TableError> {
    match SsTable::open(SsTableId(1), bytes) {
        Ok(_) => None,
        Err(e) => Some(e),
    }
}

#[test]
fn truncated_table_is_refused() {
    for block_size in [1usize, 32, 4096] {
        let bytes = sample(block_size);
        assert_eq!(error_of(bytes.clone()), None);
        for cut in 1..=bytes.len() {
            let short = bytes[..bytes.len() - cut].to_vec();
            let e = error_of(short);
            assert!(
                e == Some(TableError::CorruptMeta) || e == Some(TableError::CorruptBlock),
                "cut {} gave {:?}",
                cut,
                e
            );
        }
    }
}

#[test]
fn too_short_input_is_corrupt_meta() {
    assert_eq!(error_of(Vec::new()), Some(TableError::CorruptMeta));
    assert_eq!(error_of(vec![0u8; 15]), Some(TableError::CorruptMeta));
    assert_eq!(error_of(vec![0u8; 16]), Some(TableError::CorruptMeta));
}

#[test]
fn wrong_magic_is_corrupt_meta() {
    let mut bytes = sample(32);
    let n = bytes.len();
    bytes[n - 1] ^= 0x01;
    assert_eq!(error_of(bytes), Some(TableError::CorruptMeta));
}

#[test]
fn wrong_meta_length_is_corrupt_meta() {
    let mut bytes = sample(32);
    let n = bytes.len();
    bytes[n - 8] = bytes[n - 8].wrapping_add(1);
    assert_eq!(error_of(bytes), Some(TableError::CorruptMeta));
}

#[test]
fn wrong_meta_offset_is_corrupt_meta() {
    let mut bytes = sample(32);
    let n = bytes.len();
    bytes[n - 16] = bytes[n - 16].wrapping_add(1);
    assert_eq!(error_of(bytes), Some(TableError::CorruptMeta));
}

#[test]
fn footer_out_of_order_is_corrupt_meta() {
    // The smallest key of the footer is changed so that it no longer is the
    // first key of the first block.
    let bytes = sample(4096);
    let n = bytes.len();
    let meta_offset = u64::from_le_bytes(bytes[n - 16..n - 8].try_into().unwrap()) as usize;
    let mut broken = bytes.clone();
    // index: count (4), then key length (2), then the key "apple".
    let min_key_at = meta_offset + 4 + 2 + 5 + 8 + 4;
    assert_eq!(&broken[min_key_at + 2..min_key_at + 7], b"apple");
    broken[min_key_at + 2] = b'b';
    assert_eq!(error_of(broken), Some(TableError::CorruptMeta));
}

#[test]
fn damaged_block_is_corrupt_block() {
    let bytes = sample(4096);
    let n = bytes.len();
    let meta_offset = u64::from_le_bytes(bytes[n - 16..n - 8].try_into().unwrap()) as usize;
    // The entry count of the only block.
    let mut broken = bytes.clone();
    broken[meta_offset - 4] ^= 0x01;
    assert_eq!(error_of(broken), Some(TableError::CorruptBlock));
    // An offset of the offset table.
    let mut broken = bytes.clone();
    broken[meta_offset - 8] ^= 0x01;
    assert_eq!(error_of(broken), Some(TableError::CorruptBlock));
    // A key octet, which takes the entries out of order.
    let mut broken = bytes.clone();
    assert_eq!(&broken[2..7], b"apple");
    broken[2] = b'z';
    assert_eq!(error_of(broken), Some(TableError::CorruptBlock));
    // The length of the first value.
    let mut broken = bytes.clone();
    broken[15] = broken[15].wrapping_add(1);
    assert_eq!(error_of(broken), Some(TableError::CorruptBlock));
}

#[test]
fn block_decoding_accepts_only_whole_blocks() {
    let bytes = sample(4096);
    let n = bytes.len();
    let meta_offset = u64::from_le_bytes(bytes[n - 16..n - 8].try_into().unwrap()) as usize;
    let block = &bytes[..meta_offset];
    let entries = read_block(block).unwrap();
    assert_eq!(entries.len(), 5);
    assert_eq!(entries[2].key, key("banana", 2));
    assert_eq!(entries[2].value, None);
    assert_eq!(entries[4].value, Some(Vec::new()));
    assert!(read_block(&block[..block.len() - 1]).is_none());
    assert!(read_block(&block[1..]).is_none());
    assert!(read_block(&[]).is_none());
    assert!(read_block(&[0, 0, 0, 0]).is_none());
}

#[test]
fn error_messages_differ() {
    let all = [
        TableError::OutOfOrderInput,
        TableError::EmptyTable,
        TableError::CorruptMeta,
        TableError::CorruptBlock,
    ];
    for (i, a) in all.iter().enumerate() {
        for (j, b) in all.iter().enumerate() {
            assert_eq!(i == j, a.message() == b.message());
        }
    }
}

#[test]
fn prefix_that_is_a_whole_table_opens_as_that_table() {
    // A table of one entry with the empty key.
    let mut b = SsTableBuilder::new(4096);
    b.add(key("", 46), Some(b"v".to_vec())).unwrap();
    let (_, small) = b.finish(SsTableId(1)).unwrap();
    // Two more entries are chosen so that their encoding repeats what
    // follows the first entry in the small table.
    let rest = &small[15..];
    assert_eq!(&rest[0..2], &[0, 0]);
    assert_eq!(&rest[10..14], &[0, 0, 0, 0]);
    let second_version = u64::from_le_bytes(rest[2..10].try_into().unwrap());
    let third_key = rest[16..].to_vec();
    assert_eq!(u16::from_le_bytes(rest[14..16].try_into().unwrap()) as usize, third_key.len());
    let mut b = SsTableBuilder::new(4096);
    b.add(key("", 46), Some(b"v".to_vec())).unwrap();
    b.add(key("", second_version), Some(Vec::new())).unwrap();
    b.add(KeyBytes::new(Bytes::from(third_key), 1), Some(b"tail".to_vec())).unwrap();
    let (_, large) = b.finish(SsTableId(1)).unwrap();
    assert!(large.len() > small.len());
    assert_eq!(&large[..small.len()], &small[..]);
    // Cut down to the length of the small table, the large one is the
    // small one, and opens as such.
    let cut = large[..small.len()].to_vec();
    let opened = SsTable::open(SsTableId(1), cut).unwrap();
    assert_eq!(opened.num_blocks(), 1);
    assert_eq!(opened.load_block(0).len(), 1);
    assert_eq!(opened.max_key(), &key("", 46));
    // Every other cut of the large table is refused.
    for n in 1..=large.len() {
        if large.len() - n == small.len() {
            continue;
        }
        assert!(error_of(large[..large.len() - n].to_vec()).is_some(), "cut {}", n);
    }
}

use bytes::Bytes;
use sstable::builder::SsTableBuilder;
use sstable::entry::Entry;
use sstable::error::TableError;
use sstable::key::{KeyBytes, KeySlice};
use sstable::lookup::Lookup;
use sstable::scan::KeyBound;
use sstable::table::{SsTable, SsTableId, MAGIC};

fn key(bytes: &str, version: u64) -> KeyBytes {
    KeyBytes::new(Bytes::from(bytes.as_bytes().to_vec()), version)
}

fn val(bytes: &str) -> Option<Vec<u8>> {
    Some(bytes.as_bytes().to_vec())
}

fn build(block_size: usize, entries: &[(&str, u64, Option<&str>)]) -> (SsTable, Vec<u8>) {
    let mut b = SsTableBuilder::new(block_size);
    for (k, v, value) in entries {
        let k = key(k, *v);
        let value = value.map(|s| s.as_bytes().to_vec());
        assert!(b.accepts(&k, &value));
        b.add(k, value).unwrap();
    }
    b.finish(SsTableId(7)).unwrap()
}

fn plain(entries: &[Entry]) -> Vec<(Vec<u8>, u64, Option<Vec<u8>>)> {
    entries
        .iter()
        .map(|e| (e.key.key_ref().to_vec(), e.key.version(), e.value.clone()))
        .collect()
}

fn expected(entries: &[(&str, u64, Option<&str>)]) -> Vec<(Vec<u8>, u64, Option<Vec<u8>>)> {
    entries
        .iter()
        .map(|(k, v, value)| (k.as_bytes().to_vec(), *v, value.map(|s| s.as_bytes().to_vec())))
        .collect()
}

const SAMPLE: [(&str, u64, Option<&str>); 8] = [
    ("apple", 1, Some("red")),
    ("apple", 4, Some("green")),
    ("banana", 2, Some("")),
    ("banana", 3, None),
    ("cherry", 1, Some("dark")),
    ("damson", 9, Some("blue")),
    ("elder", 5, None),
    ("fig", 6, Some("purple")),
];

#[test]
fn finish_open_scan_gives_the_entries_back() {
    for block_size in [1usize, 16, 40, 64, 4096] {
        let (table, bytes) = build(block_size, &SAMPLE);
        let direct = table.scan(KeyBound::Unbounded, KeyBound::Unbounded).collect();
        assert_eq!(plain(&direct), expected(&SAMPLE));
        let opened = SsTable::open(SsTableId(7), bytes).unwrap();
        let scanned = opened.scan(KeyBound::Unbounded, KeyBound::Unbounded).collect();
        assert_eq!(plain(&scanned), expected(&SAMPLE));
        assert_eq!(opened.num_blocks(), table.num_blocks());
        assert_eq!(opened.min_key(), table.min_key());
        assert_eq!(opened.max_key(), table.max_key());
    }
}

#[test]
fn scan_yields_one_entry_at_a_time() {
    let (table, _) = build(16, &SAMPLE);
    let mut it = table.scan(KeyBound::Unbounded, KeyBound::Unbounded);
    let mut seen = Vec::new();
    while let Some(e) = it.next() {
        seen.push(e);
    }
    assert!(it.next().is_none());
    assert_eq!(plain(&seen), expected(&SAMPLE));
}

#[test]
fn scan_is_restartable() {
    let (table, _) = build(16, &SAMPLE);
    let first = table.scan(KeyBound::Unbounded, KeyBound::Unbounded).collect();
    let second = table.scan(KeyBound::Unbounded, KeyBound::Unbounded).collect();
    assert_eq!(plain(&first), plain(&second));
}

#[test]
fn scan_respects_its_bounds() {
    for block_size in [1usize, 40, 4096] {
        let (table, _) = build(block_size, &SAMPLE);
        let got = table
            .scan(KeyBound::Included(key("banana", 3)), KeyBound::Excluded(key("elder", 5)))
            .collect();
        assert_eq!(plain(&got), expected(&SAMPLE[3..6]));
        let got = table
            .scan(KeyBound::Excluded(key("banana", 3)), KeyBound::Included(key("elder", 5)))
            .collect();
        assert_eq!(plain(&got), expected(&SAMPLE[4..7]));
        let got = table.scan(KeyBound::Unbounded, KeyBound::Included(key("apple", 4))).collect();
        assert_eq!(plain(&got), expected(&SAMPLE[0..2]));
        let got = table.scan(KeyBound::Included(key("e", 0)), KeyBound::Unbounded).collect();
        assert_eq!(plain(&got), expected(&SAMPLE[6..8]));
        let got = table.scan(KeyBound::Included(key("zebra", 0)), KeyBound::Unbounded).collect();
        assert!(got.is_empty());
        let got = table.scan(KeyBound::Unbounded, KeyBound::Excluded(key("apple", 1))).collect();
        assert!(got.is_empty());
        let got = table
            .scan(KeyBound::Included(key("fig", 0)), KeyBound::Included(key("banana", 0)))
            .collect();
        assert!(got.is_empty());
    }
}

#[test]
fn visibility_picks_the_largest_version_not_above_the_reader() {
    let entries = [("K", 1, Some("a")), ("K", 3, Some("b")), ("K", 5, Some("c"))];
    for block_size in [1usize, 4096] {
        let (table, _) = build(block_size, &entries);
        assert_eq!(table.get(b"K", 4), Lookup::Found(b"b".to_vec()));
        assert_eq!(table.get(b"K", 5), Lookup::Found(b"c".to_vec()));
        assert_eq!(table.get(b"K", 0), Lookup::NotFound);
        assert_eq!(table.get(b"K", 2), Lookup::Found(b"a".to_vec()));
        assert_eq!(table.get(b"K", 1), Lookup::Found(b"a".to_vec()));
        assert_eq!(table.get(b"K", u64::MAX), Lookup::Found(b"c".to_vec()));
        assert_eq!(table.get(b"J", 9), Lookup::NotFound);
        assert_eq!(table.get(b"L", 9), Lookup::NotFound);
        assert_eq!(table.get(b"", 9), Lookup::NotFound);
    }
}

#[test]
fn tombstone_is_found_as_deleted() {
    let entries = [("K", 1, Some("x")), ("K", 2, None)];
    for block_size in [1usize, 4096] {
        let (table, bytes) = build(block_size, &entries);
        assert_eq!(table.get(b"K", 3), Lookup::Deleted);
        assert_eq!(table.get(b"K", 2), Lookup::Deleted);
        assert_eq!(table.get(b"K", 1), Lookup::Found(b"x".to_vec()));
        assert_eq!(table.get(b"K", 0), Lookup::NotFound);
        let opened = SsTable::open(SsTableId(1), bytes).unwrap();
        assert_eq!(opened.get(b"K", 3), Lookup::Deleted);
    }
}

#[test]
fn empty_value_is_not_a_deletion() {
    let (table, bytes) = build(4096, &[("K", 1, Some("")), ("L", 1, None)]);
    assert_eq!(table.get(b"K", 1), Lookup::Found(Vec::new()));
    assert_eq!(table.get(b"L", 1), Lookup::Deleted);
    let opened = SsTable::open(SsTableId(1), bytes).unwrap();
    assert_eq!(opened.get(b"K", 1), Lookup::Found(Vec::new()));
    assert_eq!(opened.get(b"L", 1), Lookup::Deleted);
}

#[test]
fn repeated_key_shows_the_entry_added_last() {
    let (table, _) = build(1, &[("K", 1, Some("old")), ("K", 1, Some("new")), ("L", 1, Some("z"))]);
    assert_eq!(table.get(b"K", 1), Lookup::Found(b"new".to_vec()));
    assert_eq!(table.num_blocks(), 2);
}

#[test]
fn key_equal_to_a_later_first_key_resolves_in_that_block() {
    let (table, _) = build(1, &SAMPLE);
    assert_eq!(table.num_blocks(), SAMPLE.len());
    for (i, (k, v, value)) in SAMPLE.iter().enumerate() {
        let q = key(k, *v);
        assert_eq!(table.find_block_index(&q.to_key_slice()), Some(i));
        assert_eq!(table.meta().block_metas.get(i).first_key, q);
        let want = match value {
            Some(s) => Lookup::Found(s.as_bytes().to_vec()),
            None => Lookup::Deleted,
        };
        assert_eq!(table.get(k.as_bytes(), *v), want);
    }
    assert_eq!(table.find_block_index(&KeySlice::from_slice(b"apple", 3)), Some(0));
    assert_eq!(table.find_block_index(&KeySlice::from_slice(b"zebra", 0)), Some(SAMPLE.len() - 1));
}

#[test]
fn key_before_all_keys_is_before_the_first_block() {
    for block_size in [1usize, 4096] {
        let (table, _) = build(block_size, &SAMPLE);
        assert_eq!(table.find_block_index(&KeySlice::from_slice(b"aardvark", 9)), None);
        assert_eq!(table.find_block_index(&KeySlice::from_slice(b"apple", 0)), None);
        assert_eq!(table.get(b"aardvark", 9), Lookup::NotFound);
        assert_eq!(table.get(b"apple", 0), Lookup::NotFound);
    }
}

#[test]
fn add_refuses_a_key_below_the_previous_one() {
    let mut b = SsTableBuilder::new(4096);
    b.add(key("b", 2), val("x")).unwrap();
    assert_eq!(b.add(key("a", 9), val("y")), Err(TableError::OutOfOrderInput));
    assert_eq!(b.add(key("b", 1), val("y")), Err(TableError::OutOfOrderInput));
    assert_eq!(b.estimated_size(), 10);
    assert_eq!(b.add(key("b", 2), val("again")), Ok(()));
    assert_eq!(b.add(key("b", 3), None), Ok(()));
    let (table, _) = b.finish(SsTableId(1)).unwrap();
    let all = table.scan(KeyBound::Unbounded, KeyBound::Unbounded).collect();
    assert_eq!(
        plain(&all),
        expected(&[("b", 2, Some("x")), ("b", 2, Some("again")), ("b", 3, None)])
    );
}

#[test]
fn finish_refuses_an_empty_builder() {
    let b = SsTableBuilder::new(4096);
    assert_eq!(b.estimated_size(), 0);
    match b.finish(SsTableId(1)) {
        Err(e) => assert_eq!(e, TableError::EmptyTable),
        Ok(_) => panic!("an empty table was built"),
    }
}

#[test]
fn estimated_size_counts_keys_versions_and_values() {
    let mut b = SsTableBuilder::new(16);
    assert_eq!(b.estimated_size(), 0);
    b.add(key("apple", 1), val("red")).unwrap();
    assert_eq!(b.estimated_size(), 5 + 8 + 3);
    b.add(key("apple", 2), None).unwrap();
    assert_eq!(b.estimated_size(), 16 + 5 + 8);
    b.add(key("pear", 1), val("")).unwrap();
    assert_eq!(b.estimated_size(), 29 + 4 + 8);
}

#[test]
fn blocks_close_at_the_size_threshold() {
    // Each entry counts 1 + 8 + 1 = 10 octets.
    let entries = [
        ("a", 1, Some("1")),
        ("b", 1, Some("2")),
        ("c", 1, Some("3")),
        ("d", 1, Some("4")),
        ("e", 1, Some("5")),
    ];
    let (table, _) = build(20, &entries);
    assert_eq!(table.num_blocks(), 3);
    assert_eq!(table.load_block(0).len(), 2);
    assert_eq!(table.load_block(1).len(), 2);
    assert_eq!(table.load_block(2).len(), 1);
    let (table, _) = build(19, &entries);
    assert_eq!(table.num_blocks(), 5);
    let (table, _) = build(50, &entries);
    assert_eq!(table.num_blocks(), 1);
    let (table, _) = build(0, &entries);
    assert_eq!(table.num_blocks(), 5);
}

#[test]
fn encoding_of_a_small_table_is_exact() {
    let (table, bytes) = build(4096, &[("ab", 1, Some("xyz")), ("c", 2, None)]);
    let mut want: Vec<u8> = Vec::new();
    // entry 0
    want.extend_from_slice(&[2, 0]);
    want.extend_from_slice(b"ab");
    want.extend_from_slice(&[1, 0, 0, 0, 0, 0, 0, 0]);
    want.extend_from_slice(&[3, 0, 0, 0]);
    want.extend_from_slice(b"xyz");
    // entry 1
    want.extend_from_slice(&[1, 0]);
    want.extend_from_slice(b"c");
    want.extend_from_slice(&[2, 0, 0, 0, 0, 0, 0, 0]);
    want.extend_from_slice(&[0xff, 0xff, 0xff, 0xff]);
    // offsets and count
    want.extend_from_slice(&[0, 0, 0, 0]);
    want.extend_from_slice(&[19, 0, 0, 0]);
    want.extend_from_slice(&[2, 0, 0, 0]);
    let body_len = want.len();
    assert_eq!(body_len, 46);
    // index
    want.extend_from_slice(&[1, 0, 0, 0]);
    want.extend_from_slice(&[2, 0]);
    want.extend_from_slice(b"ab");
    want.extend_from_slice(&[1, 0, 0, 0, 0, 0, 0, 0]);
    want.extend_from_slice(&[0, 0, 0, 0]);
    // min key, max key
    want.extend_from_slice(&[2, 0]);
    want.extend_from_slice(b"ab");
    want.extend_from_slice(&[1, 0, 0, 0, 0, 0, 0, 0]);
    want.extend_from_slice(&[1, 0]);
    want.extend_from_slice(b"c");
    want.extend_from_slice(&[2, 0, 0, 0, 0, 0, 0, 0]);
    let meta_len = want.len() - body_len;
    assert_eq!(meta_len, 43);
    // trailer
    want.extend_from_slice(&(body_len as u64).to_le_bytes());
    want.extend_from_slice(&(meta_len as u32).to_le_bytes());
    want.extend_from_slice(&MAGIC.to_le_bytes());
    assert_eq!(bytes, want);
    assert_eq!(table.table_id(), SsTableId(7));
    assert_eq!(table.min_key(), &key("ab", 1));
    assert_eq!(table.max_key(), &key("c", 2));
    assert_eq!(table.meta().block_metas.len(), 1);
    assert_eq!(table.meta().block_metas.get(0).offset, 0);
}

#[test]
fn open_keeps_the_identifier_it_is_given() {
    let (_, bytes) = build(16, &SAMPLE);
    let opened = SsTable::open(SsTableId(99), bytes).unwrap();
    assert_eq!(opened.table_id(), SsTableId(99));
    assert_eq!(opened.meta().id, SsTableId(99));
    assert_eq!(opened.min_key(), &key("apple", 1));
    assert_eq!(opened.max_key(), &key("fig", 6));
}

#[test]
fn builder_limits_are_reported() {
    let b = SsTableBuilder::new(16);
    let long = KeyBytes::new(Bytes::from(vec![b'k'; 0x1_0000]), 1);
    assert!(!b.accepts(&long, &None));
    let longest = KeyBytes::new(Bytes::from(vec![b'k'; 0xffff]), 1);
    assert!(b.accepts(&longest, &None));
    assert!(b.accepts(&key("k", 1), &val("v")));
}

use bytes::Bytes;
use sstable::builder::SsTableBuilder;
use sstable::key::{KeyBytes, KeySlice};
use sstable::lookup::Lookup;
use sstable::scan::KeyBound;
use sstable::table::{SsTable, SsTableId};

type Plain = (Vec<u8>, u64, Option<Vec<u8>>);

struct Lcg(u64);

impl Lcg {
    fn next(&mut self) -> u64 {
        self.0 = self.0.wrapping_mul(6364136223846793005).wrapping_add(1442695040888963407);
        self.0 >> 33
    }
}

fn generate(seed: u64, count: usize) -> Vec<Plain> {
    let mut rng = Lcg(seed);
    let mut entries: Vec<Plain> = Vec::new();
    for _ in 0..count {
        let len = (rng.next() % 4) as usize;
        let key: Vec<u8> = (0..len).map(|_| b'a' + (rng.next() % 3) as u8).collect();
        let version = rng.next() % 6;
        let value = match rng.next() % 4 {
            0 => None,
            1 => Some(Vec::new()),
            _ => Some((0..(rng.next() % 9) as usize).map(|_| (rng.next() % 256) as u8).collect()),
        };
        entries.push((key, version, value));
    }
    entries.sort_by(|a, b| (&a.0, a.1).cmp(&(&b.0, b.1)));
    entries
}

fn build(block_size: usize, entries: &[Plain]) -> (SsTable, Vec<u8>) {
    let mut b = SsTableBuilder::new(block_size);
    let mut size = 0;
    for (k, v, value) in entries {
        let key = KeyBytes::new(Bytes::from(k.clone()), *v);
        assert!(b.accepts(&key, value));
        b.add(key, value.clone()).unwrap();
        size += k.len() + 8 + value.as_ref().map_or(0, |x| x.len());
        assert_eq!(b.estimated_size(), size);
    }
    b.finish(SsTableId(3)).unwrap()
}

fn model_get(entries: &[Plain], key: &[u8], version: u64) -> Lookup {
    let mut found = Lookup::NotFound;
    for (k, v, value) in entries {
        if k.as_slice() == key && *v <= version {
            found = match value {
                Some(x) => Lookup::Found(x.clone()),
                None => Lookup::Deleted,
            };
        }
    }
    found
}

fn model_block(key: &[u8], version: u64, firsts: &[(Vec<u8>, u64)]) -> Option<usize> {
    let mut at = None;
    for (i, (k, v)) in firsts.iter().enumerate() {
        if (k.as_slice(), *v) <= (key, version) {
            at = Some(i);
        }
    }
    at
}

fn scanned(table: &SsTable, lower: KeyBound, upper: KeyBound) -> Vec<Plain> {
    table
        .scan(lower, upper)
        .collect()
        .iter()
        .map(|e| (e.key.key_ref().to_vec(), e.key.version(), e.value.clone()))
        .collect()
}

#[test]
fn table_agrees_with_a_plain_list() {
    for seed in 1..=6u64 {
        let entries = generate(seed, 120);
        for block_size in [0usize, 24, 60, 200, 100_000] {
            let (built, bytes) = build(block_size, &entries);
            let table = SsTable::open(SsTableId(3), bytes).unwrap();
            assert_eq!(table.num_blocks(), built.num_blocks());
            assert_eq!(scanned(&table, KeyBound::Unbounded, KeyBound::Unbounded), entries);
            let firsts: Vec<(Vec<u8>, u64)> = (0..table.num_blocks())
                .map(|i| {
                    let m = table.meta().block_metas.get(i);
                    (m.first_key.key_ref().to_vec(), m.first_key.version())
                })
                .collect();
            let mut total = 0;
            for i in 0..table.num_blocks() {
                let block = table.load_block(i);
                assert_eq!(block[0].key.key_ref(), firsts[i].0.as_slice());
                assert_eq!(block[0].key.version(), firsts[i].1);
                total += block.len();
            }
            assert_eq!(total, entries.len());
            let mut rng = Lcg(seed + 100);
            for _ in 0..200 {
                let len = (rng.next() % 4) as usize;
                let key: Vec<u8> = (0..len).map(|_| b'a' + (rng.next() % 4) as u8).collect();
                let version = rng.next() % 7;
                assert_eq!(table.get(&key, version), model_get(&entries, &key, version));
                assert_eq!(
                    table.find_block_index(&KeySlice::from_slice(&key, version)),
                    model_block(&key, version, &firsts)
                );
            }
        }
    }
}

#[test]
fn scan_agrees_with_a_filter() {
    let entries = generate(42, 150);
    let (table, _) = build(48, &entries);
    let mut rng = Lcg(7);
    for round in 0..120 {
        let mut bound = |rng: &mut Lcg| {
            let len = (rng.next() % 3) as usize;
            let key: Vec<u8> = (0..len).map(|_| b'a' + (rng.next() % 4) as u8).collect();
            (key, rng.next() % 7)
        };
        let lo = bound(&mut rng);
        let hi = bound(&mut rng);
        let kb = |b: &(Vec<u8>, u64)| KeyBytes::new(Bytes::from(b.0.clone()), b.1);
        let (lower, above): (KeyBound, Box<dyn Fn(&Plain) -> bool>) = match round % 3 {
            0 => (KeyBound::Unbounded, Box::new(|_| true)),
            1 => {
                let l = lo.clone();
                (KeyBound::Included(kb(&lo)), Box::new(move |e| (&l.0, l.1) <= (&e.0, e.1)))
            }
            _ => {
                let l = lo.clone();
                (KeyBound::Excluded(kb(&lo)), Box::new(move |e| (&l.0, l.1) < (&e.0, e.1)))
            }
        };
        let (upper, below): (KeyBound, Box<dyn Fn(&Plain) -> bool>) = match (round / 3) % 3 {
            0 => (KeyBound::Unbounded, Box::new(|_| true)),
            1 => {
                let h = hi.clone();
                (KeyBound::Included(kb(&hi)), Box::new(move |e| (&e.0, e.1) <= (&h.0, h.1)))
            }
            _ => {
                let h = hi.clone();
                (KeyBound::Excluded(kb(&hi)), Box::new(move |e| (&e.0, e.1) < (&h.0, h.1)))
            }
        };
        let want: Vec<Plain> = entries.iter().filter(|e| above(e) && below(e)).cloned().collect();
        assert_eq!(scanned(&table, lower, upper), want, "round {}", round);
    }
}

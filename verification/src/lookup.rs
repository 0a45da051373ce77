//! Point lookups: which entry a reader at a given version sees.
//!
//! A reader at version `r` sees, of the entries with the key it asks for,
//! the one with the largest version that does not exceed `r`. Entries with
//! the same key stand together in a table, in ascending version, so that
//! entry is the last one at or before the position of `(key, r)`.

use crate::block_meta::is_block_of;
use crate::codec::get_bytes;
use crate::entry::{entries_view, entry_le, sorted, Entry, EntryView};
use crate::key::{
    key_le, key_lt, lemma_key_le_transitive, lemma_key_trichotomy, lemma_same_bytes_between,
    lemma_same_bytes_order_by_version, same_bytes, KeySlice, KeyView,
};
use crate::layout::{
    block_start, lemma_block_facts, lemma_block_start, lemma_flat_index, lemma_table_sorted,
};
use crate::table::{block_entries, table_blocks, table_entries, table_ok, SsTable, TableView};
use vstd::prelude::*;

verus! {

/// What a point lookup finds.
#[derive(Debug, PartialEq, Eq)]
pub enum Lookup {
    /// No entry with the key is visible at the version asked for.
    NotFound,
    /// The visible entry records a deletion.
    Deleted,
    /// The visible entry holds this value.
    Found(Vec<u8>),
}

/// The key of `e` does not come after `q`.
pub open spec fn at_most(e: EntryView, q: KeyView) -> bool {
    key_le(e.key, q)
}

/// `p` is the upper bound of `q` in `es`: exactly the entries before
/// position `p` have keys that do not come after `q`.
pub open spec fn is_upper_bound(es: Seq<EntryView>, q: KeyView, p: int) -> bool {
    &&& 0 <= p <= es.len()
    &&& forall|j: int| 0 <= j < es.len() ==> (#[trigger] at_most(es[j], q) <==> j < p)
}

/// `e` has the key asked for, at a version that a reader at `version` can
/// see.
pub open spec fn matches_query(e: EntryView, key: Seq<u8>, version: u64) -> bool {
    e.key.bytes == key && e.key.version <= version
}

/// Entry `i` is the one that a reader of `key` at `version` sees: it
/// matches, and no later entry does.
pub open spec fn is_visible(es: Seq<EntryView>, key: Seq<u8>, version: u64, i: int) -> bool {
    &&& 0 <= i < es.len()
    &&& matches_query(es[i], key, version)
    &&& forall|j: int| i < j < es.len() ==> !#[trigger] matches_query(es[j], key, version)
}

/// `r` reports what entry `i` holds: its value, or that it records a
/// deletion.
pub open spec fn lookup_at(es: Seq<EntryView>, i: int, r: Lookup) -> bool {
    match r {
        Lookup::NotFound => false,
        Lookup::Deleted => es[i].value is None,
        Lookup::Found(v) => es[i].value == Some(v@),
    }
}

/// `r` is what a reader of `key` at `version` finds in `es`: what the
/// visible entry holds, or that no entry is visible.
pub open spec fn lookup_is(es: Seq<EntryView>, key: Seq<u8>, version: u64, r: Lookup) -> bool {
    if r is NotFound {
        forall|j: int| 0 <= j < es.len() ==> !#[trigger] matches_query(es[j], key, version)
    } else {
        exists|i: int| #[trigger] is_visible(es, key, version, i) && lookup_at(es, i, r)
    }
}

/// What a reader finds is determined: two results that both fit are the
/// same.
pub proof fn lemma_lookup_unique(
    es: Seq<EntryView>,
    key: Seq<u8>,
    version: u64,
    r1: Lookup,
    r2: Lookup,
)
    requires
        lookup_is(es, key, version, r1),
        lookup_is(es, key, version, r2),
    ensures
        r1 is NotFound <==> r2 is NotFound,
        r1 is Deleted <==> r2 is Deleted,
        match (r1, r2) {
            (Lookup::Found(a), Lookup::Found(b)) => a@ == b@,
            _ => true,
        },
{
    if !(r1 is NotFound) && !(r2 is NotFound) {
        let i = choose|i: int| is_visible(es, key, version, i) && lookup_at(es, i, r1);
        let j = choose|j: int| is_visible(es, key, version, j) && lookup_at(es, j, r2);
    } else if !(r1 is NotFound) {
        let i = choose|i: int| is_visible(es, key, version, i) && lookup_at(es, i, r1);
    } else if !(r2 is NotFound) {
        let j = choose|j: int| is_visible(es, key, version, j) && lookup_at(es, j, r2);
    }
}

/// In a sorted run a position is the upper bound of `q` as soon as the
/// entry before it does not come after `q` and the entry at it does.
pub proof fn lemma_upper_bound_from_neighbours(es: Seq<EntryView>, q: KeyView, p: int)
    requires
        sorted(es),
        0 <= p <= es.len(),
        p > 0 ==> at_most(es[p - 1], q),
        p < es.len() ==> !at_most(es[p], q),
    ensures
        is_upper_bound(es, q, p),
{
    assert forall|j: int| 0 <= j < es.len() implies (#[trigger] at_most(es[j], q) <==> j < p) by {
        if j < p {
            if j < p - 1 {
                assert(entry_le(es[j], es[p - 1]));
            }
            lemma_key_le_transitive(es[j].key, es[p - 1].key, q);
        } else {
            if p < j {
                assert(entry_le(es[p], es[j]));
            }
            if at_most(es[j], q) {
                lemma_key_le_transitive(es[p].key, es[j].key, q);
            }
        }
    }
}

/// The upper bound of `q` in the block that can hold `q` gives the upper
/// bound of `q` in the whole table.
pub proof fn lemma_upper_bound_in_table(v: TableView, q: KeyView, b: int, p: int)
    requires
        table_ok(v),
        is_block_of(v.index, q, b),
        is_upper_bound(block_entries(v, b), q, p),
    ensures
        p >= 1,
        is_upper_bound(table_entries(v), q, block_start(table_blocks(v), b) + p),
        table_entries(v)[block_start(table_blocks(v), b) + p - 1] == block_entries(v, b)[p - 1],
{
    let blocks = table_blocks(v);
    let block = block_entries(v, b);
    let es = table_entries(v);
    lemma_table_sorted(v);
    lemma_block_facts(v, b);
    lemma_block_start(blocks, b);
    assert(at_most(block[0], q));
    lemma_flat_index(blocks, b, p - 1);
    let at = block_start(blocks, b) + p;
    if p < block.len() {
        lemma_flat_index(blocks, b, p);
    } else if b + 1 < v.index.len() {
        lemma_block_facts(v, b + 1);
        lemma_flat_index(blocks, b + 1, 0);
        lemma_key_trichotomy(q, v.index[b + 1].first_key);
    }
    lemma_upper_bound_from_neighbours(es, q, at);
}

/// A key that comes before the first key of a table has its upper bound at
/// the start.
pub proof fn lemma_upper_bound_before_table(v: TableView, q: KeyView)
    requires
        table_ok(v),
        key_lt(q, v.index[0].first_key),
    ensures
        is_upper_bound(table_entries(v), q, 0),
{
    lemma_table_sorted(v);
    lemma_key_trichotomy(q, v.index[0].first_key);
    lemma_upper_bound_from_neighbours(table_entries(v), q, 0);
}

/// The visible entry stands just before the upper bound of `(key,
/// version)`, if that entry has the key; else no entry is visible.
pub proof fn lemma_visible_before_upper_bound(
    es: Seq<EntryView>,
    key: Seq<u8>,
    version: u64,
    p: int,
)
    requires
        sorted(es),
        is_upper_bound(es, KeyView { bytes: key, version }, p),
    ensures
        p > 0 && es[p - 1].key.bytes == key ==> is_visible(es, key, version, p - 1),
        !(p > 0 && es[p - 1].key.bytes == key) ==> forall|j: int|
            0 <= j < es.len() ==> !#[trigger] matches_query(es[j], key, version),
{
    let q = KeyView { bytes: key, version };
    assert forall|j: int| 0 <= j < es.len() && #[trigger] matches_query(
        es[j],
        key,
        version,
    ) implies j < p by {
        lemma_same_bytes_order_by_version(es[j].key, q);
        assert(at_most(es[j], q));
    }
    if p > 0 {
        assert(at_most(es[p - 1], q));
        if es[p - 1].key.bytes == key {
            lemma_same_bytes_order_by_version(es[p - 1].key, q);
        } else {
            assert forall|j: int| 0 <= j < es.len() implies !#[trigger] matches_query(
                es[j],
                key,
                version,
            ) by {
                if matches_query(es[j], key, version) {
                    if j < p - 1 {
                        assert(entry_le(es[j], es[p - 1]));
                    }
                    lemma_same_bytes_between(es[j].key, es[p - 1].key, q);
                }
            }
        }
    }
}

/// The upper bound of `q` in a sorted run: the number of entries whose keys
/// do not come after `q`.
pub fn upper_bound(es: &Vec<Entry>, q: &KeySlice<'_>) -> (p: usize)
    requires
        sorted(entries_view(es@)),
    ensures
        is_upper_bound(entries_view(es@), q@, p as int),
{
    let ghost all = entries_view(es@);
    let mut lo: usize = 0;
    let mut hi: usize = es.len();
    while lo < hi
        invariant
            lo <= hi <= es@.len(),
            all == entries_view(es@),
            sorted(all),
            lo > 0 ==> at_most(all[lo - 1], q@),
            hi < all.len() ==> !at_most(all[hi as int], q@),
        decreases hi - lo,
    {
        let mid = lo + (hi - lo) / 2;
        let probe = es[mid].key.to_key_slice();
        if probe <= *q {
            lo = mid + 1;
        } else {
            proof {
                lemma_key_trichotomy(probe@, q@);
            }
            hi = mid;
        }
    }
    proof {
        lemma_upper_bound_from_neighbours(all, q@, lo as int);
    }
    lo
}

impl SsTable {
    /// The block that can hold `key`: the last one whose first key does not
    /// come after `key`. The result is `None` where `key` comes before the
    /// first block, and so before every entry of the table.
    pub fn find_block_index(&self, key: &KeySlice<'_>) -> (r: Option<usize>)
        requires
            self.wf(),
        ensures
            match r {
                Some(i) => is_block_of(self@.index, key@, i as int),
                None => key_lt(key@, self@.index[0].first_key) && is_upper_bound(
                    self.entries(),
                    key@,
                    0,
                ),
            },
    {
        let r = self.meta().block_metas.find_block_index(key);
        proof {
            if r is None {
                lemma_upper_bound_before_table(self@, key@);
            }
        }
        r
    }

    /// What a reader of `key` at `version` finds: the value of the entry
    /// with this key and the largest version that does not exceed
    /// `version`, or that this entry records a deletion, or that there is no
    /// such entry.
    pub fn get(&self, key: &[u8], version: u64) -> (r: Lookup)
        requires
            self.wf(),
        ensures
            lookup_is(self.entries(), key@, version, r),
    {
        let q = KeySlice::from_slice(key, version);
        let ghost es = self.entries();
        proof {
            lemma_table_sorted(self@);
        }
        match self.find_block_index(&q) {
            None => {
                proof {
                    lemma_visible_before_upper_bound(es, key@, version, 0);
                }
                Lookup::NotFound
            },
            Some(b) => {
                let block = self.load_block(b);
                proof {
                    lemma_block_facts(self@, b as int);
                }
                let p = upper_bound(&block, &q);
                proof {
                    lemma_upper_bound_in_table(self@, q@, b as int, p as int);
                    lemma_visible_before_upper_bound(
                        es,
                        key@,
                        version,
                        block_start(table_blocks(self@), b as int) + p,
                    );
                }
                let found = &block[p - 1];
                if same_bytes(found.key.key_ref(), key) {
                    match &found.value {
                        Some(value) => {
                            assert(value@.subrange(0, value@.len() as int) =~= value@);
                            Lookup::Found(get_bytes(value.as_slice(), 0, value.len()))
                        },
                        None => Lookup::Deleted,
                    }
                } else {
                    Lookup::NotFound
                }
            },
        }
    }
}

} // verus!

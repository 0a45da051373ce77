//! Laws that hold across building, encoding, opening and scanning a table.

use crate::builder::{
    footprint, layout_of, lemma_layout_of, lemma_table_of_encodable, MAX_TABLE_SIZE,
};
use crate::block_meta::{is_block_of, lemma_block_of_unique, lemma_first_key_in_own_block};
use crate::entry::{key_encodable, sorted, EntryView};
use crate::error::TableError;
use crate::key::{key_lt, KeyView};
use crate::layout::{lemma_table_of_ok, lemma_table_sorted, table_of};
use crate::lookup::{
    is_visible, lemma_upper_bound_before_table, lemma_visible_before_upper_bound, lookup_is,
    Lookup,
};
use crate::scan::{is_range_of, lemma_full_range, BoundView};
use crate::table::{
    encode_table, lemma_encode_parsed_layout, lemma_parse_encoded_table, parse_table,
    table_entries, table_ok, SsTableId, TableView,
};
use vstd::prelude::*;

verus! {

/// Entries that are added to a builder in key order come back unchanged:
/// the table that is built of them is well formed and holds exactly these
/// entries, opening its encoding gives this table, and a scan without
/// bounds, which yields the positions from `a` up to `b`, yields them all.
pub proof fn lemma_build_open_scan(
    entries: Seq<EntryView>,
    block_size: nat,
    id: SsTableId,
    a: int,
    b: int,
)
    requires
        entries.len() > 0,
        sorted(entries),
        forall|i: int| 0 <= i < entries.len() ==> key_encodable(#[trigger] entries[i].key),
        footprint(entries) <= MAX_TABLE_SIZE,
        is_range_of(entries, BoundView::Unbounded, BoundView::Unbounded, a, b),
    ensures
        ({
            let built = table_of(layout_of(entries, block_size), id);
            &&& table_ok(built)
            &&& table_entries(built) == entries
            &&& parse_table(encode_table(built), id) == Ok::<TableView, TableError>(built)
            &&& table_entries(built).subrange(a, b) == entries
        }),
{
    let blocks = layout_of(entries, block_size);
    lemma_layout_of(entries, block_size);
    lemma_table_of_encodable(blocks, entries, id);
    lemma_table_of_ok(blocks, id);
    lemma_parse_encoded_table(table_of(blocks, id));
    lemma_full_range(entries, a, b);
}

/// A table that is opened accounts for every octet it was opened from: it
/// is well formed, and its encoding is the very octets that were given.
/// Nothing is skipped and nothing is left over.
pub proof fn lemma_opened_table_is_whole(file: Seq<u8>, id: SsTableId)
    requires
        parse_table(file, id) is Ok,
    ensures
        parse_table(file, id) matches Ok(v) && table_ok(v) && v.id == id && encode_table(v)
            == file,
{
    lemma_encode_parsed_layout(file, id);
}

/// A table that is cut short at its end is refused, as corrupt in its
/// footer or in a block, unless the octets that are left are by themselves
/// the whole encoding of a well-formed table.
pub proof fn lemma_truncated_table_refused(file: Seq<u8>, id: SsTableId, n: int)
    requires
        0 < n <= file.len(),
        forall|w: TableView|
            table_ok(w) ==> #[trigger] encode_table(w) != file.take(file.len() - n),
    ensures
        parse_table(file.take(file.len() - n), id) matches Err(e) && (e == TableError::CorruptMeta
            || e == TableError::CorruptBlock),
{
    let cut = file.take(file.len() - n);
    if parse_table(cut, id) is Ok {
        lemma_opened_table_is_whole(cut, id);
    }
}

/// A key that is the first key of a block is looked up in that block and in
/// no other.
pub proof fn lemma_first_key_resolves_in_its_block(v: TableView, b: int, i: int)
    requires
        table_ok(v),
        0 <= b < v.index.len(),
        is_block_of(v.index, v.index[b].first_key, i),
    ensures
        is_block_of(v.index, v.index[b].first_key, b),
        i == b,
{
    lemma_first_key_in_own_block(v.index, b);
    lemma_block_of_unique(v.index, v.index[b].first_key, i, b);
}

/// A key that comes before every key of a table is not found in it, at
/// whatever version it is read.
pub proof fn lemma_key_before_table_not_found(v: TableView, key: Seq<u8>, version: u64, r: Lookup)
    requires
        table_ok(v),
        key_lt(KeyView { bytes: key, version }, v.min_key),
        lookup_is(table_entries(v), key, version, r),
    ensures
        r is NotFound,
{
    let es = table_entries(v);
    lemma_table_sorted(v);
    lemma_upper_bound_before_table(v, KeyView { bytes: key, version });
    lemma_visible_before_upper_bound(es, key, version, 0);
    if !(r is NotFound) {
        let i = choose|i: int| is_visible(es, key, version, i);
    }
}

} // verus!

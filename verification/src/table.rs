//! Immutable sorted tables.
//!
//! An encoded table is the blocks one after another (the body), then the
//! footer, then a trailer of fixed size that locates the footer:
//!
//! ```text
//! [block 0] .. [block k-1]
//! [k: u32] { [first_key_len: u16][first_key][version: u64][offset: u32] } * k
//! [min_key][max_key]
//! [meta_offset: u64][meta_length: u32][magic: u32]
//! ```
//!
//! Keys in the footer are written as in an entry: length, octets, version.
//! All integers are little-endian.
//!
//! Opening a table checks the footer and every block, so that a table in
//! hand is always well formed: its blocks decode, their entries are sorted
//! across the whole table, and the index names the first key of each block.

use crate::block::{decode_block, lemma_decode_block_nonempty, read_block};
use crate::block_meta::{
    encode_index, encoded_index_len, index_encodable, index_increasing,
    lemma_encode_block_metas_len, lemma_encode_parsed_index, lemma_parse_encoded_index,
    meta_before, parse_index, BlockMetaVec, BlockMetaView,
};
use crate::codec::{get_u32, get_u64, lemma_le_bytes, lemma_le_bytes_back};
use crate::entry::{
    encode_key, encoded_key_len, entries_view, is_sorted, key_encodable, lemma_encode_key_len,
    lemma_encode_parsed_key, lemma_parse_encoded_key, parse_key, read_key, sorted, write_key,
    Entry, EntryView,
};
use crate::error::TableError;
use crate::key::{key_le, key_lt, lemma_key_trichotomy, KeyBytes, KeyView};
use vstd::bytes::*;
use vstd::prelude::*;
use vstd::slice::slice_subrange;

verus! {

/// The last four octets of every encoded table.
pub const MAGIC: u32 = 0x4254_5353;

/// The number of octets of the trailer.
pub const TRAILER_LEN: usize = 16;

/// Identifies the storage unit of a table. The table layer gives it no
/// meaning; it only carries it.
#[derive(Clone, Copy, Debug, PartialEq, Eq, Structural, PartialOrd, Ord, Hash)]
pub struct SsTableId(pub u64);

/// The mathematical value of a table: what its footer says and the octets
/// of its body.
pub struct TableView {
    pub id: SsTableId,
    pub min_key: KeyView,
    pub max_key: KeyView,
    pub index: Seq<BlockMetaView>,
    pub body: Seq<u8>,
}

/// Where block `i` ends in the body: at the start of the next block, or at
/// the end of the body.
pub open spec fn block_end(v: TableView, i: int) -> int {
    if i + 1 < v.index.len() {
        v.index[i + 1].offset as int
    } else {
        v.body.len() as int
    }
}

/// The octets of block `i`.
pub open spec fn block_bytes(v: TableView, i: int) -> Seq<u8> {
    v.body.subrange(v.index[i].offset as int, block_end(v, i))
}

/// The entries of block `i`.
pub open spec fn block_entries(v: TableView, i: int) -> Seq<EntryView> {
    decode_block(block_bytes(v, i))->0
}

/// The entries of the table, block by block.
pub open spec fn table_blocks(v: TableView) -> Seq<Seq<EntryView>> {
    Seq::new(v.index.len(), |i: int| block_entries(v, i))
}

/// The entries of the table, in order.
pub open spec fn table_entries(v: TableView) -> Seq<EntryView> {
    table_blocks(v).flatten()
}

/// The footer is consistent: there is a block, first keys and offsets grow
/// strictly, the first block starts the body and the last starts inside it,
/// the smallest key is the first key of the first block and does not come
/// after the largest key.
pub open spec fn index_ok(v: TableView) -> bool {
    &&& 1 <= v.index.len()
    &&& index_increasing(v.index)
    &&& v.index[0].offset == 0
    &&& v.index.last().offset < v.body.len()
    &&& v.min_key == v.index[0].first_key
    &&& key_le(v.min_key, v.max_key)
}

/// Block `i` decodes, its entries are sorted, its first key is the one the
/// index names, and its last key comes before the first key of the next
/// block or, in the last block, is the largest key of the table.
pub open spec fn block_ok(v: TableView, i: int) -> bool {
    match decode_block(block_bytes(v, i)) {
        None => false,
        Some(es) => {
            &&& sorted(es)
            &&& es[0].key == v.index[i].first_key
            &&& if i + 1 < v.index.len() {
                key_lt(es.last().key, v.index[i + 1].first_key)
            } else {
                es.last().key == v.max_key
            }
        },
    }
}

/// Every block of the table is in order.
pub open spec fn blocks_ok(v: TableView) -> bool {
    forall|i: int| 0 <= i < v.index.len() ==> #[trigger] block_ok(v, i)
}

/// The table is well formed.
pub open spec fn table_ok(v: TableView) -> bool {
    index_ok(v) && blocks_ok(v)
}

/// The number of octets of the encoded footer.
pub open spec fn encoded_meta_len(v: TableView) -> nat {
    encoded_index_len(v.index) + encoded_key_len(v.min_key) + encoded_key_len(v.max_key)
}

/// The wire form of the footer: the index, the smallest key, the largest
/// key.
pub open spec fn encode_meta(v: TableView) -> Seq<u8> {
    encode_index(v.index) + encode_key(v.min_key) + encode_key(v.max_key)
}

/// The wire form of the trailer.
pub open spec fn encode_trailer(meta_offset: u64, meta_len: u32) -> Seq<u8> {
    spec_u64_to_le_bytes(meta_offset) + spec_u32_to_le_bytes(meta_len) + spec_u32_to_le_bytes(MAGIC)
}

/// The wire form of a table: body, footer, trailer.
pub open spec fn encode_table(v: TableView) -> Seq<u8> {
    v.body + encode_meta(v) + encode_trailer(v.body.len() as u64, encoded_meta_len(v) as u32)
}

/// The footer fits the wire form: keys are short enough, and the sizes fit
/// the integers that hold them.
pub open spec fn table_encodable(v: TableView) -> bool {
    &&& index_encodable(v.index)
    &&& key_encodable(v.min_key)
    &&& key_encodable(v.max_key)
    &&& v.index.len() <= u32::MAX
    &&& v.body.len() + encoded_meta_len(v) + TRAILER_LEN <= u32::MAX
}

/// Reads a footer that fills `s`: index, smallest key, largest key, and
/// nothing after them.
pub open spec fn parse_meta(s: Seq<u8>) -> Option<(Seq<BlockMetaView>, KeyView, KeyView)> {
    match parse_index(s, 0) {
        None => None,
        Some((index, at_min)) => match parse_key(s, at_min) {
            None => None,
            Some((min_key, at_max)) => match parse_key(s, at_max) {
                None => None,
                Some((max_key, at_end)) => if at_end == s.len() {
                    Some((index, min_key, max_key))
                } else {
                    None
                },
            },
        },
    }
}

/// Takes an encoded table apart by its trailer: the table that the footer
/// describes, or `None` where the trailer or the footer is malformed.
pub open spec fn parse_layout(file: Seq<u8>, id: SsTableId) -> Option<TableView> {
    if file.len() < TRAILER_LEN {
        None
    } else {
        let t = file.len() - TRAILER_LEN;
        let meta_offset = spec_u64_from_le_bytes(file.subrange(t, t + 8));
        let meta_len = spec_u32_from_le_bytes(file.subrange(t + 8, t + 12));
        let magic = spec_u32_from_le_bytes(file.subrange(t + 12, t + 16));
        if magic != MAGIC || meta_offset + meta_len != t {
            None
        } else {
            match parse_meta(file.subrange(meta_offset as int, t)) {
                None => None,
                Some((index, min_key, max_key)) => Some(
                    TableView {
                        id,
                        min_key,
                        max_key,
                        index,
                        body: file.subrange(0, meta_offset as int),
                    },
                ),
            }
        }
    }
}

/// What checking a table gives: the table itself, or the reason why it is
/// refused. A footer out of order is reported before a block out of order.
pub open spec fn check_table(v: TableView) -> Result<TableView, TableError> {
    if !index_ok(v) {
        Err(TableError::CorruptMeta)
    } else if !blocks_ok(v) {
        Err(TableError::CorruptBlock)
    } else {
        Ok(v)
    }
}

/// What opening an encoded table gives: the table, or the reason why it is
/// refused.
pub open spec fn parse_table(file: Seq<u8>, id: SsTableId) -> Result<TableView, TableError> {
    match parse_layout(file, id) {
        None => Err(TableError::CorruptMeta),
        Some(v) => check_table(v),
    }
}

/// The encoded footer has the length that `encoded_meta_len` gives.
pub proof fn lemma_encode_meta_len(v: TableView)
    ensures
        encode_meta(v).len() == encoded_meta_len(v),
{
    lemma_le_bytes();
    lemma_encode_block_metas_len(v.index);
    lemma_encode_key_len(v.min_key);
    lemma_encode_key_len(v.max_key);
}

/// Reading an encoded footer gives the footer back.
pub proof fn lemma_parse_encoded_meta(v: TableView)
    requires
        table_encodable(v),
    ensures
        parse_meta(encode_meta(v)) == Some((v.index, v.min_key, v.max_key)),
{
    lemma_le_bytes();
    lemma_encode_block_metas_len(v.index);
    lemma_encode_key_len(v.min_key);
    lemma_encode_key_len(v.max_key);
    let s = encode_meta(v);
    let at_min = encoded_index_len(v.index) as int;
    let at_max = at_min + encoded_key_len(v.min_key);
    let at_end = at_max + encoded_key_len(v.max_key);
    assert(s.subrange(0, at_min) =~= encode_index(v.index));
    assert(s.subrange(at_min, at_max) =~= encode_key(v.min_key));
    assert(s.subrange(at_max, at_end) =~= encode_key(v.max_key));
    lemma_parse_encoded_index(s, 0, v.index);
    lemma_parse_encoded_key(s, at_min, v.min_key);
    lemma_parse_encoded_key(s, at_max, v.max_key);
}

/// Opening an encoded table gives the table back: a well-formed table that
/// fits the wire form is accepted, with the same footer and the same body,
/// and so with the same entries.
pub proof fn lemma_parse_encoded_table(v: TableView)
    requires
        table_ok(v),
        table_encodable(v),
    ensures
        parse_layout(encode_table(v), v.id) == Some(v),
        parse_table(encode_table(v), v.id) == Ok::<TableView, TableError>(v),
{
    lemma_le_bytes();
    lemma_encode_meta_len(v);
    lemma_parse_encoded_meta(v);
    let file = encode_table(v);
    let body_len = v.body.len() as int;
    let t = body_len + encoded_meta_len(v);
    assert(file.subrange(t, t + 8) =~= spec_u64_to_le_bytes(body_len as u64));
    assert(file.subrange(t + 8, t + 12) =~= spec_u32_to_le_bytes(encoded_meta_len(v) as u32));
    assert(file.subrange(t + 12, t + 16) =~= spec_u32_to_le_bytes(MAGIC));
    assert(file.subrange(body_len, t) =~= encode_meta(v));
    assert(file.subrange(0, body_len) =~= v.body);
}

/// What is taken apart as a table is the wire form of that table: every
/// octet is accounted for by the body, the footer or the trailer.
pub proof fn lemma_encode_parsed_layout(file: Seq<u8>, id: SsTableId)
    requires
        parse_layout(file, id) is Some,
    ensures
        encode_table(parse_layout(file, id)->0) == file,
{
    lemma_le_bytes();
    lemma_le_bytes_back();
    let v = parse_layout(file, id)->0;
    let t = file.len() - TRAILER_LEN;
    let f0 = file.subrange(t, t + 8);
    let f1 = file.subrange(t + 8, t + 12);
    let f2 = file.subrange(t + 12, t + 16);
    let meta_offset = spec_u64_from_le_bytes(f0);
    let meta_len = spec_u32_from_le_bytes(f1);
    assert(spec_u64_to_le_bytes(spec_u64_from_le_bytes(f0)) == f0);
    assert(spec_u32_to_le_bytes(spec_u32_from_le_bytes(f1)) == f1);
    assert(spec_u32_to_le_bytes(spec_u32_from_le_bytes(f2)) == f2);
    let footer = file.subrange(meta_offset as int, t);
    let (index, at_min) = parse_index(footer, 0)->0;
    let (min_key, at_max) = parse_key(footer, at_min)->0;
    let (max_key, at_end) = parse_key(footer, at_max)->0;
    lemma_encode_parsed_index(footer, 0);
    lemma_encode_parsed_key(footer, at_min);
    lemma_encode_parsed_key(footer, at_max);
    assert(footer =~= footer.subrange(0, at_min) + footer.subrange(at_min, at_max)
        + footer.subrange(at_max, at_end));
    assert(encode_meta(v) == footer);
    assert(encoded_meta_len(v) == meta_len);
    assert(v.body.len() == meta_offset);
    assert(file =~= v.body + footer + (f0 + f1 + f2));
}

/// What the footer of a table holds.
#[derive(Debug)]
pub struct SsTableMeta {
    /// The identifier under which the table was built or opened.
    pub id: SsTableId,
    /// The key of the first entry.
    pub min_key: KeyBytes,
    /// The key of the last entry.
    pub max_key: KeyBytes,
    /// The block index.
    pub block_metas: BlockMetaVec,
}

/// The table that a footer and a body make.
pub open spec fn table_view(meta: SsTableMeta, body: Seq<u8>) -> TableView {
    TableView {
        id: meta.id,
        min_key: meta.min_key@,
        max_key: meta.max_key@,
        index: meta.block_metas@,
        body,
    }
}

impl SsTableMeta {
    /// Appends the wire form of the footer: the index, the smallest key,
    /// the largest key.
    pub fn encode(&self, buf: &mut Vec<u8>)
        requires
            index_encodable(self.block_metas@),
            self.block_metas@.len() <= u32::MAX,
            key_encodable(self.min_key@),
            key_encodable(self.max_key@),
        ensures
            final(buf)@ == old(buf)@ + encode_meta(table_view(*self, Seq::empty())),
    {
        self.block_metas.encode(buf);
        write_key(buf, &self.min_key);
        write_key(buf, &self.max_key);
    }

    /// Reads a footer that fills `s`, as `parse_meta` describes, and gives
    /// it the identifier `id`.
    pub fn decode(id: SsTableId, s: &[u8]) -> (r: Option<SsTableMeta>)
        ensures
            match parse_meta(s@) {
                Some((index, min_key, max_key)) => r matches Some(m) && m.id == id
                    && m.block_metas@ == index && m.min_key@ == min_key && m.max_key@ == max_key,
                None => r is None,
            },
    {
        let (block_metas, at_min) = match BlockMetaVec::decode(s, 0) {
            None => {
                return None;
            },
            Some(x) => x,
        };
        let (min_key, at_max) = match read_key(s, at_min) {
            None => {
                return None;
            },
            Some(x) => x,
        };
        let (max_key, at_end) = match read_key(s, at_max) {
            None => {
                return None;
            },
            Some(x) => x,
        };
        if at_end != s.len() {
            return None;
        }
        Some(SsTableMeta { id, min_key, max_key, block_metas })
    }
}

/// A read-only table: its footer and the octets of its blocks.
#[derive(Debug)]
pub struct SsTable {
    meta: SsTableMeta,
    body: Vec<u8>,
}

impl View for SsTable {
    type V = TableView;

    closed spec fn view(&self) -> TableView {
        table_view(self.meta, self.body@)
    }
}

impl SsTable {
    /// The table is well formed. Every table that this library hands out
    /// is.
    pub open spec fn wf(&self) -> bool {
        table_ok(self@)
    }

    /// The entries of the table, in order.
    pub open spec fn entries(&self) -> Seq<EntryView> {
        table_entries(self@)
    }

    /// Puts a table together from a footer and a body that are known to
    /// agree.
    pub(crate) fn from_parts(meta: SsTableMeta, body: Vec<u8>) -> (t: SsTable)
        requires
            table_ok(table_view(meta, body@)),
        ensures
            t.wf(),
            t@ == table_view(meta, body@),
    {
        SsTable { meta, body }
    }

    /// The footer of the table.
    pub fn meta(&self) -> (m: &SsTableMeta)
        ensures
            m.id == self@.id,
            m.min_key@ == self@.min_key,
            m.max_key@ == self@.max_key,
            m.block_metas@ == self@.index,
    {
        &self.meta
    }

    /// The identifier of the table.
    pub fn table_id(&self) -> (id: SsTableId)
        ensures
            id == self@.id,
    {
        self.meta.id
    }

    /// The key of the first entry.
    pub fn min_key(&self) -> (k: &KeyBytes)
        ensures
            k@ == self@.min_key,
    {
        &self.meta.min_key
    }

    /// The key of the last entry.
    pub fn max_key(&self) -> (k: &KeyBytes)
        ensures
            k@ == self@.max_key,
    {
        &self.meta.max_key
    }

    /// The number of blocks.
    pub fn num_blocks(&self) -> (n: usize)
        ensures
            n == self@.index.len(),
    {
        self.meta.block_metas.len()
    }

    /// The octets of block `i`.
    fn block_slice(&self, i: usize) -> (s: &[u8])
        requires
            index_ok(self@),
            i < self@.index.len(),
        ensures
            s@ == block_bytes(self@, i as int),
    {
        let n = self.meta.block_metas.len();
        let start = self.meta.block_metas.get(i).offset as usize;
        let end = if i + 1 < n {
            self.meta.block_metas.get(i + 1).offset as usize
        } else {
            self.body.len()
        };
        proof {
            let v = self@;
            if i + 1 < n {
                assert(meta_before(v.index[i as int], v.index[i + 1]));
                if i + 1 < n - 1 {
                    assert(meta_before(v.index[i + 1], v.index[n - 1]));
                }
            }
        }
        slice_subrange(self.body.as_slice(), start, end)
    }

    /// Whether block `i` is in order, as `block_ok` describes.
    fn check_block(&self, i: usize) -> (r: bool)
        requires
            index_ok(self@),
            i < self@.index.len(),
        ensures
            r == block_ok(self@, i as int),
    {
        let n = self.meta.block_metas.len();
        match read_block(self.block_slice(i)) {
            None => false,
            Some(es) => {
                proof {
                    lemma_decode_block_nonempty(block_bytes(self@, i as int));
                }
                let first = &es[0];
                let last = &es[es.len() - 1];
                if !is_sorted(&es) {
                    return false;
                }
                if first.key != self.meta.block_metas.get(i).first_key {
                    return false;
                }
                if i + 1 < n {
                    last.key < self.meta.block_metas.get(i + 1).first_key
                } else {
                    last.key == self.meta.max_key
                }
            },
        }
    }

    /// Whether every block is in order.
    fn check_blocks(&self) -> (r: bool)
        requires
            index_ok(self@),
        ensures
            r == blocks_ok(self@),
    {
        let n = self.meta.block_metas.len();
        let mut i: usize = 0;
        while i < n
            invariant
                i <= n,
                n == self@.index.len(),
                index_ok(self@),
                forall|j: int| 0 <= j < i ==> #[trigger] block_ok(self@, j),
            decreases n - i,
        {
            if !self.check_block(i) {
                return false;
            }
            i = i + 1;
        }
        true
    }

    /// The entries of block `i`, decoded.
    pub fn load_block(&self, i: usize) -> (es: Vec<Entry>)
        requires
            self.wf(),
            i < self@.index.len(),
        ensures
            entries_view(es@) == block_entries(self@, i as int),
            es@.len() >= 1,
    {
        assert(block_ok(self@, i as int));
        proof {
            lemma_decode_block_nonempty(block_bytes(self@, i as int));
        }
        match read_block(self.block_slice(i)) {
            Some(es) => es,
            None => {
                assert(false);
                Vec::new()
            },
        }
    }

    /// Makes a table of a footer and a body, after checking that they
    /// agree: the result is the table that `check_table` describes, or the
    /// error that it names.
    pub fn from_meta(meta: SsTableMeta, body: Vec<u8>) -> (r: Result<SsTable, TableError>)
        ensures
            match check_table(table_view(meta, body@)) {
                Ok(v) => r matches Ok(t) && t@ == v && t.wf(),
                Err(e) => r matches Err(x) && x == e,
            },
    {
        let n = meta.block_metas.len();
        if n == 0 || !meta.block_metas.is_increasing() {
            return Err(TableError::CorruptMeta);
        }
        if meta.block_metas.get(0).offset != 0 || meta.block_metas.get(n - 1).offset as usize
            >= body.len() {
            return Err(TableError::CorruptMeta);
        }
        proof {
            lemma_key_trichotomy(meta.min_key@, meta.max_key@);
        }
        if meta.min_key != meta.block_metas.get(0).first_key || meta.min_key > meta.max_key {
            return Err(TableError::CorruptMeta);
        }
        let table = SsTable { meta, body };
        if !table.check_blocks() {
            return Err(TableError::CorruptBlock);
        }
        Ok(table)
    }

    /// Opens an encoded table. The trailer, the footer and every block are
    /// checked; the result is the table that `parse_table` describes, or the
    /// error that it names.
    pub fn open(id: SsTableId, file: Vec<u8>) -> (r: Result<SsTable, TableError>)
        ensures
            match parse_table(file@, id) {
                Ok(v) => r matches Ok(t) && t@ == v && t.wf(),
                Err(e) => r matches Err(x) && x == e,
            },
    {
        let len = file.len();
        if len < TRAILER_LEN {
            return Err(TableError::CorruptMeta);
        }
        let t = len - TRAILER_LEN;
        let s = file.as_slice();
        let meta_offset = get_u64(s, t);
        let meta_len = get_u32(s, t + 8);
        let magic = get_u32(s, t + 12);
        if magic != MAGIC {
            return Err(TableError::CorruptMeta);
        }
        if meta_offset > t as u64 || t as u64 - meta_offset != meta_len as u64 {
            return Err(TableError::CorruptMeta);
        }
        let body_len = meta_offset as usize;
        let meta = match SsTableMeta::decode(id, slice_subrange(s, body_len, t)) {
            None => {
                return Err(TableError::CorruptMeta);
            },
            Some(m) => m,
        };
        let mut body = file;
        body.truncate(body_len);
        SsTable::from_meta(meta, body)
    }
}

} // verus!

//! Building a table from a sorted stream of entries.
//!
//! Entries are added in key order. They are packed into blocks: an entry
//! that would take the open block over the size threshold closes it and
//! starts the next block, unless it repeats the key added last, which always
//! stays in the block of its twin so that first keys differ from block to
//! block. Finishing closes the open block and yields the table together with
//! its encoding.

use crate::block::{encoded_block_len, lemma_entries_push, BlockBuilder, MAX_BLOCK_LEN};
use crate::block_meta::{
    encoded_block_metas_len, lemma_block_metas_push, BlockMeta, BlockMetaVec, BlockMetaView,
};
use crate::codec::{get_bytes, put_u32, put_u64};
use crate::entry::{
    encoded_entry_len, entry_le, key_encodable, lemma_sorted_push, sorted, value_view,
    EntryView, MAX_KEY_LEN,
};
use crate::error::TableError;
use crate::key::{key_le, key_lt, lemma_key_trichotomy, KeyBytes};
use crate::layout::{
    block_fits, block_follows, body_len, encode_body, index_of, layout_ok, lemma_body_push,
    lemma_encode_body_len, lemma_table_of_ok, table_of,
};
use crate::table::{
    encode_meta, encode_table, encoded_meta_len, lemma_encode_meta_len, lemma_parse_encoded_table,
    parse_table, table_encodable, table_entries, table_ok, SsTable, SsTableId,
    SsTableMeta, TableView, MAGIC,
};
use vstd::prelude::*;

verus! {

/// The most key and value octets, versions included, that one table holds.
pub const MAX_TABLE_SIZE: usize = 0x1000_0000;

/// The number of octets of a value; a deletion has none.
pub open spec fn value_len(v: Option<Seq<u8>>) -> nat {
    match v {
        Some(b) => b.len(),
        None => 0,
    }
}

/// What an entry counts for in size accounting: its key with the version,
/// and its value.
pub open spec fn entry_footprint(e: EntryView) -> nat {
    e.key.bytes.len() + 8 + value_len(e.value)
}

/// What a run of entries counts for in size accounting.
pub open spec fn footprint(es: Seq<EntryView>) -> nat
    decreases es.len(),
{
    if es.len() == 0 {
        0
    } else {
        footprint(es.drop_last()) + entry_footprint(es.last())
    }
}

/// The blocks after `e` is added to a table whose blocks are `blocks`: `e`
/// starts a block where there is none yet, or where it would take the last
/// block over `block_size` and does not repeat the last key; else it joins
/// the last block.
pub open spec fn layout_add(blocks: Seq<Seq<EntryView>>, e: EntryView, block_size: nat) -> Seq<
    Seq<EntryView>,
> {
    if blocks.len() == 0 {
        seq![seq![e]]
    } else if footprint(blocks.last()) + entry_footprint(e) > block_size && blocks.last().last().key
        != e.key {
        blocks.push(seq![e])
    } else {
        blocks.drop_last().push(blocks.last().push(e))
    }
}

/// Adding an entry to a run adds what it counts for.
pub proof fn lemma_footprint_push(es: Seq<EntryView>, e: EntryView)
    ensures
        footprint(es.push(e)) == footprint(es) + entry_footprint(e),
{
    assert(es.push(e).drop_last() =~= es);
}

/// The blocks of a table to which `entries` were added one after another.
pub open spec fn layout_of(entries: Seq<EntryView>, block_size: nat) -> Seq<Seq<EntryView>>
    decreases entries.len(),
{
    if entries.len() == 0 {
        Seq::empty()
    } else {
        layout_add(layout_of(entries.drop_last(), block_size), entries.last(), block_size)
    }
}

/// The octets that the blocks and their index take on the wire.
pub open spec fn layout_weight(blocks: Seq<Seq<EntryView>>) -> nat {
    body_len(blocks) + encoded_block_metas_len(index_of(blocks))
}

/// The blocks hold the entries `all` in order and can make a table, and
/// their size on the wire is bounded by what the entries count for.
pub open spec fn layout_holds(blocks: Seq<Seq<EntryView>>, all: Seq<EntryView>) -> bool {
    &&& layout_ok(blocks)
    &&& blocks.flatten() == all
    &&& all.len() == 0 ==> blocks.len() == 0
    &&& all.len() > 0 ==> blocks.len() > 0 && blocks.last().last() == all.last()
    &&& layout_weight(blocks) <= 5 * footprint(all)
    &&& blocks.len() <= footprint(all)
    &&& footprint(all) <= MAX_TABLE_SIZE
}

/// No blocks hold no entries.
pub proof fn lemma_layout_empty()
    ensures
        layout_holds(Seq::empty(), Seq::empty()),
{
    let blocks = Seq::<Seq<EntryView>>::empty();
    assert(index_of(blocks) =~= Seq::<BlockMetaView>::empty());
}

/// An entry whose key comes after the last key can start a block of its
/// own.
pub proof fn lemma_layout_start(blocks: Seq<Seq<EntryView>>, all: Seq<EntryView>, e: EntryView)
    requires
        layout_holds(blocks, all),
        key_encodable(e.key),
        footprint(all) + entry_footprint(e) <= MAX_TABLE_SIZE,
        all.len() > 0 ==> key_lt(all.last().key, e.key),
    ensures
        layout_holds(blocks.push(seq![e]), all.push(e)),
        index_of(blocks.push(seq![e])) == index_of(blocks).push(
            BlockMetaView { first_key: e.key, offset: body_len(blocks) as u32 },
        ),
        encoded_block_len(seq![e]) == encoded_entry_len(e) + 8,
        body_len(blocks) <= layout_weight(blocks),
{
    let block = seq![e];
    let after = blocks.push(block);
    let meta = BlockMetaView { first_key: e.key, offset: body_len(blocks) as u32 };
    lemma_entries_push(Seq::empty(), e);
    lemma_footprint_push(all, e);
    lemma_body_push(blocks, block);
    blocks.lemma_flatten_push(block);
    assert(all + block =~= all.push(e));
    assert forall|i: int| 0 <= i < after.len() implies index_of(after)[i] == index_of(blocks).push(
        meta,
    )[i] by {
        if i < blocks.len() {
            assert(after.take(i) =~= blocks.take(i));
        }
    }
    assert(index_of(after) =~= index_of(blocks).push(meta));
    lemma_block_metas_push(index_of(blocks), meta);
    assert forall|i: int| 0 <= i < after.len() - 1 implies #[trigger] block_follows(after, i) by {
        if i < blocks.len() - 1 {
            assert(block_follows(blocks, i));
        }
    }
}

/// An entry whose key does not come before the last key can join the last
/// block.
pub proof fn lemma_layout_join(blocks: Seq<Seq<EntryView>>, all: Seq<EntryView>, e: EntryView)
    requires
        layout_holds(blocks, all),
        all.len() > 0,
        key_encodable(e.key),
        footprint(all) + entry_footprint(e) <= MAX_TABLE_SIZE,
        key_le(all.last().key, e.key),
    ensures
        layout_holds(blocks.drop_last().push(blocks.last().push(e)), all.push(e)),
        index_of(blocks.drop_last().push(blocks.last().push(e))) == index_of(blocks),
        encoded_block_len(blocks.last().push(e)) == encoded_block_len(blocks.last())
            + encoded_entry_len(e) + 4,
        encoded_block_len(blocks.last().push(e)) <= MAX_BLOCK_LEN,
{
    let front = blocks.drop_last();
    let last = blocks.last();
    let grown = last.push(e);
    let after = front.push(grown);
    assert(block_fits(last));
    assert(blocks =~= front.push(last));
    lemma_entries_push(last, e);
    lemma_footprint_push(all, e);
    lemma_body_push(front, last);
    lemma_body_push(front, grown);
    lemma_sorted_push(last, e);
    front.lemma_flatten_push(last);
    front.lemma_flatten_push(grown);
    assert forall|i: int| 0 <= i < after.len() implies index_of(after)[i] == index_of(
        blocks,
    )[i] by {
        assert(after.take(i) =~= blocks.take(i));
    }
    assert(index_of(after) =~= index_of(blocks));
    assert forall|i: int| 0 <= i < after.len() - 1 implies #[trigger] block_follows(after, i) by {
        assert(block_follows(blocks, i));
    }
}

/// Adding an entry in key order keeps the blocks in order, whichever way
/// the size threshold decides.
pub proof fn lemma_layout_add(
    blocks: Seq<Seq<EntryView>>,
    all: Seq<EntryView>,
    e: EntryView,
    block_size: nat,
)
    requires
        layout_holds(blocks, all),
        key_encodable(e.key),
        footprint(all) + entry_footprint(e) <= MAX_TABLE_SIZE,
        all.len() > 0 ==> key_le(all.last().key, e.key),
    ensures
        layout_holds(layout_add(blocks, e, block_size), all.push(e)),
{
    if blocks.len() == 0 {
        lemma_layout_start(blocks, all, e);
        assert(blocks.push(seq![e]) =~= seq![seq![e]]);
    } else if footprint(blocks.last()) + entry_footprint(e) > block_size && blocks.last().last().key
        != e.key {
        lemma_layout_start(blocks, all, e);
    } else {
        lemma_layout_join(blocks, all, e);
    }
}

/// The blocks of a table to which sorted entries were added hold exactly
/// these entries and can make a table.
pub proof fn lemma_layout_of(entries: Seq<EntryView>, block_size: nat)
    requires
        sorted(entries),
        forall|i: int| 0 <= i < entries.len() ==> key_encodable(#[trigger] entries[i].key),
        footprint(entries) <= MAX_TABLE_SIZE,
    ensures
        layout_holds(layout_of(entries, block_size), entries),
    decreases entries.len(),
{
    if entries.len() == 0 {
        lemma_layout_empty();
        assert(entries =~= Seq::<EntryView>::empty());
    } else {
        let front = entries.drop_last();
        let e = entries.last();
        assert forall|i: int, j: int| 0 <= i < j < front.len() implies #[trigger] entry_le(
            front[i],
            front[j],
        ) by {
            assert(entry_le(entries[i], entries[j]));
        }
        lemma_layout_of(front, block_size);
        if front.len() > 0 {
            assert(entry_le(entries[front.len() - 1], entries[entries.len() - 1]));
        }
        lemma_layout_add(layout_of(front, block_size), front, e, block_size);
        assert(front.push(e) =~= entries);
    }
}

/// Blocks that hold entries within the size limit make a table whose
/// footer fits the wire form.
pub proof fn lemma_table_of_encodable(
    blocks: Seq<Seq<EntryView>>,
    all: Seq<EntryView>,
    id: SsTableId,
)
    requires
        layout_holds(blocks, all),
        all.len() > 0,
    ensures
        table_encodable(table_of(blocks, id)),
        body_len(blocks) <= u32::MAX,
{
    let v = table_of(blocks, id);
    lemma_encode_body_len(blocks);
    assert(block_fits(blocks[blocks.len() - 1]));
    assert forall|i: int| 0 <= i < v.index.len() implies key_encodable(
        #[trigger] v.index[i].first_key,
    ) by {
        assert(block_fits(blocks[i]));
    }
}

/// Collects a sorted stream of entries into the blocks of a table.
pub struct SsTableBuilder {
    block_size: usize,
    body: Vec<u8>,
    index: BlockMetaVec,
    block: BlockBuilder,
    used: usize,
    last_key: Option<KeyBytes>,
    size: usize,
    sealed: Ghost<Seq<Seq<EntryView>>>,
    all: Ghost<Seq<EntryView>>,
}

impl SsTableBuilder {
    /// The size threshold at which a block is closed.
    pub closed spec fn block_size(&self) -> nat {
        self.block_size as nat
    }

    /// The entries added so far, in order.
    pub closed spec fn entries(&self) -> Seq<EntryView> {
        self.all@
    }

    /// The entries added so far, block by block; the last block is the open
    /// one.
    pub closed spec fn blocks(&self) -> Seq<Seq<EntryView>> {
        if self.block.entries().len() > 0 {
            self.sealed@.push(self.block.entries())
        } else {
            self.sealed@
        }
    }

    /// What holds of a builder at every moment, also between closing a
    /// block and starting the next.
    spec fn inv(&self) -> bool {
        &&& self.block.wf()
        &&& layout_holds(self.blocks(), self.all@)
        &&& self.size == footprint(self.all@)
        &&& self.used == footprint(self.block.entries())
        &&& self.used <= self.size
        &&& self.body@ == encode_body(self.sealed@)
        &&& self.index@ == index_of(self.blocks())
        &&& match self.last_key {
            None => self.all@.len() == 0,
            Some(k) => self.all@.len() > 0 && k@ == self.all@.last().key,
        }
    }

    /// The builder is in order: what it holds is the encoding of the entries
    /// added, which are sorted and within the size limit.
    pub closed spec fn wf(&self) -> bool {
        &&& self.inv()
        &&& self.all@.len() > 0 ==> self.block.entries().len() > 0
        &&& self.blocks() == layout_of(self.all@, self.block_size as nat)
    }

    /// The blocks are those that the size threshold makes of the entries
    /// added; they hold these entries and are in order.
    pub proof fn lemma_blocks(&self)
        requires
            self.wf(),
        ensures
            self.blocks() == layout_of(self.entries(), self.block_size()),
            layout_holds(self.blocks(), self.entries()),
    {
    }

    /// A builder without entries that closes blocks at `block_size`.
    pub fn new(block_size: usize) -> (b: Self)
        ensures
            b.wf(),
            b.block_size() == block_size,
            b.entries() == Seq::<EntryView>::empty(),
            b.blocks() == Seq::<Seq<EntryView>>::empty(),
    {
        let b = SsTableBuilder {
            block_size,
            body: Vec::new(),
            index: BlockMetaVec::new(),
            block: BlockBuilder::new(),
            used: 0,
            last_key: None,
            size: 0,
            sealed: Ghost(Seq::empty()),
            all: Ghost(Seq::empty()),
        };
        proof {
            lemma_layout_empty();
            assert(b.index@ =~= index_of(b.blocks()));
        }
        b
    }

    /// The key and value octets added so far, versions included.
    pub fn estimated_size(&self) -> (n: usize)
        requires
            self.wf(),
        ensures
            n == footprint(self.entries()),
            n <= MAX_TABLE_SIZE,
    {
        self.size
    }

    /// Whether `add` takes this entry: its key fits the wire form and the
    /// table stays within its size limit.
    pub fn accepts(&self, key: &KeyBytes, value: &Option<Vec<u8>>) -> (r: bool)
        requires
            self.wf(),
        ensures
            r == (key_encodable(key@) && footprint(self.entries()) + entry_footprint(
                EntryView { key: key@, value: value_view(*value) },
            ) <= MAX_TABLE_SIZE),
    {
        let klen = key.key_len();
        let vlen = match value {
            Some(b) => b.len(),
            None => 0,
        };
        klen <= MAX_KEY_LEN && vlen <= MAX_TABLE_SIZE && klen + 8 + vlen <= MAX_TABLE_SIZE
            - self.size
    }

    /// Closes the open block: its encoding goes to the end of the body.
    fn seal(&mut self)
        requires
            old(self).inv(),
            old(self).block.entries().len() > 0,
        ensures
            final(self).inv(),
            final(self).block.entries().len() == 0,
            final(self).sealed@ == old(self).blocks(),
            final(self).blocks() == old(self).blocks(),
            final(self).all@ == old(self).all@,
            final(self).last_key == old(self).last_key,
            final(self).size == old(self).size,
            final(self).block_size == old(self).block_size,
    {
        let mut block = BlockBuilder::new();
        std::mem::swap(&mut self.block, &mut block);
        let ghost cur = block.entries();
        let mut bytes = block.finish();
        proof {
            lemma_body_push(self.sealed@, cur);
        }
        self.body.append(&mut bytes);
        self.sealed = Ghost(self.sealed@.push(cur));
        self.used = 0;
    }

    /// Puts an entry into the open block, which it starts where none is
    /// open.
    fn push_entry(&mut self, key: KeyBytes, value: Option<Vec<u8>>)
        requires
            old(self).inv(),
            key_encodable(key@),
            old(self).size + entry_footprint(EntryView { key: key@, value: value_view(value) })
                <= MAX_TABLE_SIZE,
            old(self).last_key matches Some(last) ==> key_le(last@, key@) && (old(
                self,
            ).block.entries().len() == 0 ==> key_lt(last@, key@)),
        ensures
            final(self).inv(),
            final(self).block.entries() == old(self).block.entries().push(
                EntryView { key: key@, value: value_view(value) },
            ),
            final(self).sealed@ == old(self).sealed@,
            final(self).all@ == old(self).all@.push(
                EntryView { key: key@, value: value_view(value) },
            ),
            final(self).block_size == old(self).block_size,
    {
        let ghost e = EntryView { key: key@, value: value_view(value) };
        let ghost cur = self.block.entries();
        let ghost sealed = self.sealed@;
        let ghost blocks = self.blocks();
        let vlen = match &value {
            Some(b) => b.len(),
            None => 0,
        };
        let fp = key.raw_len() + vlen;
        let starts = self.block.is_empty();
        proof {
            lemma_footprint_push(cur, e);
            lemma_footprint_push(self.all@, e);
            lemma_encode_body_len(sealed);
            if starts {
                lemma_layout_start(blocks, self.all@, e);
                assert(cur.push(e) =~= seq![e]);
            } else {
                lemma_layout_join(blocks, self.all@, e);
                lemma_body_push(sealed, cur);
                assert(blocks.drop_last() =~= sealed);
            }
        }
        if starts {
            let offset = self.body.len() as u32;
            self.index.push(BlockMeta { first_key: key.clone(), offset });
        }
        self.block.add(&key, &value);
        self.used = self.used + fp;
        self.size = self.size + fp;
        self.last_key = Some(key);
        self.all = Ghost(self.all@.push(e));
    }

    /// Adds the entry made of `key` and `value`; a `value` of `None` records
    /// a deletion. The key must not come before the key added last: such an
    /// entry is refused with `OutOfOrderInput` and the builder stays as it
    /// was. An entry that would take the open block over the size threshold
    /// starts a new block, unless it repeats the key added last. The entry
    /// must be one that `accepts` takes.
    pub fn add(&mut self, key: KeyBytes, value: Option<Vec<u8>>) -> (r: Result<(), TableError>)
        requires
            old(self).wf(),
            key_encodable(key@),
            footprint(old(self).entries()) + entry_footprint(
                EntryView { key: key@, value: value_view(value) },
            ) <= MAX_TABLE_SIZE,
        ensures
            final(self).wf(),
            final(self).block_size() == old(self).block_size(),
            match r {
                Ok(()) => {
                    &&& old(self).entries().len() > 0 ==> key_le(
                        old(self).entries().last().key,
                        key@,
                    )
                    &&& final(self).entries() == old(self).entries().push(
                        EntryView { key: key@, value: value_view(value) },
                    )
                    &&& final(self).blocks() == layout_add(
                        old(self).blocks(),
                        EntryView { key: key@, value: value_view(value) },
                        old(self).block_size(),
                    )
                },
                Err(x) => {
                    &&& x == TableError::OutOfOrderInput
                    &&& old(self).entries().len() > 0
                    &&& key_lt(key@, old(self).entries().last().key)
                    &&& final(self).entries() == old(self).entries()
                    &&& final(self).blocks() == old(self).blocks()
                },
            },
    {
        let ghost e = EntryView { key: key@, value: value_view(value) };
        let mut repeats = false;
        match &self.last_key {
            Some(last) => {
                proof {
                    lemma_key_trichotomy(key@, last@);
                }
                if key < *last {
                    return Err(TableError::OutOfOrderInput);
                }
                repeats = key == *last;
            },
            None => {},
        }
        let vlen = match &value {
            Some(b) => b.len(),
            None => 0,
        };
        let fp = key.raw_len() + vlen;
        let seals = !self.block.is_empty() && self.used + fp > self.block_size && !repeats;
        if seals {
            self.seal();
        }
        self.push_entry(key, value);
        proof {
            let cur = old(self).block.entries();
            let sealed = old(self).sealed@;
            if seals {
                assert(self.block.entries() =~= seq![e]);
            } else if cur.len() > 0 {
                assert(old(self).blocks().drop_last() =~= sealed);
            }
            assert(self.all@.drop_last() =~= old(self).all@);
        }
        Ok(())
    }

    /// Once the open block is closed, body and index are those of the table
    /// of the blocks, which is well formed and opens from its encoding.
    proof fn lemma_sealed_table(&self, id: SsTableId)
        requires
            self.inv(),
            self.block.entries().len() == 0,
            self.all@.len() > 0,
        ensures
            ({
                let v = table_of(self.sealed@, id);
                &&& table_ok(v)
                &&& table_encodable(v)
                &&& table_entries(v) == self.all@
                &&& parse_table(encode_table(v), id) == Ok::<TableView, TableError>(v)
                &&& v.id == id
                &&& v.index == self.index@
                &&& v.index.len() >= 1
                &&& v.body == self.body@
                &&& v.min_key == self.index@[0].first_key
                &&& self.last_key matches Some(k) && v.max_key == k@
                &&& encode_meta(v).len() == encoded_meta_len(v)
            }),
    {
        let blocks = self.sealed@;
        let v = table_of(blocks, id);
        lemma_table_of_encodable(blocks, self.all@, id);
        lemma_table_of_ok(blocks, id);
        lemma_encode_meta_len(v);
        lemma_parse_encoded_table(v);
    }

    /// Closes the open block and yields the table with its encoding. A
    /// builder without entries is refused with `EmptyTable`. The table holds
    /// the blocks of the builder, and opening the encoding gives the same
    /// table back.
    pub fn finish(self, id: SsTableId) -> (r: Result<(SsTable, Vec<u8>), TableError>)
        requires
            self.wf(),
        ensures
            match r {
                Ok((t, bytes)) => {
                    &&& self.entries().len() > 0
                    &&& t.wf()
                    &&& t@ == table_of(layout_of(self.entries(), self.block_size()), id)
                    &&& t.entries() == self.entries()
                    &&& bytes@ == encode_table(t@)
                    &&& parse_table(bytes@, id) == Ok::<TableView, TableError>(t@)
                },
                Err(x) => x == TableError::EmptyTable && self.entries().len() == 0,
            },
    {
        let mut this = self;
        if this.block.is_empty() {
            return Err(TableError::EmptyTable);
        }
        this.seal();
        let ghost v = table_of(this.sealed@, id);
        proof {
            this.lemma_sealed_table(id);
        }
        let SsTableBuilder { body, index, last_key, .. } = this;
        let max_key = last_key.unwrap();
        let min_key = index.get(0).first_key.clone();
        let meta = SsTableMeta { id, min_key, max_key, block_metas: index };
        let body_len = body.len();
        let mut file = get_bytes(body.as_slice(), 0, body_len);
        meta.encode(&mut file);
        let meta_len = file.len() - body_len;
        put_u64(&mut file, body_len as u64);
        put_u32(&mut file, meta_len as u32);
        put_u32(&mut file, MAGIC);
        assert(file@ =~= encode_table(v));
        let table = SsTable::from_parts(meta, body);
        Ok((table, file))
    }
}

} // verus!

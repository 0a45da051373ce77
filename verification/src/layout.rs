//! How the entries of a table lie in its blocks: where each block starts in
//! the run of all entries, and why that run is sorted.

use crate::block::{
    block_encodable, encode_block, encoded_block_len, lemma_decode_block_nonempty,
    lemma_decode_encoded_block, lemma_encode_block_len,
};
use crate::block_meta::{meta_before, BlockMetaView};
use crate::entry::{entry_le, sorted, EntryView};
use crate::key::{key_lt, lemma_key_le_transitive};
use crate::table::{
    block_bytes, block_entries, block_ok, table_blocks, table_entries, table_ok,
    SsTableId, TableView,
};
use vstd::prelude::*;
use vstd::seq_lib::lemma_flatten_concat;

verus! {

/// The number of entries in the blocks before block `b`.
pub open spec fn block_start(blocks: Seq<Seq<EntryView>>, b: int) -> int {
    blocks.take(b).flatten().len() as int
}

/// Block `b` follows directly on the blocks before it, and the blocks
/// together are all the entries.
pub proof fn lemma_block_start(blocks: Seq<Seq<EntryView>>, b: int)
    requires
        0 <= b < blocks.len(),
    ensures
        block_start(blocks, 0) == 0,
        block_start(blocks, b + 1) == block_start(blocks, b) + blocks[b].len(),
        block_start(blocks, b + 1) <= blocks.flatten().len(),
        block_start(blocks, blocks.len() as int) == blocks.flatten().len(),
{
    assert(blocks.take(b + 1) =~= blocks.take(b).push(blocks[b]));
    blocks.take(b).lemma_flatten_push(blocks[b]);
    assert(blocks =~= blocks.take(b + 1) + blocks.skip(b + 1));
    lemma_flatten_concat(blocks.take(b + 1), blocks.skip(b + 1));
    assert(blocks.take(blocks.len() as int) =~= blocks);
}

/// Entry `i` of block `b` is the entry at `block_start(b) + i` of the run of
/// all entries.
pub proof fn lemma_flat_index(blocks: Seq<Seq<EntryView>>, b: int, i: int)
    requires
        0 <= b < blocks.len(),
        0 <= i < blocks[b].len(),
    ensures
        0 <= block_start(blocks, b) + i < blocks.flatten().len(),
        blocks.flatten()[block_start(blocks, b) + i] == blocks[b][i],
{
    assert(blocks.take(b + 1) =~= blocks.take(b).push(blocks[b]));
    blocks.take(b).lemma_flatten_push(blocks[b]);
    assert(blocks =~= blocks.take(b + 1) + blocks.skip(b + 1));
    lemma_flatten_concat(blocks.take(b + 1), blocks.skip(b + 1));
}

/// In a well-formed table every block holds an entry, starts with the key
/// that the index names, and is sorted.
pub proof fn lemma_block_facts(v: TableView, b: int)
    requires
        table_ok(v),
        0 <= b < v.index.len(),
    ensures
        table_blocks(v).len() == v.index.len(),
        table_blocks(v)[b] == block_entries(v, b),
        block_entries(v, b).len() >= 1,
        sorted(block_entries(v, b)),
        block_entries(v, b)[0].key == v.index[b].first_key,
        b + 1 < v.index.len() ==> key_lt(
            block_entries(v, b).last().key,
            v.index[b + 1].first_key,
        ),
        b + 1 == v.index.len() ==> block_entries(v, b).last().key == v.max_key,
{
    assert(block_ok(v, b));
    lemma_decode_block_nonempty(block_bytes(v, b));
}

/// The entries of the first `b` blocks of a well-formed table are sorted,
/// and the last of them is the last entry of block `b - 1`.
proof fn lemma_prefix_sorted(v: TableView, b: int)
    requires
        table_ok(v),
        0 <= b <= v.index.len(),
    ensures
        sorted(table_blocks(v).take(b).flatten()),
        b >= 1 ==> table_blocks(v).take(b).flatten().len() >= 1 && table_blocks(v).take(
            b,
        ).flatten().last() == block_entries(v, b - 1).last(),
    decreases b,
{
    let blocks = table_blocks(v);
    if b > 0 {
        lemma_prefix_sorted(v, b - 1);
        lemma_block_facts(v, b - 1);
        let front = blocks.take(b - 1).flatten();
        let block = blocks[b - 1];
        let whole = blocks.take(b).flatten();
        assert(blocks.take(b) =~= blocks.take(b - 1).push(block));
        blocks.take(b - 1).lemma_flatten_push(block);
        if b >= 2 {
            lemma_block_facts(v, b - 2);
        }
        assert forall|i: int, j: int| 0 <= i < j < whole.len() implies #[trigger] entry_le(
            whole[i],
            whole[j],
        ) by {
            if j < front.len() {
                assert(entry_le(front[i], front[j]));
            } else if i >= front.len() {
                assert(entry_le(block[i - front.len()], block[j - front.len()]));
            } else {
                if i < front.len() - 1 {
                    assert(entry_le(front[i], front[front.len() - 1]));
                }
                if j > front.len() {
                    assert(entry_le(block[0], block[j - front.len()]));
                }
                lemma_key_le_transitive(front[i].key, front.last().key, block[0].key);
                lemma_key_le_transitive(front[i].key, block[0].key, whole[j].key);
            }
        }
    }
}

/// The entries of a well-formed table are sorted, from the smallest key of
/// the table to its largest.
pub proof fn lemma_table_sorted(v: TableView)
    requires
        table_ok(v),
    ensures
        sorted(table_entries(v)),
        table_entries(v).len() >= 1,
        table_entries(v)[0].key == v.min_key,
        table_entries(v).last().key == v.max_key,
{
    let blocks = table_blocks(v);
    let n = v.index.len() as int;
    lemma_prefix_sorted(v, n);
    assert(blocks.take(n) =~= blocks);
    lemma_block_facts(v, 0);
    lemma_block_facts(v, n - 1);
    lemma_block_start(blocks, 0);
    lemma_flat_index(blocks, 0, 0);
}

/// The number of octets that the blocks take on the wire, one after
/// another.
pub open spec fn body_len(blocks: Seq<Seq<EntryView>>) -> nat
    decreases blocks.len(),
{
    if blocks.len() == 0 {
        0
    } else {
        body_len(blocks.drop_last()) + encoded_block_len(blocks.last())
    }
}

/// The wire forms of the blocks, one after another.
pub open spec fn encode_body(blocks: Seq<Seq<EntryView>>) -> Seq<u8>
    decreases blocks.len(),
{
    if blocks.len() == 0 {
        Seq::empty()
    } else {
        encode_body(blocks.drop_last()) + encode_block(blocks.last())
    }
}

/// The index of the blocks: the first key of each, and the offset at which
/// it stands when the blocks are encoded one after another.
pub open spec fn index_of(blocks: Seq<Seq<EntryView>>) -> Seq<BlockMetaView> {
    Seq::new(
        blocks.len(),
        |i: int|
            BlockMetaView { first_key: blocks[i][0].key, offset: body_len(blocks.take(i)) as u32 },
    )
}

/// The table that holds these blocks.
pub open spec fn table_of(blocks: Seq<Seq<EntryView>>, id: SsTableId) -> TableView {
    TableView {
        id,
        min_key: blocks[0][0].key,
        max_key: blocks.last().last().key,
        index: index_of(blocks),
        body: encode_body(blocks),
    }
}

/// The block can be encoded and its entries are sorted.
pub open spec fn block_fits(block: Seq<EntryView>) -> bool {
    block_encodable(block) && sorted(block)
}

/// The last key of block `i` comes before the first key of the next block.
pub open spec fn block_follows(blocks: Seq<Seq<EntryView>>, i: int) -> bool {
    key_lt(blocks[i].last().key, blocks[i + 1][0].key)
}

/// The blocks can make a table: each can be encoded and is sorted, and
/// from block to block the keys grow strictly.
pub open spec fn layout_ok(blocks: Seq<Seq<EntryView>>) -> bool {
    &&& forall|i: int| 0 <= i < blocks.len() ==> #[trigger] block_fits(blocks[i])
    &&& forall|i: int| 0 <= i < blocks.len() - 1 ==> #[trigger] block_follows(blocks, i)
}

/// One more block adds its length and its wire form to the body.
pub proof fn lemma_body_push(blocks: Seq<Seq<EntryView>>, block: Seq<EntryView>)
    ensures
        body_len(blocks.push(block)) == body_len(blocks) + encoded_block_len(block),
        encode_body(blocks.push(block)) == encode_body(blocks) + encode_block(block),
{
    assert(blocks.push(block).drop_last() =~= blocks);
}

/// The encoded body has the length that `body_len` gives.
pub proof fn lemma_encode_body_len(blocks: Seq<Seq<EntryView>>)
    ensures
        encode_body(blocks).len() == body_len(blocks),
    decreases blocks.len(),
{
    if blocks.len() > 0 {
        lemma_encode_body_len(blocks.drop_last());
        lemma_encode_block_len(blocks.last());
    }
}

/// The blocks before block `j` start no later than it, and strictly
/// earlier than it where they are fewer.
pub proof fn lemma_body_len_take(blocks: Seq<Seq<EntryView>>, i: int, j: int)
    requires
        0 <= i <= j <= blocks.len(),
    ensures
        body_len(blocks.take(i)) <= body_len(blocks.take(j)),
        i < j ==> body_len(blocks.take(i)) + encoded_block_len(blocks[i]) <= body_len(
            blocks.take(j),
        ),
        body_len(blocks.take(blocks.len() as int)) == body_len(blocks),
    decreases j - i,
{
    assert(blocks.take(blocks.len() as int) =~= blocks);
    if i < j {
        assert(blocks.take(i + 1) =~= blocks.take(i).push(blocks[i]));
        lemma_body_push(blocks.take(i), blocks[i]);
        lemma_body_len_take(blocks, i + 1, j);
    }
}

/// In the encoded body each block stands at its offset.
pub proof fn lemma_encoded_block_at(blocks: Seq<Seq<EntryView>>, i: int)
    requires
        0 <= i < blocks.len(),
    ensures
        body_len(blocks.take(i + 1)) == body_len(blocks.take(i)) + encoded_block_len(blocks[i]),
        body_len(blocks.take(i + 1)) <= encode_body(blocks).len(),
        encode_body(blocks).subrange(
            body_len(blocks.take(i)) as int,
            body_len(blocks.take(i + 1)) as int,
        ) == encode_block(blocks[i]),
    decreases blocks.len(),
{
    let front = blocks.drop_last();
    lemma_encode_body_len(blocks);
    lemma_encode_body_len(front);
    lemma_encode_block_len(blocks.last());
    assert(blocks.take(i + 1) =~= blocks.take(i).push(blocks[i]));
    lemma_body_push(blocks.take(i), blocks[i]);
    if i == blocks.len() - 1 {
        assert(blocks.take(i + 1) =~= blocks);
        assert(encode_body(blocks).subrange(body_len(front) as int, body_len(blocks) as int)
            =~= encode_block(blocks.last()));
    } else {
        lemma_encoded_block_at(front, i);
        assert(front.take(i) =~= blocks.take(i));
        assert(encode_body(blocks).subrange(
            body_len(blocks.take(i)) as int,
            body_len(blocks.take(i + 1)) as int,
        ) =~= encode_body(front).subrange(
            body_len(blocks.take(i)) as int,
            body_len(blocks.take(i + 1)) as int,
        ));
    }
}

/// In a layout that is in order, an earlier block ends before a later one
/// starts, and starts before it too.
pub proof fn lemma_blocks_chain(blocks: Seq<Seq<EntryView>>, i: int, j: int)
    requires
        layout_ok(blocks),
        0 <= i < j < blocks.len(),
    ensures
        key_lt(blocks[i].last().key, blocks[j][0].key),
        key_lt(blocks[i][0].key, blocks[j][0].key),
        key_lt(blocks[i][0].key, blocks[j].last().key),
    decreases j - i,
{
    assert(block_fits(blocks[i]));
    assert(block_fits(blocks[j]));
    let a = blocks[i];
    let b = blocks[j];
    if a.len() > 1 {
        assert(entry_le(a[0], a[a.len() - 1]));
    }
    if b.len() > 1 {
        assert(entry_le(b[0], b[b.len() - 1]));
    }
    if j == i + 1 {
        assert(block_follows(blocks, i));
    } else {
        lemma_blocks_chain(blocks, i, j - 1);
        assert(block_follows(blocks, j - 1));
        let c = blocks[j - 1];
        assert(block_fits(c));
        if c.len() > 1 {
            assert(entry_le(c[0], c[c.len() - 1]));
        }
        lemma_key_le_transitive(
            blocks[i].last().key,
            blocks[j - 1][0].key,
            blocks[j - 1].last().key,
        );
        lemma_key_le_transitive(blocks[i].last().key, blocks[j - 1].last().key, b[0].key);
    }
    lemma_key_le_transitive(a[0].key, a.last().key, b[0].key);
    lemma_key_le_transitive(a[0].key, b[0].key, b.last().key);
}

/// Blocks that are in order make a well-formed table, which holds exactly
/// these blocks.
pub proof fn lemma_table_of_ok(blocks: Seq<Seq<EntryView>>, id: SsTableId)
    requires
        blocks.len() >= 1,
        layout_ok(blocks),
        body_len(blocks) <= u32::MAX,
    ensures
        table_ok(table_of(blocks, id)),
        table_blocks(table_of(blocks, id)) == blocks,
        table_entries(table_of(blocks, id)) == blocks.flatten(),
{
    let v = table_of(blocks, id);
    let n = blocks.len() as int;
    lemma_encode_body_len(blocks);
    lemma_body_len_take(blocks, 0, n);
    assert forall|i: int, j: int| 0 <= i < j < n implies #[trigger] meta_before(
        v.index[i],
        v.index[j],
    ) by {
        lemma_blocks_chain(blocks, i, j);
        lemma_body_len_take(blocks, i, j);
        lemma_body_len_take(blocks, j, n);
        lemma_encode_block_len(blocks[i]);
    }
    assert(block_fits(blocks[0]));
    lemma_body_len_take(blocks, n - 1, n);
    if n > 1 {
        lemma_blocks_chain(blocks, 0, n - 1);
    } else if blocks[0].len() > 1 {
        assert(entry_le(blocks[0][0], blocks[0][blocks[0].len() - 1]));
    }
    assert forall|i: int| 0 <= i < n implies #[trigger] block_ok(v, i) && block_entries(v, i)
        == blocks[i] by {
        lemma_encoded_block_at(blocks, i);
        lemma_body_len_take(blocks, i + 1, n);
        assert(block_fits(blocks[i]));
        lemma_decode_encoded_block(blocks[i]);
        if i + 1 < n {
            assert(block_follows(blocks, i));
        }
    }
    assert forall|i: int| 0 <= i < n implies #[trigger] block_entries(v, i) == blocks[i] by {
        assert(block_ok(v, i));
    }
}

} // verus!

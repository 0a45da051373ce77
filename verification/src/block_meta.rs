//! The block index of a table: for each block its first key and the offset
//! at which it starts in the table body.
//!
//! On the wire the index is the number of blocks as a `u32`, then for each
//! block `[first_key_len: u16][first_key][version: u64][offset: u32]`.

use crate::codec::{get_u32, lemma_le_bytes, lemma_le_bytes_back, put_u32};
use crate::entry::{
    encode_key, encoded_key_len, key_encodable, lemma_encode_key_len, lemma_encode_parsed_key,
    lemma_parse_encoded_key, parse_key, read_key, write_key,
};
use crate::key::{
    key_le, key_lt, lemma_key_le_transitive, lemma_key_lt_transitive, lemma_key_trichotomy,
    KeyBytes, KeySlice, KeyView,
};
use vstd::bytes::*;
use vstd::prelude::*;

verus! {

/// The mathematical value of an index entry.
pub struct BlockMetaView {
    pub first_key: KeyView,
    pub offset: u32,
}

/// The index entry of one block.
#[derive(Debug)]
pub struct BlockMeta {
    /// The key of the first entry of the block.
    pub first_key: KeyBytes,
    /// Where the block starts in the table body.
    pub offset: u32,
}

impl View for BlockMeta {
    type V = BlockMetaView;

    open spec fn view(&self) -> BlockMetaView {
        BlockMetaView { first_key: self.first_key@, offset: self.offset }
    }
}

/// The number of octets of an encoded index entry.
pub open spec fn encoded_block_meta_len(m: BlockMetaView) -> nat {
    encoded_key_len(m.first_key) + 4
}

/// The wire form of an index entry.
pub open spec fn encode_block_meta(m: BlockMetaView) -> Seq<u8> {
    encode_key(m.first_key) + spec_u32_to_le_bytes(m.offset)
}

/// The number of octets of the encoded index entries, one after another.
pub open spec fn encoded_block_metas_len(ms: Seq<BlockMetaView>) -> nat
    decreases ms.len(),
{
    if ms.len() == 0 {
        0
    } else {
        encoded_block_meta_len(ms.first()) + encoded_block_metas_len(ms.drop_first())
    }
}

/// The wire forms of the index entries, one after another.
pub open spec fn encode_block_metas(ms: Seq<BlockMetaView>) -> Seq<u8>
    decreases ms.len(),
{
    if ms.len() == 0 {
        Seq::empty()
    } else {
        encode_block_meta(ms.first()) + encode_block_metas(ms.drop_first())
    }
}

/// The number of octets of an encoded index.
pub open spec fn encoded_index_len(ms: Seq<BlockMetaView>) -> nat {
    4 + encoded_block_metas_len(ms)
}

/// The wire form of an index: the number of entries, then the entries.
pub open spec fn encode_index(ms: Seq<BlockMetaView>) -> Seq<u8> {
    spec_u32_to_le_bytes(ms.len() as u32) + encode_block_metas(ms)
}

/// Every first key fits the wire form.
pub open spec fn index_encodable(ms: Seq<BlockMetaView>) -> bool {
    forall|i: int| 0 <= i < ms.len() ==> key_encodable(#[trigger] ms[i].first_key)
}

/// Reads an index entry at `pos`: the entry and the position after it.
pub open spec fn parse_block_meta(s: Seq<u8>, pos: int) -> Option<(BlockMetaView, int)> {
    match parse_key(s, pos) {
        None => None,
        Some((first_key, mid)) => if mid + 4 > s.len() {
            None
        } else {
            Some(
                (
                    BlockMetaView {
                        first_key,
                        offset: spec_u32_from_le_bytes(s.subrange(mid, mid + 4)),
                    },
                    mid + 4,
                ),
            )
        },
    }
}

/// Reads `n` index entries one after another from `pos` on: the entries and
/// the position after the last.
pub open spec fn parse_block_metas(s: Seq<u8>, pos: int, n: nat) -> Option<
    (Seq<BlockMetaView>, int),
>
    decreases n,
{
    if n == 0 {
        Some((Seq::empty(), pos))
    } else {
        match parse_block_meta(s, pos) {
            None => None,
            Some((m, mid)) => match parse_block_metas(s, mid, (n - 1) as nat) {
                None => None,
                Some((rest, next)) => Some((seq![m] + rest, next)),
            },
        }
    }
}

/// Reads an index at `pos`: its entries and the position after it.
pub open spec fn parse_index(s: Seq<u8>, pos: int) -> Option<(Seq<BlockMetaView>, int)> {
    if pos + 4 > s.len() {
        None
    } else {
        parse_block_metas(s, pos + 4, spec_u32_from_le_bytes(s.subrange(pos, pos + 4)) as nat)
    }
}

/// The block of `a` comes before the block of `b`, by first key and by
/// offset.
pub open spec fn meta_before(a: BlockMetaView, b: BlockMetaView) -> bool {
    key_lt(a.first_key, b.first_key) && a.offset < b.offset
}

/// First keys and offsets both grow strictly from each block to the next.
pub open spec fn index_increasing(ms: Seq<BlockMetaView>) -> bool {
    forall|i: int, j: int| 0 <= i < j < ms.len() ==> #[trigger] meta_before(ms[i], ms[j])
}

/// `i` is the block that can hold `key`: the last one whose first key does
/// not come after `key`.
pub open spec fn is_block_of(ms: Seq<BlockMetaView>, key: KeyView, i: int) -> bool {
    &&& 0 <= i < ms.len()
    &&& key_le(ms[i].first_key, key)
    &&& i + 1 < ms.len() ==> key_lt(key, ms[i + 1].first_key)
}

/// Adding an index entry at the end adds its length and its wire form.
pub proof fn lemma_block_metas_push(ms: Seq<BlockMetaView>, m: BlockMetaView)
    ensures
        encoded_block_metas_len(ms.push(m)) == encoded_block_metas_len(ms) + encoded_block_meta_len(
            m,
        ),
        encode_block_metas(ms.push(m)) == encode_block_metas(ms) + encode_block_meta(m),
    decreases ms.len(),
{
    reveal_with_fuel(encode_block_metas, 2);
    reveal_with_fuel(encoded_block_metas_len, 2);
    if ms.len() > 0 {
        assert(ms.push(m).drop_first() =~= ms.drop_first().push(m));
        lemma_block_metas_push(ms.drop_first(), m);
    }
}

/// The encoded index entries have the length that
/// `encoded_block_metas_len` gives.
pub proof fn lemma_encode_block_metas_len(ms: Seq<BlockMetaView>)
    ensures
        encode_block_metas(ms).len() == encoded_block_metas_len(ms),
    decreases ms.len(),
{
    lemma_le_bytes();
    if ms.len() > 0 {
        lemma_encode_key_len(ms.first().first_key);
        lemma_encode_block_metas_len(ms.drop_first());
    }
}

/// Where the wire form of index entries stands at `pos`, reading as many
/// entries at `pos` gives them back.
pub proof fn lemma_parse_encoded_block_metas(s: Seq<u8>, pos: int, ms: Seq<BlockMetaView>)
    requires
        index_encodable(ms),
        0 <= pos,
        pos + encoded_block_metas_len(ms) <= s.len(),
        s.subrange(pos, pos + encoded_block_metas_len(ms)) == encode_block_metas(ms),
    ensures
        parse_block_metas(s, pos, ms.len()) == Some((ms, pos + encoded_block_metas_len(ms))),
    decreases ms.len(),
{
    lemma_le_bytes();
    if ms.len() > 0 {
        let m = ms.first();
        let rest = ms.drop_first();
        let part = s.subrange(pos, pos + encoded_block_metas_len(ms));
        let klen = encoded_key_len(m.first_key) as int;
        let mlen = encoded_block_meta_len(m) as int;
        lemma_encode_key_len(m.first_key);
        lemma_encode_block_metas_len(rest);
        assert(s.subrange(pos, pos + klen) =~= part.subrange(0, klen));
        assert(part.subrange(0, klen) =~= encode_key(m.first_key));
        lemma_parse_encoded_key(s, pos, m.first_key);
        assert(s.subrange(pos + klen, pos + klen + 4) =~= part.subrange(klen, klen + 4));
        assert(part.subrange(klen, klen + 4) =~= spec_u32_to_le_bytes(m.offset));
        assert(s.subrange(pos + mlen, pos + mlen + encoded_block_metas_len(rest)) =~= part.subrange(
            mlen,
            part.len() as int,
        ));
        assert(part.subrange(mlen, part.len() as int) =~= encode_block_metas(rest));
        lemma_parse_encoded_block_metas(s, pos + mlen, rest);
    }
}

/// Where the wire form of an index stands at `pos`, reading at `pos` gives
/// the index back.
pub proof fn lemma_parse_encoded_index(s: Seq<u8>, pos: int, ms: Seq<BlockMetaView>)
    requires
        index_encodable(ms),
        ms.len() <= u32::MAX,
        0 <= pos,
        pos + encoded_index_len(ms) <= s.len(),
        s.subrange(pos, pos + encoded_index_len(ms)) == encode_index(ms),
    ensures
        parse_index(s, pos) == Some((ms, pos + encoded_index_len(ms))),
{
    lemma_le_bytes();
    lemma_encode_block_metas_len(ms);
    let part = s.subrange(pos, pos + encoded_index_len(ms));
    assert(s.subrange(pos, pos + 4) =~= part.subrange(0, 4));
    assert(part.subrange(0, 4) =~= spec_u32_to_le_bytes(ms.len() as u32));
    assert(s.subrange(pos + 4, pos + 4 + encoded_block_metas_len(ms)) =~= part.subrange(
        4,
        part.len() as int,
    ));
    assert(part.subrange(4, part.len() as int) =~= encode_block_metas(ms));
    lemma_parse_encoded_block_metas(s, pos + 4, ms);
}

/// What is read as index entries is the wire form of those entries.
pub proof fn lemma_encode_parsed_block_metas(s: Seq<u8>, pos: int, n: nat)
    requires
        0 <= pos <= s.len(),
        parse_block_metas(s, pos, n) is Some,
    ensures
        ({
            let (ms, next) = parse_block_metas(s, pos, n)->0;
            &&& ms.len() == n
            &&& index_encodable(ms)
            &&& next == pos + encoded_block_metas_len(ms)
            &&& next <= s.len()
            &&& s.subrange(pos, next) == encode_block_metas(ms)
        }),
    decreases n,
{
    lemma_le_bytes();
    lemma_le_bytes_back();
    let (ms, next) = parse_block_metas(s, pos, n)->0;
    if n == 0 {
        assert(s.subrange(pos, pos) =~= Seq::<u8>::empty());
    } else {
        let (m, mid) = parse_block_meta(s, pos)->0;
        let (rest, _) = parse_block_metas(s, mid, (n - 1) as nat)->0;
        lemma_encode_parsed_key(s, pos);
        lemma_encode_parsed_block_metas(s, mid, (n - 1) as nat);
        let slot = s.subrange(mid - 4, mid);
        assert(spec_u32_to_le_bytes(spec_u32_from_le_bytes(slot)) == slot);
        assert(ms == seq![m] + rest);
        assert(ms.first() == m);
        assert(ms.drop_first() =~= rest);
        assert(s.subrange(pos, mid) =~= s.subrange(pos, mid - 4) + slot);
        assert(s.subrange(pos, next) =~= s.subrange(pos, mid) + s.subrange(mid, next));
        assert forall|i: int| 0 <= i < ms.len() implies key_encodable(
            #[trigger] ms[i].first_key,
        ) by {
            if i > 0 {
                assert(ms[i] == rest[i - 1]);
                assert(key_encodable(rest[i - 1].first_key));
            }
        }
    }
}

/// What is read as an index is the wire form of that index.
pub proof fn lemma_encode_parsed_index(s: Seq<u8>, pos: int)
    requires
        0 <= pos,
        parse_index(s, pos) is Some,
    ensures
        ({
            let (ms, next) = parse_index(s, pos)->0;
            &&& ms.len() <= u32::MAX
            &&& index_encodable(ms)
            &&& next == pos + encoded_index_len(ms)
            &&& next <= s.len()
            &&& s.subrange(pos, next) == encode_index(ms)
        }),
{
    lemma_le_bytes();
    lemma_le_bytes_back();
    let head = s.subrange(pos, pos + 4);
    let n = spec_u32_from_le_bytes(head);
    let (ms, next) = parse_index(s, pos)->0;
    lemma_encode_parsed_block_metas(s, pos + 4, n as nat);
}

/// The first key of a block belongs to that block, not to the one before.
pub proof fn lemma_first_key_in_own_block(ms: Seq<BlockMetaView>, i: int)
    requires
        index_increasing(ms),
        0 <= i < ms.len(),
    ensures
        is_block_of(ms, ms[i].first_key, i),
{
    if i + 1 < ms.len() {
        assert(meta_before(ms[i], ms[i + 1]));
    }
}

/// In an increasing index at most one block can hold a given key.
pub proof fn lemma_block_of_unique(ms: Seq<BlockMetaView>, key: KeyView, i: int, j: int)
    requires
        index_increasing(ms),
        is_block_of(ms, key, i),
        is_block_of(ms, key, j),
    ensures
        i == j,
{
    if i < j {
        if i + 1 < j {
            assert(meta_before(ms[i + 1], ms[j]));
            lemma_key_lt_transitive(key, ms[i + 1].first_key, ms[j].first_key);
        }
        lemma_key_trichotomy(key, ms[j].first_key);
    } else if j < i {
        if j + 1 < i {
            assert(meta_before(ms[j + 1], ms[i]));
            lemma_key_lt_transitive(key, ms[j + 1].first_key, ms[i].first_key);
        }
        lemma_key_trichotomy(key, ms[i].first_key);
    }
}

/// The block index of a table, in block order.
#[derive(Debug)]
pub struct BlockMetaVec {
    metas: Vec<BlockMeta>,
}

impl View for BlockMetaVec {
    type V = Seq<BlockMetaView>;

    closed spec fn view(&self) -> Seq<BlockMetaView> {
        self.metas@.map_values(|m: BlockMeta| m@)
    }
}

impl BlockMetaVec {
    /// An index without entries.
    pub fn new() -> (v: Self)
        ensures
            v@ == Seq::<BlockMetaView>::empty(),
    {
        let v = BlockMetaVec { metas: Vec::new() };
        v
    }

    /// The number of blocks.
    pub fn len(&self) -> (n: usize)
        ensures
            n == self@.len(),
    {
        self.metas.len()
    }

    /// Adds the entry of one more block at the end.
    pub fn push(&mut self, meta: BlockMeta)
        ensures
            final(self)@ == old(self)@.push(meta@),
    {
        self.metas.push(meta);
    }

    /// The entry of block `i`.
    pub fn get(&self, i: usize) -> (m: &BlockMeta)
        requires
            i < self@.len(),
        ensures
            m@ == self@[i as int],
    {
        &self.metas[i]
    }

    /// Whether first keys and offsets grow strictly from block to block.
    pub fn is_increasing(&self) -> (r: bool)
        ensures
            r == index_increasing(self@),
    {
        let n = self.metas.len();
        if n == 0 {
            return true;
        }
        let mut i: usize = 1;
        while i < n
            invariant
                1 <= i <= n,
                n == self.metas@.len(),
                index_increasing(self@.take(i as int)),
            decreases n - i,
        {
            let prev = &self.metas[i - 1];
            let cur = &self.metas[i];
            let grows = prev.first_key < cur.first_key && prev.offset < cur.offset;
            if !grows {
                assert(!meta_before(self@[i - 1], self@[i as int]));
                return false;
            }
            proof {
                let ms = self@.take(i + 1);
                let front = self@.take(i as int);
                assert forall|a: int, b: int| 0 <= a < b < ms.len() implies #[trigger] meta_before(
                    ms[a],
                    ms[b],
                ) by {
                    if b == i {
                        if a < i - 1 {
                            assert(meta_before(front[a], front[i - 1]));
                            lemma_key_lt_transitive(
                                ms[a].first_key,
                                ms[i - 1].first_key,
                                ms[b].first_key,
                            );
                        }
                    }
                }
            }
            i = i + 1;
        }
        assert(self@.take(n as int) =~= self@);
        true
    }

    /// The block that can hold `key`: the last one whose first key does not
    /// come after `key`. The result is `None` where `key` comes before the
    /// first key of the first block, or where there is no block.
    pub fn find_block_index(&self, key: &KeySlice<'_>) -> (r: Option<usize>)
        requires
            index_increasing(self@),
        ensures
            match r {
                Some(i) => is_block_of(self@, key@, i as int),
                None => self@.len() == 0 || key_lt(key@, self@[0].first_key),
            },
    {
        let mut lo: usize = 0;
        let mut hi: usize = self.metas.len();
        while lo < hi
            invariant
                lo <= hi <= self.metas@.len(),
                index_increasing(self@),
                forall|j: int| 0 <= j < lo ==> key_le(#[trigger] self@[j].first_key, key@),
                forall|j: int|
                    hi <= j < self@.len() ==> key_lt(key@, #[trigger] self@[j].first_key),
            decreases hi - lo,
        {
            let mid = lo + (hi - lo) / 2;
            let probe = self.metas[mid].first_key.to_key_slice();
            if probe <= *key {
                proof {
                    assert forall|j: int| 0 <= j < mid + 1 implies key_le(
                        #[trigger] self@[j].first_key,
                        key@,
                    ) by {
                        if j < mid {
                            assert(meta_before(self@[j], self@[mid as int]));
                            lemma_key_le_transitive(self@[j].first_key, probe@, key@);
                        }
                    }
                }
                lo = mid + 1;
            } else {
                proof {
                    lemma_key_trichotomy(probe@, key@);
                    assert forall|j: int| mid <= j < self@.len() implies key_lt(
                        key@,
                        #[trigger] self@[j].first_key,
                    ) by {
                        if mid < j {
                            assert(meta_before(self@[mid as int], self@[j]));
                            lemma_key_lt_transitive(key@, probe@, self@[j].first_key);
                        }
                    }
                }
                hi = mid;
            }
        }
        if lo == 0 {
            None
        } else {
            Some(lo - 1)
        }
    }

    /// Appends the wire form of the index.
    pub fn encode(&self, buf: &mut Vec<u8>)
        requires
            index_encodable(self@),
            self@.len() <= u32::MAX,
        ensures
            final(buf)@ == old(buf)@ + encode_index(self@),
    {
        let n = self.metas.len();
        put_u32(buf, n as u32);
        let ghost head = buf@;
        let mut i: usize = 0;
        while i < n
            invariant
                i <= n,
                n == self.metas@.len(),
                index_encodable(self@),
                buf@ == head + encode_block_metas(self@.take(i as int)),
            decreases n - i,
        {
            let m = &self.metas[i];
            assert(key_encodable(self@[i as int].first_key));
            write_key(buf, &m.first_key);
            put_u32(buf, m.offset);
            proof {
                lemma_block_metas_push(self@.take(i as int), m@);
                assert(self@.take(i + 1) =~= self@.take(i as int).push(m@));
            }
            i = i + 1;
        }
        assert(self@.take(n as int) =~= self@);
    }

    /// Reads an index at `pos`, as `parse_index` describes.
    pub fn decode(s: &[u8], pos: usize) -> (r: Option<(BlockMetaVec, usize)>)
        requires
            pos <= s@.len(),
        ensures
            match parse_index(s@, pos as int) {
                Some((ms, next)) => r matches Some((v, p)) && v@ == ms && p == next && p
                    <= s@.len(),
                None => r is None,
            },
    {
        if s.len() - pos < 4 {
            return None;
        }
        let n = get_u32(s, pos) as usize;
        let mut out = BlockMetaVec::new();
        let mut at: usize = pos + 4;
        let mut i: usize = 0;
        while i < n
            invariant
                i <= n,
                at <= s@.len(),
                pos + 4 <= s@.len(),
                n == spec_u32_from_le_bytes(s@.subrange(pos as int, pos + 4)),
                out@.len() == i,
                parse_block_metas(s@, pos + 4, n as nat) == match parse_block_metas(
                    s@,
                    at as int,
                    (n - i) as nat,
                ) {
                    Some((rest, next)) => Some((out@ + rest, next)),
                    None => None,
                },
            decreases n - i,
        {
            match read_key(s, at) {
                None => {
                    return None;
                },
                Some((first_key, mid)) => {
                    if s.len() - mid < 4 {
                        return None;
                    }
                    let offset = get_u32(s, mid);
                    out.push(BlockMeta { first_key, offset });
                    at = mid + 4;
                    i = i + 1;
                },
            }
        }
        Some((out, at))
    }
}

} // verus!

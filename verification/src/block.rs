//! Blocks: the smallest unit of a table that is decoded on its own.
//!
//! A block holds at least one entry. On the wire it is the entries one
//! after another, then the offset of each entry from the start of the block
//! as a `u32`, then the number of entries as a `u32`:
//!
//! ```text
//! [entry 0] .. [entry n-1] [offset 0] .. [offset n-1] [n]
//! ```
//!
//! Decoding accepts exactly the octet strings of this form: the entries must
//! fill the space before the offset table with nothing left over, and each
//! offset must be the place where its entry begins.

use crate::codec::{get_u32, lemma_le_bytes, put_u32};
use crate::entry::{
    encodable, encode_entry, encoded_entry_len, entries_view, lemma_encode_entry_len,
    lemma_parse_encoded_entry, parse_entry, read_entry, value_view, write_entry, Entry, EntryView,
};
use crate::key::KeyBytes;
use vstd::bytes::*;
use vstd::prelude::*;
use vstd::slice::slice_subrange;

verus! {

/// The most octets that a block may take on the wire.
pub const MAX_BLOCK_LEN: usize = 0x7FFF_FFFF;

/// The number of octets that the entries take on the wire, one after
/// another.
pub open spec fn entries_len(es: Seq<EntryView>) -> nat
    decreases es.len(),
{
    if es.len() == 0 {
        0
    } else {
        entries_len(es.drop_last()) + encoded_entry_len(es.last())
    }
}

/// The wire forms of the entries, one after another.
pub open spec fn encode_entries(es: Seq<EntryView>) -> Seq<u8>
    decreases es.len(),
{
    if es.len() == 0 {
        Seq::empty()
    } else {
        encode_entries(es.drop_last()) + encode_entry(es.last())
    }
}

/// Where each entry begins, counted from the start of the block.
pub open spec fn entry_offsets(es: Seq<EntryView>) -> Seq<u32> {
    Seq::new(es.len(), |i: int| entries_len(es.take(i)) as u32)
}

/// The integers in four octets each, one after another.
pub open spec fn encode_u32s(xs: Seq<u32>) -> Seq<u8>
    decreases xs.len(),
{
    if xs.len() == 0 {
        Seq::empty()
    } else {
        encode_u32s(xs.drop_last()) + spec_u32_to_le_bytes(xs.last())
    }
}

/// The number of octets that a block of these entries takes on the wire.
pub open spec fn encoded_block_len(es: Seq<EntryView>) -> nat {
    entries_len(es) + 4 * es.len() + 4
}

/// The wire form of a block of these entries.
pub open spec fn encode_block(es: Seq<EntryView>) -> Seq<u8> {
    encode_entries(es) + encode_u32s(entry_offsets(es)) + spec_u32_to_le_bytes(es.len() as u32)
}

/// The entries can form a block: there is at least one, each fits the wire
/// form, and the block stays within its size limit.
pub open spec fn block_encodable(es: Seq<EntryView>) -> bool {
    &&& es.len() >= 1
    &&& forall|i: int| 0 <= i < es.len() ==> encodable(#[trigger] es[i])
    &&& encoded_block_len(es) <= MAX_BLOCK_LEN
}

/// Reads `n` entries one after another from `pos` on. The result is `None`
/// where an entry cannot be read or where the `n` entries do not end exactly
/// at the end of `s`.
pub open spec fn parse_entries(s: Seq<u8>, pos: int, n: nat) -> Option<Seq<EntryView>>
    decreases n,
{
    if n == 0 {
        if pos == s.len() {
            Some(Seq::empty())
        } else {
            None
        }
    } else {
        match parse_entry(s, pos) {
            None => None,
            Some((e, next)) => match parse_entries(s, next, (n - 1) as nat) {
                None => None,
                Some(rest) => Some(seq![e] + rest),
            },
        }
    }
}

/// The `i`-th integer of the offset table that starts at `base`.
pub open spec fn offset_slot(s: Seq<u8>, base: int, i: int) -> u32 {
    spec_u32_from_le_bytes(s.subrange(base + 4 * i, base + 4 * i + 4))
}

/// The offset table at `base` names the place where each entry begins.
pub open spec fn offsets_match(s: Seq<u8>, base: int, es: Seq<EntryView>) -> bool {
    forall|i: int|
        0 <= i < es.len() ==> #[trigger] offset_slot(s, base, i) == entries_len(es.take(i))
}

/// The entries of an encoded block, or `None` where `s` is not the wire
/// form of a block.
pub open spec fn decode_block(s: Seq<u8>) -> Option<Seq<EntryView>> {
    if s.len() < 4 {
        None
    } else {
        let n = spec_u32_from_le_bytes(s.subrange(s.len() - 4, s.len() as int)) as int;
        if n == 0 || s.len() < 4 + 4 * n {
            None
        } else {
            let data_end = s.len() - 4 - 4 * n;
            match parse_entries(s.subrange(0, data_end), 0, n as nat) {
                None => None,
                Some(es) => if offsets_match(s, data_end, es) {
                    Some(es)
                } else {
                    None
                },
            }
        }
    }
}

/// Adding an entry to a run adds its length and its wire form.
pub proof fn lemma_entries_push(es: Seq<EntryView>, e: EntryView)
    ensures
        entries_len(es.push(e)) == entries_len(es) + encoded_entry_len(e),
        encode_entries(es.push(e)) == encode_entries(es) + encode_entry(e),
{
    assert(es.push(e).drop_last() =~= es);
}

/// The encoded run has the length that `entries_len` gives.
pub proof fn lemma_encode_entries_len(es: Seq<EntryView>)
    ensures
        encode_entries(es).len() == entries_len(es),
    decreases es.len(),
{
    if es.len() > 0 {
        lemma_encode_entries_len(es.drop_last());
        lemma_encode_entry_len(es.last());
    }
}

/// A prefix of a run is no longer than the run, and one entry longer makes
/// it longer by that entry.
pub proof fn lemma_entries_len_take(es: Seq<EntryView>, i: int)
    requires
        0 <= i <= es.len(),
    ensures
        entries_len(es.take(i)) <= entries_len(es),
        i < es.len() ==> entries_len(es.take(i + 1)) == entries_len(es.take(i)) + encoded_entry_len(
            es[i],
        ),
    decreases es.len() - i,
{
    if i < es.len() {
        assert(es.take(i + 1).drop_last() =~= es.take(i));
        lemma_entries_len_take(es, i + 1);
    } else {
        assert(es.take(i) =~= es);
    }
}

/// In the encoded run each entry stands at its offset.
pub proof fn lemma_encoded_entry_at(es: Seq<EntryView>, i: int)
    requires
        0 <= i < es.len(),
    ensures
        entries_len(es.take(i + 1)) <= encode_entries(es).len(),
        encode_entries(es).subrange(
            entries_len(es.take(i)) as int,
            entries_len(es.take(i + 1)) as int,
        ) == encode_entry(es[i]),
    decreases es.len(),
{
    let front = es.drop_last();
    lemma_encode_entries_len(es);
    lemma_encode_entries_len(front);
    lemma_encode_entry_len(es.last());
    lemma_entries_len_take(es, i);
    lemma_entries_len_take(es, i + 1);
    if i == es.len() - 1 {
        assert(encode_entries(es).subrange(
            entries_len(front) as int,
            entries_len(es) as int,
        ) =~= encode_entry(es.last()));
    } else {
        lemma_encoded_entry_at(front, i);
        assert(front.take(i) =~= es.take(i));
        assert(front.take(i + 1) =~= es.take(i + 1));
        assert(encode_entries(es).subrange(
            entries_len(es.take(i)) as int,
            entries_len(es.take(i + 1)) as int,
        ) =~= encode_entries(front).subrange(
            entries_len(es.take(i)) as int,
            entries_len(es.take(i + 1)) as int,
        ));
    }
}

/// Reading the encoded run from the offset of entry `i` on gives the
/// entries from `i` on.
pub proof fn lemma_parse_encoded_entries(es: Seq<EntryView>, i: int)
    requires
        0 <= i <= es.len(),
        forall|j: int| 0 <= j < es.len() ==> encodable(#[trigger] es[j]),
    ensures
        parse_entries(encode_entries(es), entries_len(es.take(i)) as int, (es.len() - i) as nat)
            == Some(es.skip(i)),
    decreases es.len() - i,
{
    let s = encode_entries(es);
    lemma_encode_entries_len(es);
    if i == es.len() {
        assert(es.take(i) =~= es);
    } else {
        lemma_encoded_entry_at(es, i);
        lemma_entries_len_take(es, i);
        lemma_parse_encoded_entry(s, entries_len(es.take(i)) as int, es[i]);
        lemma_parse_encoded_entries(es, i + 1);
    }
}

/// The encoded integers take four octets each, and each stands at four
/// times its index.
pub proof fn lemma_encode_u32s(xs: Seq<u32>, i: int)
    requires
        0 <= i < xs.len(),
    ensures
        encode_u32s(xs).len() == 4 * xs.len(),
        encode_u32s(xs).subrange(4 * i, 4 * i + 4) == spec_u32_to_le_bytes(xs[i]),
    decreases xs.len(),
{
    lemma_le_bytes();
    lemma_encode_u32s_len(xs);
    lemma_encode_u32s_len(xs.drop_last());
    if i < xs.len() - 1 {
        lemma_encode_u32s(xs.drop_last(), i);
        assert(encode_u32s(xs).subrange(4 * i, 4 * i + 4) =~= encode_u32s(xs.drop_last()).subrange(
            4 * i,
            4 * i + 4,
        ));
    }
}

/// The encoded integers take four octets each.
pub proof fn lemma_encode_u32s_len(xs: Seq<u32>)
    ensures
        encode_u32s(xs).len() == 4 * xs.len(),
    decreases xs.len(),
{
    lemma_le_bytes();
    if xs.len() > 0 {
        lemma_encode_u32s_len(xs.drop_last());
    }
}

/// An encoded block has the length that `encoded_block_len` gives.
pub proof fn lemma_encode_block_len(es: Seq<EntryView>)
    ensures
        encode_block(es).len() == encoded_block_len(es),
{
    lemma_le_bytes();
    lemma_encode_entries_len(es);
    lemma_encode_u32s_len(entry_offsets(es));
}

/// Decoding an encoded block gives its entries back.
pub proof fn lemma_decode_encoded_block(es: Seq<EntryView>)
    requires
        block_encodable(es),
    ensures
        decode_block(encode_block(es)) == Some(es),
{
    lemma_le_bytes();
    let s = encode_block(es);
    let n = es.len() as int;
    let offs = entry_offsets(es);
    lemma_encode_block_len(es);
    lemma_encode_entries_len(es);
    lemma_encode_u32s_len(offs);
    let data_end = entries_len(es) as int;
    assert(s.subrange(s.len() - 4, s.len() as int) =~= spec_u32_to_le_bytes(n as u32));
    assert(s.subrange(0, data_end) =~= encode_entries(es));
    lemma_parse_encoded_entries(es, 0);
    assert(es.skip(0) =~= es);
    assert forall|i: int| 0 <= i < es.len() implies #[trigger] offset_slot(s, data_end, i)
        == entries_len(es.take(i)) by {
        lemma_encode_u32s(offs, i);
        lemma_entries_len_take(es, i);
        assert(s.subrange(data_end + 4 * i, data_end + 4 * i + 4) =~= encode_u32s(offs).subrange(
            4 * i,
            4 * i + 4,
        ));
    }
}

/// Reading `n` entries gives `n` entries.
pub proof fn lemma_parse_entries_len(s: Seq<u8>, pos: int, n: nat)
    ensures
        parse_entries(s, pos, n) matches Some(es) ==> es.len() == n,
    decreases n,
{
    if n > 0 {
        match parse_entry(s, pos) {
            None => {},
            Some((e, next)) => {
                lemma_parse_entries_len(s, next, (n - 1) as nat);
            },
        }
    }
}

/// A decoded block holds at least one entry.
pub proof fn lemma_decode_block_nonempty(s: Seq<u8>)
    ensures
        decode_block(s) matches Some(es) ==> es.len() >= 1,
{
    if s.len() >= 4 {
        let n = spec_u32_from_le_bytes(s.subrange(s.len() - 4, s.len() as int)) as int;
        if n != 0 && s.len() >= 4 + 4 * n {
            lemma_parse_entries_len(s.subrange(0, s.len() - 4 - 4 * n), 0, n as nat);
        }
    }
}

/// Reads a block, as `decode_block` describes.
pub fn read_block(s: &[u8]) -> (r: Option<Vec<Entry>>)
    ensures
        match decode_block(s@) {
            Some(es) => r matches Some(v) && entries_view(v@) == es,
            None => r is None,
        },
{
    let len = s.len();
    if len < 4 {
        return None;
    }
    let n = get_u32(s, len - 4) as usize;
    if n == 0 || (len - 4) / 4 < n {
        return None;
    }
    let data_end = len - 4 - 4 * n;
    let data = slice_subrange(s, 0, data_end);
    let mut out: Vec<Entry> = Vec::new();
    let mut pos: usize = 0;
    let mut i: usize = 0;
    while i < n
        invariant
            i <= n,
            1 <= n,
            len == s@.len(),
            n == spec_u32_from_le_bytes(s@.subrange(s@.len() - 4, s@.len() as int)),
            data_end + 4 * n + 4 == len,
            pos <= data_end,
            data@ == s@.subrange(0, data_end as int),
            out@.len() == i,
            pos == entries_len(entries_view(out@)),
            parse_entries(data@, 0, n as nat) == match parse_entries(
                data@,
                pos as int,
                (n - i) as nat,
            ) {
                Some(rest) => Some(entries_view(out@) + rest),
                None => None,
            },
            forall|j: int|
                0 <= j < i ==> #[trigger] offset_slot(s@, data_end as int, j) == entries_len(
                    entries_view(out@).take(j),
                ),
        decreases n - i,
    {
        let off = get_u32(s, data_end + 4 * i) as usize;
        match read_entry(data, pos) {
            None => {
                return None;
            },
            Some((e, next)) => {
                let ghost before = entries_view(out@);
                let ghost rest = parse_entries(data@, next as int, (n - i - 1) as nat);
                if off != pos {
                    proof {
                        if rest is Some {
                            let es = before + (seq![e@] + rest->0);
                            assert(es.take(i as int) =~= before);
                            assert(offset_slot(s@, data_end as int, i as int) != entries_len(
                                es.take(i as int),
                            ));
                        }
                    }
                    return None;
                }
                out.push(e);
                proof {
                    let after = entries_view(out@);
                    assert(after =~= before.push(e@));
                    lemma_entries_push(before, e@);
                    assert forall|j: int| 0 <= j < i + 1 implies #[trigger] offset_slot(
                        s@,
                        data_end as int,
                        j,
                    ) == entries_len(after.take(j)) by {
                        assert(after.take(j) =~= before.take(j));
                    }
                }
                pos = next;
                i = i + 1;
            },
        }
    }
    if pos != data_end {
        return None;
    }
    proof {
        let es = entries_view(out@);
    }
    Some(out)
}

/// Collects entries and their offsets into the wire form of one block.
pub(crate) struct BlockBuilder {
    data: Vec<u8>,
    offsets: Vec<u32>,
    entries: Ghost<Seq<EntryView>>,
}

impl BlockBuilder {
    /// The entries added so far.
    pub closed spec fn entries(&self) -> Seq<EntryView> {
        self.entries@
    }

    /// The buffers hold the wire form of the entries added so far, and a
    /// block of them stays within the size limit.
    pub closed spec fn wf(&self) -> bool {
        &&& self.data@ == encode_entries(self.entries@)
        &&& self.offsets@ == entry_offsets(self.entries@)
        &&& forall|i: int| 0 <= i < self.entries@.len() ==> encodable(#[trigger] self.entries@[i])
        &&& encoded_block_len(self.entries@) <= MAX_BLOCK_LEN
    }

    /// A builder without entries.
    pub fn new() -> (b: Self)
        ensures
            b.wf(),
            b.entries() == Seq::<EntryView>::empty(),
    {
        let b = BlockBuilder {
            data: Vec::new(),
            offsets: Vec::new(),
            entries: Ghost(Seq::empty()),
        };
        assert(b.offsets@ =~= entry_offsets(b.entries@));
        b
    }

    /// Whether no entry has been added.
    pub fn is_empty(&self) -> (r: bool)
        requires
            self.wf(),
        ensures
            r == (self.entries().len() == 0),
    {
        self.offsets.len() == 0
    }

    /// Adds the entry made of `key` and `value` at the end.
    pub fn add(&mut self, key: &KeyBytes, value: &Option<Vec<u8>>)
        requires
            old(self).wf(),
            encodable(EntryView { key: key@, value: value_view(*value) }),
            encoded_block_len(old(self).entries()) + encoded_entry_len(
                EntryView { key: key@, value: value_view(*value) },
            ) + 4 <= MAX_BLOCK_LEN,
        ensures
            final(self).wf(),
            final(self).entries() == old(self).entries().push(
                EntryView { key: key@, value: value_view(*value) },
            ),
    {
        let ghost e = EntryView { key: key@, value: value_view(*value) };
        let ghost before = self.entries@;
        proof {
            lemma_encode_entries_len(before);
            lemma_entries_push(before, e);
        }
        let offset = self.data.len() as u32;
        self.offsets.push(offset);
        write_entry(&mut self.data, key, value);
        self.entries = Ghost(before.push(e));
        proof {
            let after = before.push(e);
            assert forall|i: int| 0 <= i < after.len() implies self.offsets@[i] == entry_offsets(
                after,
            )[i] by {
                if i < before.len() {
                    assert(after.take(i) =~= before.take(i));
                }
            }
            assert(self.offsets@ =~= entry_offsets(after));
        }
    }

    /// The wire form of the block of the entries added.
    pub fn finish(self) -> (r: Vec<u8>)
        requires
            self.wf(),
            self.entries().len() >= 1,
        ensures
            r@ == encode_block(self.entries()),
            block_encodable(self.entries()),
    {
        let mut buf = self.data;
        let n = self.offsets.len();
        let mut i: usize = 0;
        while i < n
            invariant
                i <= n,
                n == self.offsets@.len(),
                buf@ == self.data@ + encode_u32s(self.offsets@.take(i as int)),
            decreases n - i,
        {
            put_u32(&mut buf, self.offsets[i]);
            proof {
                let next = self.offsets@.take(i + 1);
                assert(next.drop_last() =~= self.offsets@.take(i as int));
            }
            i = i + 1;
        }
        assert(self.offsets@.take(n as int) =~= self.offsets@);
        put_u32(&mut buf, n as u32);
        buf
    }
}

} // verus!

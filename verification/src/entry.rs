//! Table entries and their wire form.
//!
//! An entry is a versioned key with a value or a deletion marker. On the
//! wire it is `[key_len: u16][key][version: u64][value_len: u32][value]`,
//! integers little-endian. A deletion is written as the reserved length
//! `0xFFFF_FFFF` with no value octets, so that an empty value stays
//! distinct from a deletion.

use crate::codec::{
    get_bytes, get_u16, get_u32, get_u64, lemma_le_bytes, lemma_le_bytes_back, put_bytes, put_u16,
    put_u32, put_u64,
};
use crate::buffer::bytes_from_vec;
use crate::key::{key_le, lemma_key_le_transitive, lemma_key_trichotomy, KeyBytes, KeyView};
use vstd::bytes::*;
use vstd::prelude::*;

verus! {

/// The value length that marks a deletion.
pub const TOMBSTONE: u32 = 0xFFFF_FFFF;

/// The longest key that the wire form can hold.
pub const MAX_KEY_LEN: usize = 0xFFFF;

/// The longest value that the wire form can hold.
pub const MAX_VALUE_LEN: usize = 0xFFFF_FFFE;

/// The mathematical value of an entry. A `value` of `None` is a deletion.
pub struct EntryView {
    pub key: KeyView,
    pub value: Option<Seq<u8>>,
}

/// A versioned key with its value, or with `None` for a deletion.
#[derive(Debug)]
pub struct Entry {
    pub key: KeyBytes,
    pub value: Option<Vec<u8>>,
}

/// The mathematical value of an optional value.
pub open spec fn value_view(v: Option<Vec<u8>>) -> Option<Seq<u8>> {
    match v {
        Some(b) => Some(b@),
        None => None,
    }
}

impl View for Entry {
    type V = EntryView;

    open spec fn view(&self) -> EntryView {
        EntryView { key: self.key@, value: value_view(self.value) }
    }
}

/// The mathematical values of a run of entries.
pub open spec fn entries_view(es: Seq<Entry>) -> Seq<EntryView> {
    es.map_values(|e: Entry| e@)
}

/// The key is short enough for its length to be written in two octets.
pub open spec fn key_encodable(k: KeyView) -> bool {
    k.bytes.len() <= MAX_KEY_LEN
}

/// The value, if there is one, is short enough for its length to be
/// written in four octets without colliding with the deletion marker.
pub open spec fn value_encodable(v: Option<Seq<u8>>) -> bool {
    v matches Some(b) ==> b.len() <= MAX_VALUE_LEN
}

/// Both key and value fit the wire form.
pub open spec fn encodable(e: EntryView) -> bool {
    key_encodable(e.key) && value_encodable(e.value)
}

/// The number of octets of an encoded key.
pub open spec fn encoded_key_len(k: KeyView) -> nat {
    2 + k.bytes.len() + 8
}

/// The number of octets of an encoded value.
pub open spec fn encoded_value_len(v: Option<Seq<u8>>) -> nat {
    match v {
        Some(b) => 4 + b.len(),
        None => 4,
    }
}

/// The number of octets of an encoded entry.
pub open spec fn encoded_entry_len(e: EntryView) -> nat {
    encoded_key_len(e.key) + encoded_value_len(e.value)
}

/// The wire form of a key: length, octets, version.
pub open spec fn encode_key(k: KeyView) -> Seq<u8> {
    spec_u16_to_le_bytes(k.bytes.len() as u16) + k.bytes + spec_u64_to_le_bytes(k.version)
}

/// The wire form of a value: length and octets, or the deletion marker.
pub open spec fn encode_value(v: Option<Seq<u8>>) -> Seq<u8> {
    match v {
        Some(b) => spec_u32_to_le_bytes(b.len() as u32) + b,
        None => spec_u32_to_le_bytes(TOMBSTONE),
    }
}

/// The wire form of an entry: its key, then its value.
pub open spec fn encode_entry(e: EntryView) -> Seq<u8> {
    encode_key(e.key) + encode_value(e.value)
}

/// Reads a key at `pos`: the key and the position after it, or `None` where
/// the octets from `pos` on are too few.
pub open spec fn parse_key(s: Seq<u8>, pos: int) -> Option<(KeyView, int)> {
    if pos + 2 > s.len() {
        None
    } else {
        let n = spec_u16_from_le_bytes(s.subrange(pos, pos + 2)) as int;
        if pos + 2 + n + 8 > s.len() {
            None
        } else {
            Some(
                (
                    KeyView {
                        bytes: s.subrange(pos + 2, pos + 2 + n),
                        version: spec_u64_from_le_bytes(s.subrange(pos + 2 + n, pos + 2 + n + 8)),
                    },
                    pos + 2 + n + 8,
                ),
            )
        }
    }
}

/// Reads a value at `pos`: the value and the position after it, or `None`
/// where the octets from `pos` on are too few.
pub open spec fn parse_value(s: Seq<u8>, pos: int) -> Option<(Option<Seq<u8>>, int)> {
    if pos + 4 > s.len() {
        None
    } else {
        let n = spec_u32_from_le_bytes(s.subrange(pos, pos + 4));
        if n == TOMBSTONE {
            Some((None, pos + 4))
        } else if pos + 4 + n > s.len() {
            None
        } else {
            Some((Some(s.subrange(pos + 4, pos + 4 + n)), pos + 4 + n))
        }
    }
}

/// Reads an entry at `pos`: the entry and the position after it, or `None`
/// where the octets from `pos` on are too few.
pub open spec fn parse_entry(s: Seq<u8>, pos: int) -> Option<(EntryView, int)> {
    match parse_key(s, pos) {
        None => None,
        Some((key, mid)) => match parse_value(s, mid) {
            None => None,
            Some((value, next)) => Some((EntryView { key, value }, next)),
        },
    }
}

/// An encoded key has the length that `encoded_key_len` gives.
pub proof fn lemma_encode_key_len(k: KeyView)
    ensures
        encode_key(k).len() == encoded_key_len(k),
{
    lemma_le_bytes();
}

/// An encoded entry has the length that `encoded_entry_len` gives.
pub proof fn lemma_encode_entry_len(e: EntryView)
    ensures
        encode_entry(e).len() == encoded_entry_len(e),
        encoded_entry_len(e) >= 14,
{
    lemma_le_bytes();
}

/// Where the wire form of a key stands at `pos`, reading at `pos` gives
/// the key back.
pub proof fn lemma_parse_encoded_key(s: Seq<u8>, pos: int, k: KeyView)
    requires
        key_encodable(k),
        0 <= pos,
        pos + encoded_key_len(k) <= s.len(),
        s.subrange(pos, pos + encoded_key_len(k)) == encode_key(k),
    ensures
        parse_key(s, pos) == Some((k, pos + encoded_key_len(k))),
{
    lemma_le_bytes();
    let n = k.bytes.len() as int;
    let enc = encode_key(k);
    let part = s.subrange(pos, pos + encoded_key_len(k));
    assert(s.subrange(pos, pos + 2) =~= part.subrange(0, 2));
    assert(enc.subrange(0, 2) =~= spec_u16_to_le_bytes(n as u16));
    assert(s.subrange(pos + 2, pos + 2 + n) =~= part.subrange(2, 2 + n));
    assert(enc.subrange(2, 2 + n) =~= k.bytes);
    assert(s.subrange(pos + 2 + n, pos + 2 + n + 8) =~= part.subrange(2 + n, 2 + n + 8));
    assert(enc.subrange(2 + n, 2 + n + 8) =~= spec_u64_to_le_bytes(k.version));
}

/// What is read as a key is the wire form of that key.
pub proof fn lemma_encode_parsed_key(s: Seq<u8>, pos: int)
    requires
        0 <= pos,
        parse_key(s, pos) is Some,
    ensures
        ({
            let (k, next) = parse_key(s, pos)->0;
            &&& key_encodable(k)
            &&& next == pos + encoded_key_len(k)
            &&& next <= s.len()
            &&& s.subrange(pos, next) == encode_key(k)
        }),
{
    lemma_le_bytes();
    lemma_le_bytes_back();
    let (k, next) = parse_key(s, pos)->0;
    let head = s.subrange(pos, pos + 2);
    let n = spec_u16_from_le_bytes(head);
    let tail = s.subrange(pos + 2 + n, pos + 2 + n + 8);
    assert(spec_u16_to_le_bytes(spec_u16_from_le_bytes(head)) == head);
    assert(spec_u64_to_le_bytes(spec_u64_from_le_bytes(tail)) == tail);
    assert(k.bytes.len() as u16 == n);
    assert(s.subrange(pos, next) =~= head + k.bytes + tail);
}

/// Where the wire form of a value stands at `pos`, reading at `pos` gives
/// the value back.
pub proof fn lemma_parse_encoded_value(s: Seq<u8>, pos: int, v: Option<Seq<u8>>)
    requires
        value_encodable(v),
        0 <= pos,
        pos + encoded_value_len(v) <= s.len(),
        s.subrange(pos, pos + encoded_value_len(v)) == encode_value(v),
    ensures
        parse_value(s, pos) == Some((v, pos + encoded_value_len(v))),
{
    lemma_le_bytes();
    let enc = encode_value(v);
    let part = s.subrange(pos, pos + encoded_value_len(v));
    assert(s.subrange(pos, pos + 4) =~= part.subrange(0, 4));
    match v {
        Some(b) => {
            let n = b.len() as int;
            assert(enc.subrange(0, 4) =~= spec_u32_to_le_bytes(n as u32));
            assert(s.subrange(pos + 4, pos + 4 + n) =~= part.subrange(4, 4 + n));
        },
        None => {},
    }
}

/// Where the wire form of an entry stands at `pos`, reading at `pos` gives
/// the entry back.
pub proof fn lemma_parse_encoded_entry(s: Seq<u8>, pos: int, e: EntryView)
    requires
        encodable(e),
        0 <= pos,
        pos + encoded_entry_len(e) <= s.len(),
        s.subrange(pos, pos + encoded_entry_len(e)) == encode_entry(e),
    ensures
        parse_entry(s, pos) == Some((e, pos + encoded_entry_len(e))),
{
    lemma_le_bytes();
    let klen = encoded_key_len(e.key) as int;
    let elen = encoded_entry_len(e) as int;
    let mid = pos + klen;
    let part = s.subrange(pos, pos + elen);
    assert(s.subrange(pos, mid) =~= part.subrange(0, klen));
    assert(part.subrange(0, klen) =~= encode_key(e.key));
    assert(s.subrange(mid, pos + elen) =~= part.subrange(klen, elen));
    assert(part.subrange(klen, elen) =~= encode_value(e.value));
    lemma_parse_encoded_key(s, pos, e.key);
    lemma_parse_encoded_value(s, mid, e.value);
}

/// Appends the wire form of `key`.
pub fn write_key(buf: &mut Vec<u8>, key: &KeyBytes)
    requires
        key_encodable(key@),
    ensures
        final(buf)@ == old(buf)@ + encode_key(key@),
{
    let bytes = key.key_ref();
    put_u16(buf, bytes.len() as u16);
    put_bytes(buf, bytes);
    put_u64(buf, key.version());
}

/// Appends the wire form of `value`.
pub fn write_value(buf: &mut Vec<u8>, value: &Option<Vec<u8>>)
    requires
        value_encodable(value_view(*value)),
    ensures
        final(buf)@ == old(buf)@ + encode_value(value_view(*value)),
{
    match value {
        Some(b) => {
            put_u32(buf, b.len() as u32);
            put_bytes(buf, b.as_slice());
        },
        None => {
            put_u32(buf, TOMBSTONE);
        },
    }
}

/// Appends the wire form of the entry made of `key` and `value`.
pub fn write_entry(buf: &mut Vec<u8>, key: &KeyBytes, value: &Option<Vec<u8>>)
    requires
        key_encodable(key@),
        value_encodable(value_view(*value)),
    ensures
        final(buf)@ == old(buf)@ + encode_entry(EntryView { key: key@, value: value_view(*value) }),
{
    write_key(buf, key);
    write_value(buf, value);
    assert(buf@ =~= old(buf)@ + encode_entry(
        EntryView { key: key@, value: value_view(*value) },
    ));
}

/// Reads a key at `pos`, as `parse_key` describes.
pub fn read_key(s: &[u8], pos: usize) -> (r: Option<(KeyBytes, usize)>)
    requires
        pos <= s@.len(),
    ensures
        match parse_key(s@, pos as int) {
            Some((k, next)) => r matches Some((key, p)) && key@ == k && p == next,
            None => r is None,
        },
{
    if s.len() - pos < 2 {
        return None;
    }
    let n = get_u16(s, pos) as usize;
    if s.len() - pos - 2 < n || s.len() - pos - 2 - n < 8 {
        return None;
    }
    let bytes = get_bytes(s, pos + 2, pos + 2 + n);
    let version = get_u64(s, pos + 2 + n);
    Some((KeyBytes::new(bytes_from_vec(bytes), version), pos + 2 + n + 8))
}

/// Reads a value at `pos`, as `parse_value` describes.
pub fn read_value(s: &[u8], pos: usize) -> (r: Option<(Option<Vec<u8>>, usize)>)
    requires
        pos <= s@.len(),
    ensures
        match parse_value(s@, pos as int) {
            Some((v, next)) => r matches Some((value, p)) && value_view(value) == v && p == next,
            None => r is None,
        },
{
    if s.len() - pos < 4 {
        return None;
    }
    let n = get_u32(s, pos);
    if n == TOMBSTONE {
        return Some((None, pos + 4));
    }
    let n = n as usize;
    if s.len() - pos - 4 < n {
        return None;
    }
    let bytes = get_bytes(s, pos + 4, pos + 4 + n);
    Some((Some(bytes), pos + 4 + n))
}

/// Reads an entry at `pos`, as `parse_entry` describes.
pub fn read_entry(s: &[u8], pos: usize) -> (r: Option<(Entry, usize)>)
    requires
        pos <= s@.len(),
    ensures
        match parse_entry(s@, pos as int) {
            Some((e, next)) => r matches Some((entry, p)) && entry@ == e && p == next,
            None => r is None,
        },
{
    match read_key(s, pos) {
        None => None,
        Some((key, mid)) => match read_value(s, mid) {
            None => None,
            Some((value, next)) => Some((Entry { key, value }, next)),
        },
    }
}

/// The key of `a` does not come after the key of `b`.
pub open spec fn entry_le(a: EntryView, b: EntryView) -> bool {
    key_le(a.key, b.key)
}

/// The keys of the entries never decrease along the run.
pub open spec fn sorted(es: Seq<EntryView>) -> bool {
    forall|i: int, j: int| 0 <= i < j < es.len() ==> #[trigger] entry_le(es[i], es[j])
}

/// A sorted run stays sorted when an entry is added whose key does not come
/// before the last key.
pub proof fn lemma_sorted_push(es: Seq<EntryView>, e: EntryView)
    requires
        sorted(es),
        es.len() > 0 ==> entry_le(es.last(), e),
    ensures
        sorted(es.push(e)),
{
    let after = es.push(e);
    assert forall|i: int, j: int| 0 <= i < j < after.len() implies #[trigger] entry_le(
        after[i],
        after[j],
    ) by {
        if j < es.len() {
            assert(entry_le(es[i], es[j]));
        } else if i < es.len() - 1 {
            assert(entry_le(es[i], es[es.len() - 1]));
            lemma_key_le_transitive(es[i].key, es.last().key, e.key);
        }
    }
}

/// Whether the keys of the entries never decrease along the run.
pub fn is_sorted(es: &Vec<Entry>) -> (r: bool)
    ensures
        r == sorted(entries_view(es@)),
{
    let n = es.len();
    let ghost all = entries_view(es@);
    if n == 0 {
        return true;
    }
    let mut i: usize = 1;
    while i < n
        invariant
            1 <= i <= n,
            n == es@.len(),
            all == entries_view(es@),
            sorted(all.take(i as int)),
        decreases n - i,
    {
        if es[i].key < es[i - 1].key {
            proof {
                lemma_key_trichotomy(all[i as int].key, all[i - 1].key);
                assert(!entry_le(all[i - 1], all[i as int]));
            }
            return false;
        }
        proof {
            lemma_key_trichotomy(all[i as int].key, all[i - 1].key);
            lemma_sorted_push(all.take(i as int), all[i as int]);
            assert(all.take(i + 1) =~= all.take(i as int).push(all[i as int]));
        }
        i = i + 1;
    }
    assert(all.take(n as int) =~= all);
    true
}

impl Clone for Entry {
    fn clone(&self) -> (e: Self)
        ensures
            e@ == self@,
    {
        let value = match &self.value {
            Some(b) => {
                assert(b@.subrange(0, b@.len() as int) =~= b@);
                Some(get_bytes(b.as_slice(), 0, b.len()))
            },
            None => None,
        };
        Entry { key: self.key.clone(), value }
    }
}

} // verus!

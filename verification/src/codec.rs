//! Fixed-width little-endian integers and raw octet runs, appended to and
//! read from byte buffers. Every multi-octet integer of the table format
//! goes through these functions.

use vstd::bytes::*;
use vstd::prelude::*;
use vstd::slice::{slice_subrange, slice_to_vec};

verus! {

/// What the little-endian encodings are known to satisfy: each has its
/// fixed length, and decoding undoes encoding.
pub proof fn lemma_le_bytes()
    ensures
        forall|x: u16|
            #![trigger spec_u16_to_le_bytes(x)]
            spec_u16_to_le_bytes(x).len() == 2 && spec_u16_from_le_bytes(spec_u16_to_le_bytes(x))
                == x,
        forall|x: u32|
            #![trigger spec_u32_to_le_bytes(x)]
            spec_u32_to_le_bytes(x).len() == 4 && spec_u32_from_le_bytes(spec_u32_to_le_bytes(x))
                == x,
        forall|x: u64|
            #![trigger spec_u64_to_le_bytes(x)]
            spec_u64_to_le_bytes(x).len() == 8 && spec_u64_from_le_bytes(spec_u64_to_le_bytes(x))
                == x,
{
    lemma_auto_spec_u16_to_from_le_bytes();
    lemma_auto_spec_u32_to_from_le_bytes();
    lemma_auto_spec_u64_to_from_le_bytes();
}

/// Encoding undoes decoding: octets of the right number are the encoding of
/// the integer that they decode to.
pub proof fn lemma_le_bytes_back()
    ensures
        forall|s: Seq<u8>|
            s.len() == 2 ==> #[trigger] spec_u16_to_le_bytes(spec_u16_from_le_bytes(s)) == s,
        forall|s: Seq<u8>|
            s.len() == 4 ==> #[trigger] spec_u32_to_le_bytes(spec_u32_from_le_bytes(s)) == s,
        forall|s: Seq<u8>|
            s.len() == 8 ==> #[trigger] spec_u64_to_le_bytes(spec_u64_from_le_bytes(s)) == s,
{
    lemma_auto_spec_u16_to_from_le_bytes();
    lemma_auto_spec_u32_to_from_le_bytes();
    lemma_auto_spec_u64_to_from_le_bytes();
}

/// Appends `x` in two octets.
pub fn put_u16(buf: &mut Vec<u8>, x: u16)
    ensures
        final(buf)@ == old(buf)@ + spec_u16_to_le_bytes(x),
{
    let mut b = u16_to_le_bytes(x);
    buf.append(&mut b);
}

/// Appends `x` in four octets.
pub fn put_u32(buf: &mut Vec<u8>, x: u32)
    ensures
        final(buf)@ == old(buf)@ + spec_u32_to_le_bytes(x),
{
    let mut b = u32_to_le_bytes(x);
    buf.append(&mut b);
}

/// Appends `x` in eight octets.
pub fn put_u64(buf: &mut Vec<u8>, x: u64)
    ensures
        final(buf)@ == old(buf)@ + spec_u64_to_le_bytes(x),
{
    let mut b = u64_to_le_bytes(x);
    buf.append(&mut b);
}

/// Appends the octets of `s`.
pub fn put_bytes(buf: &mut Vec<u8>, s: &[u8])
    ensures
        final(buf)@ == old(buf)@ + s@,
{
    let mut b = slice_to_vec(s);
    buf.append(&mut b);
}

/// Reads the two octets at `pos` as an integer.
pub fn get_u16(s: &[u8], pos: usize) -> (x: u16)
    requires
        pos + 2 <= s@.len(),
    ensures
        x == spec_u16_from_le_bytes(s@.subrange(pos as int, pos + 2)),
{
    assert(s@.len() == s.len());
    u16_from_le_bytes(slice_subrange(s, pos, pos + 2))
}

/// Reads the four octets at `pos` as an integer.
pub fn get_u32(s: &[u8], pos: usize) -> (x: u32)
    requires
        pos + 4 <= s@.len(),
    ensures
        x == spec_u32_from_le_bytes(s@.subrange(pos as int, pos + 4)),
{
    assert(s@.len() == s.len());
    u32_from_le_bytes(slice_subrange(s, pos, pos + 4))
}

/// Reads the eight octets at `pos` as an integer.
pub fn get_u64(s: &[u8], pos: usize) -> (x: u64)
    requires
        pos + 8 <= s@.len(),
    ensures
        x == spec_u64_from_le_bytes(s@.subrange(pos as int, pos + 8)),
{
    assert(s@.len() == s.len());
    u64_from_le_bytes(slice_subrange(s, pos, pos + 8))
}

/// Copies the octets from `from` up to `to` into a buffer of their own.
pub fn get_bytes(s: &[u8], from: usize, to: usize) -> (v: Vec<u8>)
    requires
        from <= to <= s@.len(),
    ensures
        v@ == s@.subrange(from as int, to as int),
{
    slice_to_vec(slice_subrange(s, from, to))
}

} // verus!

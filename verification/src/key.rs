//! Versioned keys and their total order.
//!
//! A key is a string of octets together with the version at which it was
//! written. Keys are ordered by their octets, lexicographically, and among
//! keys with the same octets by ascending version. Every sorted structure of
//! the table layer relies on this one order.

use crate::buffer::{bytes_as_slice, bytes_clone, bytes_contents, bytes_empty, bytes_from_vec};
use bytes::Bytes;
use std::cmp::Ordering;
use vstd::prelude::*;

verus! {

/// The version of a default key.
pub const VERSION_DEFAULT: u64 = 0;

/// The number of octets that the version adds to a serialized key.
pub const VERSION_LEN: usize = 8;

/// The mathematical value of a versioned key.
pub struct KeyView {
    pub bytes: Seq<u8>,
    pub version: u64,
}

/// `a` and `b` agree on their first `n` octets.
pub open spec fn agree_upto(a: Seq<u8>, b: Seq<u8>, n: int) -> bool {
    &&& 0 <= n <= a.len()
    &&& n <= b.len()
    &&& forall|j: int| 0 <= j < n ==> a[j] == b[j]
}

/// Lexicographic order on octet strings: `a` is a proper prefix of `b`, or
/// at the first place where the two differ `a` holds the smaller octet.
pub open spec fn bytes_lt(a: Seq<u8>, b: Seq<u8>) -> bool {
    exists|n: int| #[trigger] agree_upto(a, b, n) && n < b.len() && (n == a.len() || a[n] < b[n])
}

/// The strict order on keys: by octets first, then by version.
pub open spec fn key_lt(a: KeyView, b: KeyView) -> bool {
    bytes_lt(a.bytes, b.bytes) || (a.bytes == b.bytes && a.version < b.version)
}

/// The order on keys: `a` comes before `b` or is the same key.
pub open spec fn key_le(a: KeyView, b: KeyView) -> bool {
    key_lt(a, b) || a == b
}

/// No octet string comes before itself, and no two come before each other.
pub proof fn lemma_bytes_lt_asymmetric(a: Seq<u8>, b: Seq<u8>)
    requires
        bytes_lt(a, b),
    ensures
        !bytes_lt(b, a),
        a != b,
{
    let n = choose|n: int|
        #[trigger] agree_upto(a, b, n) && n < b.len() && (n == a.len() || a[n] < b[n]);
    if bytes_lt(b, a) {
        let m = choose|m: int|
            #[trigger] agree_upto(b, a, m) && m < a.len() && (m == b.len() || b[m] < a[m]);
        assert(a[n] == b[n] || a[m] == b[m]);
    }
}

/// Of two octet strings, one comes before the other or they are equal.
pub proof fn lemma_bytes_lt_total(a: Seq<u8>, b: Seq<u8>)
    ensures
        bytes_lt(a, b) || a == b || bytes_lt(b, a),
{
    lemma_bytes_total_from(a, b, 0);
}

/// Two octet strings that agree on their first `n` octets are equal, or one
/// comes before the other.
proof fn lemma_bytes_total_from(a: Seq<u8>, b: Seq<u8>, n: int)
    requires
        agree_upto(a, b, n),
    ensures
        bytes_lt(a, b) || a == b || bytes_lt(b, a),
    decreases a.len() - n,
{
    assert(agree_upto(b, a, n));
    if n < a.len() && n < b.len() && a[n] == b[n] {
        lemma_bytes_total_from(a, b, n + 1);
    }
}

/// The lexicographic order is transitive.
pub proof fn lemma_bytes_lt_transitive(a: Seq<u8>, b: Seq<u8>, c: Seq<u8>)
    requires
        bytes_lt(a, b),
        bytes_lt(b, c),
    ensures
        bytes_lt(a, c),
{
    let n = choose|n: int|
        #[trigger] agree_upto(a, b, n) && n < b.len() && (n == a.len() || a[n] < b[n]);
    let m = choose|m: int|
        #[trigger] agree_upto(b, c, m) && m < c.len() && (m == b.len() || b[m] < c[m]);
    let k = if n <= m { n } else { m };
    assert(agree_upto(a, c, k));
}

/// Of two keys, exactly one of these holds: the first comes before the
/// second, they are the same key, or the second comes before the first.
pub proof fn lemma_key_trichotomy(a: KeyView, b: KeyView)
    ensures
        key_lt(a, b) || a == b || key_lt(b, a),
        !(key_lt(a, b) && a == b),
        !(key_lt(a, b) && key_lt(b, a)),
        !(a == b && key_lt(b, a)),
{
    lemma_bytes_lt_total(a.bytes, b.bytes);
    if bytes_lt(a.bytes, b.bytes) {
        lemma_bytes_lt_asymmetric(a.bytes, b.bytes);
    }
    if bytes_lt(b.bytes, a.bytes) {
        lemma_bytes_lt_asymmetric(b.bytes, a.bytes);
    }
}

/// The strict order on keys is transitive.
pub proof fn lemma_key_lt_transitive(a: KeyView, b: KeyView, c: KeyView)
    requires
        key_lt(a, b),
        key_lt(b, c),
    ensures
        key_lt(a, c),
{
    if bytes_lt(a.bytes, b.bytes) && bytes_lt(b.bytes, c.bytes) {
        lemma_bytes_lt_transitive(a.bytes, b.bytes, c.bytes);
    }
}

/// The order on keys is transitive, and strict as soon as one step is.
pub proof fn lemma_key_le_transitive(a: KeyView, b: KeyView, c: KeyView)
    requires
        key_le(a, b),
        key_le(b, c),
    ensures
        key_le(a, c),
        key_lt(a, b) || key_lt(b, c) ==> key_lt(a, c),
{
    if key_lt(a, b) && key_lt(b, c) {
        lemma_key_lt_transitive(a, b, c);
    }
}

/// Keys with the same octets are ordered by their versions alone.
pub proof fn lemma_same_bytes_order_by_version(a: KeyView, b: KeyView)
    requires
        a.bytes == b.bytes,
    ensures
        key_lt(a, b) <==> a.version < b.version,
        a == b <==> a.version == b.version,
        key_lt(b, a) <==> a.version > b.version,
{
    if bytes_lt(a.bytes, b.bytes) {
        lemma_bytes_lt_asymmetric(a.bytes, b.bytes);
    }
    if bytes_lt(b.bytes, a.bytes) {
        lemma_bytes_lt_asymmetric(b.bytes, a.bytes);
    }
}

/// Distinct keys with the same version are ordered as their octets are in
/// the lexicographic order, and one of them comes first.
pub proof fn lemma_same_version_order_by_bytes(a: KeyView, b: KeyView)
    requires
        a.version == b.version,
        a != b,
    ensures
        key_lt(a, b) <==> bytes_lt(a.bytes, b.bytes),
        key_lt(b, a) <==> bytes_lt(b.bytes, a.bytes),
        key_lt(a, b) != key_lt(b, a),
{
    lemma_key_trichotomy(a, b);
}

/// A key that stands between two keys with the same octets has those octets
/// too.
pub proof fn lemma_same_bytes_between(a: KeyView, b: KeyView, c: KeyView)
    requires
        key_le(a, b),
        key_le(b, c),
        a.bytes == c.bytes,
    ensures
        b.bytes == a.bytes,
{
    if bytes_lt(a.bytes, b.bytes) {
        lemma_bytes_lt_asymmetric(a.bytes, b.bytes);
    }
}

/// The length of the longest common prefix of two octet strings.
pub fn common_prefix_len(a: &[u8], b: &[u8]) -> (n: usize)
    ensures
        agree_upto(a@, b@, n as int),
        n < a@.len() && n < b@.len() ==> a@[n as int] != b@[n as int],
{
    let mut n: usize = 0;
    while n < a.len() && n < b.len() && a[n] == b[n]
        invariant
            agree_upto(a@, b@, n as int),
        decreases a@.len() - n,
    {
        n = n + 1;
    }
    n
}

/// Whether two octet strings are the same.
pub fn same_bytes(a: &[u8], b: &[u8]) -> (r: bool)
    ensures
        r == (a@ == b@),
{
    let n = common_prefix_len(a, b);
    if n == a.len() && n == b.len() {
        assert(a@ =~= b@);
        true
    } else {
        false
    }
}

/// A buffer that can hold the octets of a key. Where such a buffer has an
/// order of its own, it is the lexicographic order of its octets, as it is
/// for `Bytes` and for slices.
pub trait KeyData {
    /// The octets held, in order.
    spec fn data(&self) -> Seq<u8>;

    /// The octets held, as a slice.
    fn as_bytes(&self) -> (s: &[u8])
        ensures
            s@ == self.data(),
    ;
}

impl KeyData for Bytes {
    open spec fn data(&self) -> Seq<u8> {
        bytes_contents(*self)
    }

    fn as_bytes(&self) -> (s: &[u8]) {
        bytes_as_slice(self)
    }
}

impl<'a> KeyData for &'a [u8] {
    open spec fn data(&self) -> Seq<u8> {
        (*self)@
    }

    fn as_bytes(&self) -> (s: &[u8]) {
        *self
    }
}

/// A key together with the version at which it was written.
#[derive(Debug, Ord)]
pub struct Key<T: KeyData> {
    key: T,
    version: u64,
}

/// A key that owns its octets.
pub type KeyBytes = Key<Bytes>;

/// A key that borrows its octets from another buffer.
pub type KeySlice<'a> = Key<&'a [u8]>;

impl<T: KeyData> View for Key<T> {
    type V = KeyView;

    closed spec fn view(&self) -> KeyView {
        KeyView { bytes: self.key.data(), version: self.version }
    }
}

impl<T: KeyData> Key<T> {
    /// The version of the key.
    pub fn version(&self) -> (v: u64)
        ensures
            v == self@.version,
    {
        self.version
    }

    /// The octets of the key.
    pub fn key_ref(&self) -> (s: &[u8])
        ensures
            s@ == self@.bytes,
    {
        self.key.as_bytes()
    }

    /// The number of octets of the key.
    pub fn key_len(&self) -> (n: usize)
        ensures
            n == self@.bytes.len(),
    {
        self.key.as_bytes().len()
    }

    /// The number of octets of the serialized key: its octets and its
    /// version. It serves size accounting and plays no part in the order.
    pub fn raw_len(&self) -> (n: usize)
        requires
            self@.bytes.len() + VERSION_LEN <= usize::MAX,
        ensures
            n == self@.bytes.len() + VERSION_LEN,
    {
        self.key.as_bytes().len() + VERSION_LEN
    }

    /// Where this key stands in the order relative to `other`.
    pub fn compare(&self, other: &Self) -> (o: Ordering)
        ensures
            o == Ordering::Less <==> key_lt(self@, other@),
            o == Ordering::Equal <==> self@ == other@,
            o == Ordering::Greater <==> key_lt(other@, self@),
    {
        let a = self.key.as_bytes();
        let b = other.key.as_bytes();
        let n = common_prefix_len(a, b);
        proof {
            lemma_key_trichotomy(self@, other@);
        }
        if n < a.len() {
            if n < b.len() && a[n] < b[n] {
                Ordering::Less
            } else {
                Ordering::Greater
            }
        } else if n < b.len() {
            Ordering::Less
        } else {
            if self.version < other.version {
                Ordering::Less
            } else if self.version == other.version {
                Ordering::Equal
            } else {
                Ordering::Greater
            }
        }
    }
}

impl<T: KeyData> PartialEq for Key<T> {
    fn eq(&self, other: &Self) -> (r: bool) {
        match self.compare(other) {
            Ordering::Equal => true,
            _ => false,
        }
    }
}

impl<T: KeyData> vstd::std_specs::cmp::PartialEqSpecImpl for Key<T> {
    open spec fn obeys_eq_spec() -> bool {
        true
    }

    open spec fn eq_spec(&self, other: &Self) -> bool {
        self@ == other@
    }
}

impl<T: KeyData> Eq for Key<T> {}

impl<T: KeyData> PartialOrd for Key<T> {
    fn partial_cmp(&self, other: &Self) -> (r: Option<Ordering>) {
        Some(self.compare(other))
    }
}

impl<T: KeyData> vstd::std_specs::cmp::PartialOrdSpecImpl for Key<T> {
    open spec fn obeys_partial_cmp_spec() -> bool {
        true
    }

    open spec fn partial_cmp_spec(&self, other: &Self) -> Option<Ordering> {
        if key_lt(self@, other@) {
            Some(Ordering::Less)
        } else if self@ == other@ {
            Some(Ordering::Equal)
        } else {
            Some(Ordering::Greater)
        }
    }
}

impl KeyBytes {
    /// A key that owns `key` and carries `version`.
    pub fn new(key: Bytes, version: u64) -> (k: Self)
        ensures
            k@ == (KeyView { bytes: bytes_contents(key), version }),
    {
        Self { key, version }
    }

    /// The same key as a view into this key's buffer; nothing is copied.
    pub fn to_key_slice(&self) -> (k: KeySlice<'_>)
        ensures
            k@ == self@,
    {
        KeySlice { key: bytes_as_slice(&self.key), version: self.version }
    }
}

impl<'a> KeySlice<'a> {
    /// A view of `key` at `version`.
    pub fn from_slice(key: &'a [u8], version: u64) -> (k: Self)
        ensures
            k@ == (KeyView { bytes: key@, version }),
    {
        Self { key, version }
    }

    /// The same key with a buffer of its own, into which the octets are
    /// copied.
    pub fn to_key_bytes(&self) -> (k: KeyBytes)
        ensures
            k@ == self@,
    {
        KeyBytes::new(bytes_from_vec(vstd::slice::slice_to_vec(self.key)), self.version)
    }
}

impl Clone for KeyBytes {
    fn clone(&self) -> (k: Self)
        ensures
            k@ == self@,
    {
        Self { key: bytes_clone(&self.key), version: self.version }
    }
}

impl Default for KeyBytes {
    fn default() -> (k: Self)
        ensures
            k@ == (KeyView { bytes: Seq::empty(), version: VERSION_DEFAULT }),
    {
        Self { key: bytes_empty(), version: VERSION_DEFAULT }
    }
}

impl<'a> Default for KeySlice<'a> {
    fn default() -> (k: Self)
        ensures
            k@ == (KeyView { bytes: Seq::empty(), version: VERSION_DEFAULT }),
    {
        let none: &[u8] = &[];
        let k = Self { key: vstd::slice::slice_subrange(none, 0, 0), version: VERSION_DEFAULT };
        assert(k@.bytes =~= Seq::<u8>::empty());
        k
    }
}

} // verus!

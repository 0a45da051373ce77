//! Sorted-table layer of a log-structured-merge key-value store: versioned
//! keys with a total order, and immutable tables of sorted entries that are
//! encoded into blocks with a block index.
//!
//! A table is built by [`SsTableBuilder`] from entries in key order, encoded
//! into one run of octets, and opened again by [`SsTable::open`]. An open
//! table answers point lookups at a version and ordered range scans.

pub mod block;
pub mod block_meta;
pub mod buffer;
pub mod builder;
pub mod codec;
pub mod entry;
pub mod error;
pub mod key;
pub mod laws;
pub mod layout;
pub mod lookup;
pub mod scan;
pub mod table;

pub use crate::block_meta::{BlockMeta, BlockMetaVec};
pub use crate::builder::SsTableBuilder;
pub use crate::entry::Entry;
pub use crate::error::TableError;
pub use crate::key::{Key, KeyBytes, KeySlice};
pub use crate::lookup::Lookup;
pub use crate::scan::{KeyBound, TableIter};
pub use crate::table::{SsTable, SsTableId, SsTableMeta};

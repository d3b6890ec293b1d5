//! A read-only reader for the SQLite database file format.
//!
//! The file is held in memory as one immutable byte buffer.  Every layer of
//! the on-disk format — variable-length integers, record serialization,
//! B-tree cells, B-tree pages, the file header and the schema — is decoded by
//! verified functions whose contracts tie the decoded values to specification
//! functions over the raw byte sequence.  On top of the decoders, verified
//! B-tree walks answer full table scans, index lookups and targeted fetches,
//! and a small query executor plans and drives them.

pub mod btree;
pub mod bytes;
pub mod cell;
pub mod database;
pub mod error;
pub mod header;
pub mod page;
pub mod query;
pub mod record;
pub mod varint;

//! Error kinds reported by the decoder and the query executor.

use vstd::prelude::*;

verus! {

/// One failure kind per class of fault: an unreadable file, a corrupt file
/// header, a corrupt page (bad offsets, overlapping or truncated cells), a
/// corrupt record (bad serial type, truncated payload), a feature the reader
/// recognizes but does not process (overflow payloads, numeric filter
/// literals, schema objects it cannot use), a missing table, a missing
/// column, or query text that cannot be recognized.
///
/// Every error is fatal to the current command: a query either produces a
/// complete result or fails with one of these.
#[derive(Clone, Copy, Debug, PartialEq, Eq, Structural)]
pub enum DbError {
    Io,
    MalformedHeader,
    MalformedPage,
    MalformedRecord,
    UnsupportedFeature,
    NoSuchTable,
    NoSuchColumn,
    ParseError,
}

} // verus!

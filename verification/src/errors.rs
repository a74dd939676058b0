use vstd::prelude::*;

verus! {

/// The error taxonomy of the store.
#[derive(Clone, Copy, Debug, PartialEq, Eq, Structural)]
pub enum StoreError {
    /// Filesystem open/read/write/flush failure, reported by the caller
    /// that performs the actual I/O.
    IOError,
    /// Tree file header magic or version mismatch on open.
    FormatError,
    /// A key or value encoding exceeds its configured maximum size, or
    /// decoding fails.
    EncodingError,
    /// Unexpected end-of-file mid-record during log replay, or an
    /// internally inconsistent page during tree lookup.
    CorruptionError,
}

} // verus!

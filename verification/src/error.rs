//! The closed set of failure kinds used across the store.

use vstd::prelude::*;

verus! {

/// Error type for the key-value store.
///
/// `IO` covers file-system failures (raised by the unverified shell
/// around the engine) and requests whose encoded size cannot be
/// represented on this machine.  `EOF` is an internal sentinel for a
/// clean end of the log during the recovery scan; it never escapes the
/// public operations.
#[derive(Clone, Copy, Debug, PartialEq, Eq, Structural)]
pub enum KvsError {
    /// A file-system or low-level read/write failure.
    IO,
    /// An internal byte-slice conversion for a record header failed:
    /// the slice was not exactly the header size.
    SliceDecode,
    /// The command-type byte of a record is not a recognized variant.
    ReprDecode,
    /// A key or value payload in the log is not valid UTF-8.
    StringDecode,
    /// `remove` was called on an absent key.
    KeyNotFound,
    /// Clean end of file reached during the recovery scan.
    EOF,
    /// A required directory could not be resolved during compaction.
    InvalidDataPath,
}

} // verus!

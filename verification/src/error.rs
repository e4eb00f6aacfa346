//! Error kinds the storage engine reports.

use vstd::prelude::*;

verus! {

/// Everything that can go wrong inside the store.
///
/// Filesystem-level failures (`Io`, `Glob`, `Pattern`, `ParseInt`) are
/// carried as plain messages produced at the I/O boundary around the
/// library. `DataEntryCorrupted` and `KeyNotFound` are reserved kinds
/// that the current engine never raises itself.
#[derive(Debug, Clone)]
pub enum StoreError {
    /// A filesystem or handle-level failure.
    Io(String),
    /// A directory enumeration failure during open.
    Glob(String),
    /// A bad enumeration pattern during open.
    Pattern(String),
    /// A segment filename id that would not parse.
    ParseInt(String),
    /// A record header was read but its payload is truncated.
    DeserializeError,
    /// Reserved for CRC mismatches.
    DataEntryCorrupted { file_id: u64, key: Vec<u8>, offset: u64 },
    /// Reserved; lookups of absent keys yield a null value instead.
    KeyNotFound(Vec<u8>),
    /// The key exceeds the configured `max_key_size`.
    KeyIsTooLarge,
    /// The value exceeds the configured `max_value_size`.
    ValueIsTooLarge,
    /// A write reached a read-only segment file.
    FileNotWriteable(String),
    /// Another engine instance holds the directory.
    AlreadyLocked,
    /// An ad-hoc error message.
    Custom(String),
}

} // verus!

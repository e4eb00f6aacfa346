//! Fixed constants of the storage engine.

use vstd::prelude::*;

verus! {

/// Default rotation threshold for the active segment, in bytes (100 MiB).
pub const DEFAULT_MAX_DATA_FILE_SIZE: u64 = 100 * 1024 * 1024;

/// Default bound on key length, in bytes.
pub const DEFAULT_MAX_KEY_SIZE: u64 = 64;

/// Default bound on value length, in bytes.
pub const DEFAULT_MAX_VALUE_SIZE: u64 = 65536;

/// Filename suffix of data segments.
pub const DATA_FILE_SUFFIX: &'static str = ".data";

/// Filename suffix of hint segments.
pub const HINT_FILE_SUFFIX: &'static str = ".hint";

/// The reserved value bytes that mark a record as a logical deletion.
pub open spec fn spec_tombstone() -> Seq<u8> {
    seq![37u8, 82u8, 77u8, 37u8]
}

/// The reserved tombstone value, as owned bytes.
pub fn remove_tombstone() -> (r: Vec<u8>)
    ensures
        r@ =~= spec_tombstone(),
{
    let mut v: Vec<u8> = Vec::new();
    v.push(37);
    v.push(82);
    v.push(77);
    v.push(37);
    v
}

} // verus!

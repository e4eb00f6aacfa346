//! Store configuration and the builder used to open a directory with
//! custom options.

use vstd::prelude::*;

use crate::error::StoreError;
use crate::settings::DEFAULT_MAX_DATA_FILE_SIZE;
use crate::settings::DEFAULT_MAX_KEY_SIZE;
use crate::settings::DEFAULT_MAX_VALUE_SIZE;
use crate::storage::DiskStorage;
use crate::storage::SegmentFile;

verus! {

/// Limits and behaviour switches of the engine.
#[derive(Debug, Copy, Clone, PartialEq, Eq, Structural)]
pub struct StoreOptions {
    /// Rotation threshold of the active segment, in bytes.
    pub max_log_file_size: u64,
    /// Whether every mutation is synced to storage before returning.
    pub sync: bool,
    /// Bound on key length, in bytes.
    pub max_key_size: u64,
    /// Bound on value length, in bytes.
    pub max_value_size: u64,
}

/// The default options: 100 MiB rotation threshold, no sync on every
/// write, and the default key and value bounds.
pub open spec fn spec_default_options() -> StoreOptions {
    StoreOptions {
        max_log_file_size: DEFAULT_MAX_DATA_FILE_SIZE,
        sync: false,
        max_key_size: DEFAULT_MAX_KEY_SIZE,
        max_value_size: DEFAULT_MAX_VALUE_SIZE,
    }
}

impl Default for StoreOptions {
    /// 100 MiB rotation threshold, no sync on every write, and the
    /// default key and value bounds.
    fn default() -> (r: StoreOptions)
        ensures
            r == spec_default_options(),
    {
        StoreOptions {
            max_log_file_size: DEFAULT_MAX_DATA_FILE_SIZE,
            sync: false,
            max_key_size: DEFAULT_MAX_KEY_SIZE,
            max_value_size: DEFAULT_MAX_VALUE_SIZE,
        }
    }
}

/// Builder over `StoreOptions`.
#[derive(Debug)]
pub struct OpenOptions(pub StoreOptions);

impl OpenOptions {
    /// Starts from the default options.
    pub fn new() -> (r: OpenOptions)
        ensures
            r.0 == spec_default_options(),
    {
        OpenOptions(StoreOptions::default())
    }

    /// Sets the rotation threshold in bytes.
    pub fn max_log_file_size(self, value: u64) -> (r: OpenOptions)
        ensures
            r.0 == (StoreOptions { max_log_file_size: value, ..self.0 }),
    {
        OpenOptions(StoreOptions { max_log_file_size: value, ..self.0 })
    }

    /// Sets whether every mutation syncs before returning.
    pub fn sync(self, value: bool) -> (r: OpenOptions)
        ensures
            r.0 == (StoreOptions { sync: value, ..self.0 }),
    {
        OpenOptions(StoreOptions { sync: value, ..self.0 })
    }

    /// Sets the bound on value length.
    pub fn max_value_size(self, value: u64) -> (r: OpenOptions)
        ensures
            r.0 == (StoreOptions { max_value_size: value, ..self.0 }),
    {
        OpenOptions(StoreOptions { max_value_size: value, ..self.0 })
    }

    /// Sets the bound on key length.
    pub fn max_key_size(self, value: u64) -> (r: OpenOptions)
        ensures
            r.0 == (StoreOptions { max_key_size: value, ..self.0 }),
    {
        OpenOptions(StoreOptions { max_key_size: value, ..self.0 })
    }

    /// The options built so far.
    pub fn options(&self) -> (r: StoreOptions)
        ensures
            r == self.0,
    {
        self.0
    }

    /// Opens a directory model with these options.
    pub fn open(&self, files: Vec<SegmentFile>, lock_acquired: bool) -> (r: Result<
        DiskStorage,
        StoreError,
    >)
        requires
            crate::storage::ids_ascending(crate::storage::seg_views(files@)),
            forall|i: int| 0 <= i < files@.len() ==> (#[trigger] files@[i]).id < u64::MAX,
        ensures
            !lock_acquired <==> r matches Err(StoreError::AlreadyLocked),
            lock_acquired ==> (r matches Err(StoreError::DeserializeError) <==> crate::storage::spec_replay(
                crate::storage::seg_views(files@),
            ) is None),
            lock_acquired ==> (crate::storage::spec_replay(crate::storage::seg_views(files@)) matches Some(m)
                ==> ({
                &&& r matches Ok(st)
                &&& crate::storage::open_result(st@, crate::storage::seg_views(files@), m, self.0)
                &&& st.wf()
            })),
    {
        DiskStorage::open_with_options(files, lock_acquired, self.0)
    }
}

} // verus!

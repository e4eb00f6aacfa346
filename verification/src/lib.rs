//! A log-structured, embeddable key/value storage engine in the Bitcask
//! style: keys and values are opaque byte strings, every mutation is an
//! append to a segment log, and an in-memory key directory locates the
//! live record for each key.

pub mod bytes;
mod clock;
pub mod error;
pub mod format;
pub mod keydir;
pub mod options;
pub mod path;
pub mod settings;
pub mod storage;

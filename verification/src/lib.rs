//! A verified core for a local file-synchronization engine.
//!
//! The library models a directory tree as a finite map from normalized
//! relative paths to entries (file, directory, symlink), and proves the
//! engine's planning and ordering logic: which paths are copied, compared
//! or deleted, and in what order deletions must happen so that a directory
//! is never removed while something inside it still exists.
//!
//! The I/O shell around the library performs the actual filesystem calls;
//! everything it decides — flag decoding, work classification, deletion
//! order, and the effect a run has on the destination tree — is stated and
//! proved here.

pub mod deleter;
pub mod engine;
pub mod flags;
pub mod path;
pub mod sets;
pub mod tree;

pub use flags::{contains_flag, make_flags, Flag, ParseResult};

//! Watching filesystem paths for redirecting ancestors.
//!
//! The crate resolves every redirecting link (symbolic link or mount point)
//! along the ancestry of a set of watched paths, decodes the raw reparse and
//! directory-change buffers the platform delivers, and drives a single
//! consumer event loop that keeps a set of directory watches exactly in step
//! with the currently resolved paths.

pub mod monitor;
pub mod msg_string;
pub mod records;
pub mod resolve;
pub mod stripped;
pub mod reparse;
pub mod wide;

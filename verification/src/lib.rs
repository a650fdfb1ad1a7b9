//! Directory listing engine: classification of directory entries, the
//! visibility filter, the ordering used by the tree view and the walk that
//! turns a directory hierarchy into indented lines.
//!
//! The library never touches the filesystem. A caller reads directories and
//! metadata and hands over plain values ([`entry::RawEntry`]); everything
//! that decides what is shown, in which order and how, is decided here.

pub mod entry;
pub mod hierarchy;
pub mod listing;
pub mod mode;
pub mod order;
pub mod paint;
pub mod text;
pub mod tree;
pub mod walk;

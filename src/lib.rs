//! A bookmark store: a tombstoning log of entries, a dense index of public
//! bookmark IDs, and a tag index, with a line-based text format.

pub mod text;
pub mod bookmark;
pub mod entry;
pub mod tag_index;
pub mod store;
pub mod refs;
pub mod command;

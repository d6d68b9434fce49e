//! A lossless, mutation-aware document model for an indentation-sensitive,
//! YAML-like configuration language.
//!
//! A document is held as a tree of raw nodes together with the layout
//! fragments (indentation, separators, quote styles) that were found around
//! them, so that rendering the tree reproduces every byte that was not
//! deliberately changed.  Reading goes through typed views, editing through
//! in-place table and list operations that derive layout for new entries from
//! the entries already present.

pub mod ext;
pub mod iter;
pub mod laws;
pub mod raw;
pub mod strings;
pub mod value;

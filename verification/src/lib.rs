//! Tagging of files by directories of symbolic links.
//!
//! A tag is a directory below a tags root; an item carries a tag when the
//! tag's directory holds a symbolic link whose relative target leads back to
//! the item. This crate keeps the in-memory index of items, tags and their
//! membership, computes link targets, and decides what a toggle of a tag over
//! a selection has to do on disk.

pub mod create;
pub mod index;
pub mod path;
pub mod scan;
pub mod select;
pub mod store;
pub mod toggle;

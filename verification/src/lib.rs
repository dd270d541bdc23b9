//! Core of a local image-tagging tool.
//!
//! The library builds an index of image files, loads and stores the set of
//! checked tags for each image through one of three storage strategies
//! (line-delimited text files, JSON annotation documents with a boolean flag
//! per label, or rows of a small SQL table), filters the index by an
//! include/exclude tag selection, and aggregates tag-combination statistics.
//!
//! All file, database and HTTP handling lives outside this crate; the library
//! works on plain values (file names, file contents, label/flag pairs, row
//! data) and states its behaviour in contracts.

pub mod index;
pub mod item;
pub mod laws;
pub mod query;
pub mod sqldb;
pub mod stats;
pub mod strutil;

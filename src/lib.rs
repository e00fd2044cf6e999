//! A sector-aligned archive format: a table of fixed-size file records
//! followed by the files' contents, each padded to whole 2048-byte sectors.

pub mod archive;
pub mod bytes;
pub mod entry;
pub mod error;

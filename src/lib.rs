//! Line-oriented random access over a byte stream.
//!
//! A sparse index records the byte offset of every `granularity`-th line, so a
//! seek by line number goes to the nearest recorded boundary and then scans
//! forward fewer than `granularity` lines.
pub mod index;
pub mod laws;
pub mod lines;
pub mod reader;

pub use index::LinesIndex;
pub use reader::{IndexedLineReader, LineSeek, SeekError};

//! The chunk document: its data model, its escaping codec, its parser and
//! its writer.

pub mod escaping;
pub mod grouping;
pub mod lookup;
pub mod merging;
pub mod parse;
pub mod serialize;
pub mod sorting;
pub mod types;

pub use parse::{parse_format, FormatError, ParseFailure, Span};
pub use types::{Chunk, ChunkRef, ChunkView, Format};

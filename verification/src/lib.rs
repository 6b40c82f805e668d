//! Line-range edits to text files, written down as chunks, and the search
//! that finds the lines to edit.
//!
//! A chunk names a file, a range of its lines and the text that replaces
//! them. A document of chunks is read by `format::parse`, written by
//! `format::serialize`, coalesced by `format::merging` and applied to the
//! content of files by `apply`. A search over files hands its matches on as
//! such a document.
//!
//! Texts are `String`s; what the contracts say of a text, they say of its
//! bytes. Every function has a contract, and Verus proves it. Two calls
//! leave the crate and are taken on trust: the multi-pattern scan of the
//! escaping codec, and the making of a `String` from bytes.
//!
//! The apply engine and the search work on a file system, a matcher and a
//! walker that the caller brings. Each says what it holds or reports, and
//! the contracts of the engine and the search are stated over that. The
//! doubles of this crate are proved to answer as they say; of what a
//! caller brings, the caller answers.

pub mod apply;
pub mod context;
pub mod execute;
pub mod filesystem;
pub mod format;
pub mod ingest;
pub mod matcher;
pub mod searcher;
pub mod text;
pub mod types;
pub mod walker;

pub use apply::{apply_format, apply_format_to_fs, ApplyError};
pub use execute::{ExecuteConfig, ExecuteError};
pub use format::{Chunk, ChunkRef, Format, FormatError};
pub use types::{ContextLine, MatchResult, SearchResult};

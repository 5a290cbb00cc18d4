//! Append-only archives of JSON documents: a header line holding an initial
//! state followed by one event per line (`observe`, `add`, `change`,
//! `remove`, `move`, `snapshot`). The crate diffs two document values into an
//! event script, addresses subtrees by JSON-pointer paths, encodes and
//! decodes events while collecting diagnostics instead of failing hard, and
//! replays a log to reconstruct the document at any recorded observation.

pub mod archive;
pub mod codec;
pub mod detection;
pub mod diagnostics;
pub mod diff;
pub mod events;
pub mod index;
pub mod outside;
pub mod pointer;
pub mod reader;
pub mod value;

pub use archive::{default_output_filename, should_write_snapshot, truncate_id};
pub use detection::{detect_compression_format, is_json_archive, CompressionFormat};
pub use diagnostics::{Diagnostic, DiagnosticCode, DiagnosticCollector, DiagnosticLevel};
pub use diff::diff;
pub use events::{Event, Header, Observation};
pub use index::{resolve_access_method, AccessMethod, IndexEntry, ObservationIndex};
pub use pointer::JsonPointer;
pub use reader::{
    apply_add, apply_change, apply_move, apply_remove, ArchiveReader, EventIterator, ReadMode,
    ReadResult,
};
pub use value::JsonValue;

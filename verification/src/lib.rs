//! Backend logic of the note index: discovery rules, chunking, the in-memory
//! vector store and the indexing pipeline.

use vstd::prelude::*;

pub mod chunks;
pub mod config;
pub mod index;
pub mod notes;
pub mod ollama;
pub mod store;
pub mod text;
pub mod watcher;

pub use chunks::{chunk_note, chunk_notes, Chunk, DEFAULT_MAX_CHARS};
pub use config::{get_notes_root, set_notes_root, Config, ConfigError};
pub use index::{begin_index, IndexError, IndexStep, PendingIndex};
pub use notes::{scan_listing, strip_frontmatter, Note, ScanError, Seen, WalkEntry};
pub use ollama::{OllamaClient, OllamaError};
pub use store::{IndexedChunk, VectorStore};
pub use watcher::{WatchAction, WatchError};

verus! {

/// The text of the backend's readiness message.
pub open spec fn status_text() -> Seq<char> {
    "noema-core ready"@
}

/// Returns a short status string, used to check that the backend is wired up.
pub fn status() -> (s: &'static str)
    ensures
        s@ == status_text(),
{
    "noema-core ready"
}

} // verus!

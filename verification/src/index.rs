//! The indexing pipeline: scan, chunk, embed, store. The scan and the call
//! to the embedding provider happen outside; what is decided between them
//! happens here.

use crate::chunks::{all_note_chunks, chunk_notes, chunk_views, Chunk, ChunkView, DEFAULT_MAX_CHARS};
use crate::notes::{Note, ScanError};
use crate::ollama::{checked_embeddings, OllamaError, WRONG_EMBEDDING_COUNT};
use crate::store::{embedding_views, paired, IndexedChunkView, VectorStore};
use vstd::prelude::*;

verus! {

/// Why an indexing run failed.
#[derive(Debug)]
pub enum IndexError {
    /// The scan failed.
    Scan(ScanError),
    /// The embedding provider failed.
    Ollama(OllamaError),
}

/// The budget of a run: the one asked for, or the default.
pub open spec fn budget(max_chars: Option<usize>) -> nat {
    match max_chars {
        Some(asked) => asked as nat,
        None => DEFAULT_MAX_CHARS as nat,
    }
}

/// An indexing run that waits for the embeddings of its chunks.
#[derive(Debug)]
pub struct PendingIndex {
    chunks: Vec<Chunk>,
}

impl View for PendingIndex {
    type V = Seq<ChunkView>;

    closed spec fn view(&self) -> Seq<ChunkView> {
        chunk_views(self.chunks@)
    }
}

/// How an indexing run goes on once the notes are chunked.
#[derive(Debug)]
pub enum IndexStep {
    /// There is nothing to embed: the run ends with this store.
    Done(VectorStore),
    /// The chunks need embeddings.
    Embed(PendingIndex),
}

/// Starts an indexing run on the outcome of a scan.
///
/// A failed scan fails the run. Otherwise the notes are chunked under the
/// budget `max_chars`, or the default budget where none is given. Without
/// chunks the run ends at once with an empty store, and the embedding
/// provider is not asked; with chunks, their embeddings are wanted next.
pub fn begin_index(scanned: Result<Vec<Note>, ScanError>, max_chars: Option<usize>) -> (step:
    Result<IndexStep, IndexError>)
    ensures
        match scanned {
            Err(error) => step == Err::<IndexStep, IndexError>(IndexError::Scan(error)),
            Ok(notes) => if all_note_chunks(notes@, budget(max_chars)).len() == 0 {
                step matches Ok(IndexStep::Done(store)) && store@ == Seq::<
                    IndexedChunkView,
                >::empty()
            } else {
                step matches Ok(IndexStep::Embed(pending)) && pending@ == all_note_chunks(
                    notes@,
                    budget(max_chars),
                )
            },
        },
{
    match scanned {
        Err(error) => Err(IndexError::Scan(error)),
        Ok(notes) => {
            let max_chars = match max_chars {
                Some(asked) => asked,
                None => DEFAULT_MAX_CHARS,
            };
            let chunks = chunk_notes(notes.as_slice(), max_chars);
            if chunks.len() == 0 {
                Ok(IndexStep::Done(VectorStore::new()))
            } else {
                Ok(IndexStep::Embed(PendingIndex { chunks }))
            }
        },
    }
}

impl PendingIndex {
    /// The number of chunks that wait.
    pub fn len(&self) -> (count: usize)
        ensures
            count == self@.len(),
    {
        self.chunks.len()
    }

    /// The texts to embed: the text of each chunk, in the order of the
    /// chunks.
    pub fn texts(&self) -> (texts: Vec<String>)
        ensures
            texts@.len() == self@.len(),
            forall|i: int| 0 <= i < texts@.len() ==> (#[trigger] texts@[i])@ == self@[i].text,
    {
        let mut texts: Vec<String> = Vec::new();
        let mut i: usize = 0;
        while i < self.chunks.len()
            invariant
                i <= self.chunks@.len(),
                texts@.len() == i,
                forall|j: int| 0 <= j < i ==> (#[trigger] texts@[j])@ == self.chunks@[j].text@,
            decreases self.chunks@.len() - i,
        {
            texts.push(self.chunks[i].text.clone());
            i += 1;
        }
        texts
    }

    /// Ends the run on what the embedding provider answered.
    ///
    /// A failure of the provider fails the run, and no store is made. So does
    /// an answer that does not bring one embedding for each text. Otherwise
    /// the store holds the chunks, each with its embedding, in the order of
    /// the chunks.
    pub fn complete(self, response: Result<Vec<Vec<u32>>, OllamaError>) -> (outcome: Result<
        VectorStore,
        IndexError,
    >)
        ensures
            match response {
                Err(error) => outcome == Err::<VectorStore, IndexError>(IndexError::Ollama(error)),
                Ok(embeddings) => if embeddings@.len() == self@.len() {
                    outcome matches Ok(store) && store@ == paired(
                        self@,
                        embedding_views(embeddings@),
                    )
                } else {
                    outcome matches Err(IndexError::Ollama(OllamaError::Request(message)))
                        && message@ == WRONG_EMBEDDING_COUNT@
                },
            },
    {
        match checked_embeddings(self.chunks.len(), response) {
            Err(error) => Err(IndexError::Ollama(error)),
            Ok(embeddings) => {
                let mut store = VectorStore::new();
                store.add_batch(self.chunks, embeddings);
                assert(store@ =~= paired(self@, embedding_views(embeddings@)));
                Ok(store)
            },
        }
    }
}

} // verus!

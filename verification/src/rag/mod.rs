//! The knowledge layer: documents are cut into chunks, indexed by their words, and the
//! chunks that fit a question are put before the model.
use vstd::prelude::*;

pub mod chunker;
pub mod html;
pub mod index;
pub mod sources;

verus! {

/// What kind of place a document comes from.
#[derive(Debug, Clone, Copy, PartialEq, Eq, Structural)]
pub enum SourceType {
    CrateDocs,
    LocalDir,
    Url,
    GitRepo,
}

/// A single chunk of indexed content.
#[derive(Debug)]
pub struct Chunk {
    pub id: String,
    pub source_id: String,
    pub source_type: SourceType,
    /// URL, file path or crate name.
    pub source_ref: String,
    pub title: String,
    pub content: String,
    pub indexed_at: u64,
}

/// A chunk with its relevance (higher is more relevant), of the number type `F`.
#[derive(Debug)]
pub struct SearchResult<F> {
    pub chunk: Chunk,
    pub score: F,
}

/// What is known of an indexed source.
#[derive(Debug)]
pub struct IndexedSource {
    pub id: String,
    pub source_type: SourceType,
    pub source_ref: String,
    pub chunk_count: usize,
    pub indexed_at: u64,
    pub last_updated: u64,
}

#[derive(Debug)]
pub struct RagConfig {
    /// Path of the database file.
    pub db_path: String,
    /// Chunk size in characters.
    pub chunk_size: usize,
    /// Overlap between consecutive chunks in characters.
    pub chunk_overlap: usize,
    /// Maximum chunks to return per query.
    pub top_k: usize,
}

impl Default for RagConfig {
    fn default() -> (c: Self)
        ensures
            c.db_path@ == "~/.hyverk/rag.db"@,
            c.chunk_size == 1500,
            c.chunk_overlap == 200,
            c.top_k == 5,
    {
        RagConfig {
            db_path: "~/.hyverk/rag.db".to_owned(),
            chunk_size: 1500,
            chunk_overlap: 200,
            top_k: 5,
        }
    }
}

} // verus!

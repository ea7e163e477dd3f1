//! The records that the indexer and the service pass around.
use vstd::prelude::*;

verus! {

/// A Markdown file of the knowledge base, read into memory.
pub struct MarkdownDocument {
    /// Path below the knowledge root, components joined with `/`.
    pub relative_path: String,
    pub absolute_path: String,
    pub content: String,
}

/// What a document holds, as text.
pub struct DocumentText {
    pub relative_path: Seq<char>,
    pub absolute_path: Seq<char>,
    pub content: Seq<char>,
}

impl View for MarkdownDocument {
    type V = DocumentText;

    open spec fn view(&self) -> DocumentText {
        DocumentText {
            relative_path: self.relative_path@,
            absolute_path: self.absolute_path@,
            content: self.content@,
        }
    }
}

/// A piece of a document, before it is hashed and embedded.
pub struct ChunkDraft {
    pub heading_path: String,
    pub text: String,
}

/// What a chunk draft holds, as text.
pub struct ChunkSpec {
    pub heading_path: Seq<char>,
    pub text: Seq<char>,
}

impl View for ChunkDraft {
    type V = ChunkSpec;

    open spec fn view(&self) -> ChunkSpec {
        ChunkSpec { heading_path: self.heading_path@, text: self.text@ }
    }
}

/// The views of a sequence of chunk drafts.
pub open spec fn drafts_view(v: Seq<ChunkDraft>) -> Seq<ChunkSpec> {
    Seq::new(v.len(), |i: int| v[i]@)
}

/// What the index remembers of a document.
pub struct DocumentManifest {
    pub file_hash: String,
    pub embedding_fingerprint: String,
}

/// What a manifest holds, as text: the file hash and the embedding fingerprint.
impl View for DocumentManifest {
    type V = (Seq<char>, Seq<char>);

    open spec fn view(&self) -> (Seq<char>, Seq<char>) {
        (self.file_hash@, self.embedding_fingerprint@)
    }
}

/// A document as the service hands it back.
pub struct DocumentResponse {
    pub path: String,
    pub content: String,
}

/// The outcome of a reindex run.
pub struct IndexStats {
    pub scanned_docs: usize,
    pub updated_docs: usize,
    pub skipped_docs: usize,
    pub deleted_docs: usize,
    pub total_chunks: usize,
}

} // verus!

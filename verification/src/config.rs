//! Settings of a knowledge base.
use vstd::prelude::*;

verus! {

/// Where the knowledge base lives and how it is indexed.
pub struct AppConfig {
    pub knowledge_root: String,
    pub state_dir: String,
    pub database_path: String,
    pub embedding_backend: String,
    pub fastembed_model: String,
    pub embedding_cache_dir: String,
    pub hashing_dimensions: usize,
    pub chunk_char_limit: usize,
    pub search_limit: usize,
    pub exclude_hidden: bool,
    pub exclude_obsidian_dir: bool,
}

} // verus!

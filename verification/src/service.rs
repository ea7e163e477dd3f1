//! The knowledge service: indexing, and reading documents by relative path
//! without leaving the knowledge root.
use vstd::prelude::*;

use crate::config::AppConfig;
use crate::db::IndexDatabase;
use crate::indexer::{chunkable, docs_view, manifests_view, spec_plan, IndexPlan, Indexer};
use crate::model::{DocumentManifest, DocumentResponse, MarkdownDocument};
use crate::search::{is_ranking, rank_hits};
use crate::text::chars_of;
use crate::paths::{
    has_parent_component, has_parent_dir, is_absolute, join_path, join_relative,
    path_starts_with, strip_components,
};

verus! {

/// Why a requested path was refused.
pub enum PathError {
    /// The path is absolute.
    Absolute,
    /// The path climbs to a parent directory.
    ParentTraversal,
    /// The resolved path lies outside the knowledge root.
    EscapesRoot,
}

impl PathError {
    pub fn message(&self) -> (r: &'static str)
        ensures
            self is Absolute ==> r@ == "path must be relative to knowledge_root"@,
            self is ParentTraversal ==> r@ == "path must not contain parent traversal"@,
            self is EscapesRoot ==> r@ == "path escapes knowledge_root"@,
    {
        match self {
            PathError::Absolute => "path must be relative to knowledge_root",
            PathError::ParentTraversal => "path must not contain parent traversal",
            PathError::EscapesRoot => "path escapes knowledge_root",
        }
    }
}

/// A knowledge base with its index.
pub struct KnowledgeService {
    pub config: AppConfig,
    pub db: IndexDatabase,
}

impl KnowledgeService {
    /// The service of `config`, with the index at its database path.
    pub fn new(config: AppConfig) -> (r: Self)
        ensures
            r.config == config,
            r.db.path_view() == config.database_path@,
    {
        let db = IndexDatabase::new(config.database_path.as_str());
        KnowledgeService { config, db }
    }

    /// Plans a reindex of the knowledge base, as `Indexer::reindex_all` does.
    pub fn reindex_all(
        &self,
        documents: &Vec<MarkdownDocument>,
        known_manifests: &Vec<(String, DocumentManifest)>,
        embedding_fingerprint: &String,
    ) -> (r: IndexPlan)
        requires
            chunkable(
                docs_view(documents@),
                manifests_view(known_manifests@),
                embedding_fingerprint@,
                self.config.chunk_char_limit as nat,
            ),
        ensures
            r@ == spec_plan(
                docs_view(documents@),
                manifests_view(known_manifests@),
                embedding_fingerprint@,
                self.config.chunk_char_limit as nat,
            ),
    {
        Indexer::new(&self.config).reindex_all(documents, known_manifests, embedding_fingerprint)
    }

    /// The path of `relative_path` under the knowledge root, refused when it
    /// is absolute or climbs to a parent directory.
    pub fn resolve_relative_path(&self, relative_path: &str) -> (r: Result<String, PathError>)
        ensures
            is_absolute(relative_path@) <==> r matches Err(PathError::Absolute),
            !is_absolute(relative_path@) && has_parent_dir(relative_path@) <==> r matches Err(
                PathError::ParentTraversal,
            ),
            r matches Ok(p) ==> p@ == join_path(self.config.knowledge_root@, relative_path@),
            r is Ok || r matches Err(PathError::Absolute) || r matches Err(
                PathError::ParentTraversal,
            ),
    {
        let chars = chars_of(relative_path);
        if chars.len() > 0 && chars[0] == '/' {
            return Err(PathError::Absolute);
        }
        if has_parent_component(relative_path) {
            return Err(PathError::ParentTraversal);
        }
        Ok(join_relative(self.config.knowledge_root.as_str(), relative_path))
    }

    /// Accepts a canonical path only if it lies at or below the canonical
    /// knowledge root.
    pub fn confirm_within_root(canonical: &str, canonical_root: &str) -> (r: Result<(), PathError>)
        ensures
            r is Ok <==> strip_components(canonical@, canonical_root@) is Some,
            r is Err ==> r matches Err(PathError::EscapesRoot),
    {
        if path_starts_with(canonical, canonical_root) {
            Ok(())
        } else {
            Err(PathError::EscapesRoot)
        }
    }

    /// The number of hits a search returns: `limit`, or the configured
    /// default.
    pub fn search_limit(&self, limit: Option<usize>) -> (r: usize)
        ensures
            r == match limit {
                Some(l) => l,
                None => self.config.search_limit,
            },
    {
        match limit {
            Some(l) => l,
            None => self.config.search_limit,
        }
    }

    /// The positions of the hits a search returns, best first, given the bit
    /// patterns of the scores of all chunks in index order.
    pub fn rank(&self, score_bits: &Vec<u32>, limit: Option<usize>) -> (r: Vec<usize>)
        ensures
            is_ranking(
                score_bits@,
                match limit {
                    Some(l) => l as nat,
                    None => self.config.search_limit as nat,
                },
                r@,
            ),
    {
        let n = self.search_limit(limit);
        rank_hits(score_bits, n)
    }

    /// The answer to a read of `relative_path` whose content is `content`.
    pub fn read_document(relative_path: &str, content: String) -> (r: DocumentResponse)
        ensures
            r.path@ == relative_path@,
            r.content == content,
    {
        DocumentResponse { path: relative_path.to_owned(), content }
    }
}

} // verus!

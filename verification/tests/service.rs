use llm_wiki::config::AppConfig;
use llm_wiki::db::{needs_fingerprint_column, IndexDatabase};
use llm_wiki::indexer::Indexer;
use llm_wiki::mcp::WikiMcpServer;
use llm_wiki::model::MarkdownDocument;
use llm_wiki::service::{KnowledgeService, PathError};

fn config() -> AppConfig {
    AppConfig {
        knowledge_root: "/kb".to_string(),
        state_dir: "/kb/state".to_string(),
        database_path: "/kb/state/index.sqlite3".to_string(),
        embedding_backend: "hashing".to_string(),
        fastembed_model: "MultilingualE5Small".to_string(),
        embedding_cache_dir: "/kb/state/fastembed".to_string(),
        hashing_dimensions: 128,
        chunk_char_limit: 120,
        search_limit: 8,
        exclude_hidden: true,
        exclude_obsidian_dir: true,
    }
}

#[test]
fn relative_paths_resolve_under_the_root() {
    let s = KnowledgeService::new(config());
    assert_eq!(s.resolve_relative_path("notes/a.md").ok(), Some("/kb/notes/a.md".to_string()));
    assert!(matches!(s.resolve_relative_path("/etc/passwd"), Err(PathError::Absolute)));
    assert!(matches!(s.resolve_relative_path("a/../../b"), Err(PathError::ParentTraversal)));
    assert!(matches!(s.resolve_relative_path(".."), Err(PathError::ParentTraversal)));
    assert_eq!(PathError::Absolute.message(), "path must be relative to knowledge_root");
    assert_eq!(PathError::ParentTraversal.message(), "path must not contain parent traversal");
}

#[test]
fn canonical_paths_must_stay_in_the_root() {
    assert!(KnowledgeService::confirm_within_root("/kb/a.md", "/kb").is_ok());
    assert!(KnowledgeService::confirm_within_root("/kb", "/kb").is_ok());
    assert!(matches!(KnowledgeService::confirm_within_root("/kbx/a.md", "/kb"), Err(PathError::EscapesRoot)));
    assert!(matches!(KnowledgeService::confirm_within_root("/etc/a.md", "/kb"), Err(PathError::EscapesRoot)));
    assert_eq!(PathError::EscapesRoot.message(), "path escapes knowledge_root");
}

#[test]
fn search_limit_defaults_to_config() {
    let s = KnowledgeService::new(config());
    assert_eq!(s.search_limit(None), 8);
    assert_eq!(s.search_limit(Some(3)), 3);
    let bits: Vec<u32> = [0.1f32, 0.9, 0.5].iter().map(|x| x.to_bits()).collect();
    assert_eq!(s.rank(&bits, Some(2)), vec![1, 2]);
    assert_eq!(s.rank(&bits, None), vec![1, 2, 0]);
}

#[test]
fn service_parts_are_wired() {
    let s = KnowledgeService::new(config());
    assert_eq!(s.db.db_path(), "/kb/state/index.sqlite3");
    assert_eq!(IndexDatabase::new("x.sqlite3").db_path(), "x.sqlite3");
    let docs = vec![MarkdownDocument {
        relative_path: "a.md".to_string(),
        absolute_path: "/kb/a.md".to_string(),
        content: "hello".to_string(),
    }];
    let plan = s.reindex_all(&docs, &Vec::new(), &"fp".to_string());
    let direct = Indexer::new(&s.config).reindex_all(&docs, &Vec::new(), &"fp".to_string());
    assert_eq!(plan.updates.len(), direct.updates.len());
    assert_eq!(plan.updates[0].chunks[0].chunk_id, direct.updates[0].chunks[0].chunk_id);
    let server = WikiMcpServer::new(s);
    assert_eq!(server.service.config.search_limit, 8);
    let r = KnowledgeService::read_document("a.md", "body".to_string());
    assert_eq!(r.path, "a.md");
    assert_eq!(r.content, "body");
}

#[test]
fn fingerprint_column_upgrade() {
    let cols: Vec<String> = ["doc_path", "file_hash", "indexed_at"].iter().map(|s| s.to_string()).collect();
    assert!(needs_fingerprint_column(&cols));
    let mut cols2 = cols.clone();
    cols2.push("embedding_fingerprint".to_string());
    assert!(!needs_fingerprint_column(&cols2));
}

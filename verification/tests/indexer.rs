use llm_wiki::config::AppConfig;
use llm_wiki::hash::sha256_hex;
use llm_wiki::indexer::{IndexPlan, Indexer};
use llm_wiki::markdown::chunk_document;
use llm_wiki::model::{DocumentManifest, MarkdownDocument};

fn config(limit: usize) -> AppConfig {
    AppConfig {
        knowledge_root: "/kb".to_string(),
        state_dir: "/kb/state".to_string(),
        database_path: "/kb/state/index.sqlite3".to_string(),
        embedding_backend: "hashing".to_string(),
        fastembed_model: "MultilingualE5Small".to_string(),
        embedding_cache_dir: "/kb/state/fastembed".to_string(),
        hashing_dimensions: 128,
        chunk_char_limit: limit,
        search_limit: 8,
        exclude_hidden: true,
        exclude_obsidian_dir: true,
    }
}

fn doc(path: &str, content: &str) -> MarkdownDocument {
    MarkdownDocument {
        relative_path: path.to_string(),
        absolute_path: format!("/kb/{}", path),
        content: content.to_string(),
    }
}

/// The manifests after a plan is written, as the index keeps them.
fn write(manifests: &[(String, DocumentManifest)], plan: &IndexPlan, fp: &str) -> Vec<(String, DocumentManifest)> {
    let mut out: Vec<(String, DocumentManifest)> = manifests
        .iter()
        .filter(|(p, _)| !plan.deleted_paths.contains(p))
        .map(|(p, m)| {
            (p.clone(), DocumentManifest { file_hash: m.file_hash.clone(), embedding_fingerprint: m.embedding_fingerprint.clone() })
        })
        .collect();
    for u in &plan.updates {
        out.retain(|(p, _)| p != &u.doc_path);
        out.push((
            u.doc_path.clone(),
            DocumentManifest { file_hash: u.file_hash.clone(), embedding_fingerprint: fp.to_string() },
        ));
    }
    out
}

#[test]
fn reindex_plan_skips_unchanged_documents_on_second_run() {
    let cfg = config(256);
    let indexer = Indexer::new(&cfg);
    let docs = vec![doc("note.md", "# Note\n\nwatch mode should reuse incremental indexing\n")];
    let fp = "hashing:64".to_string();
    let first = indexer.reindex_all(&docs, &Vec::new(), &fp);
    let stats = first.stats(0, 1);
    assert_eq!(stats.scanned_docs, 1);
    assert_eq!(stats.updated_docs, 1);
    assert_eq!(stats.skipped_docs, 0);

    let manifests = write(&[], &first, &fp);
    let second = indexer.reindex_all(&docs, &manifests, &fp);
    let stats = second.stats(0, 1);
    assert_eq!(stats.scanned_docs, 1);
    assert_eq!(stats.updated_docs, 0);
    assert_eq!(stats.skipped_docs, 1);
    assert!(second.deleted_paths.is_empty());
}

#[test]
fn changed_content_or_fingerprint_is_rewritten() {
    let cfg = config(256);
    let indexer = Indexer::new(&cfg);
    let fp = "fp".to_string();
    let docs = vec![doc("a.md", "alpha"), doc("b.md", "beta")];
    let first = indexer.reindex_all(&docs, &Vec::new(), &fp);
    let manifests = write(&[], &first, &fp);

    let changed = vec![doc("a.md", "alpha!"), doc("b.md", "beta")];
    let plan = indexer.reindex_all(&changed, &manifests, &fp);
    assert_eq!(plan.skipped_docs, 1);
    assert_eq!(plan.updates.len(), 1);
    assert_eq!(plan.updates[0].doc_path, "a.md");
    assert_eq!(plan.updates[0].file_hash, sha256_hex("alpha!".as_bytes()));

    let plan = indexer.reindex_all(&docs, &manifests, &"other".to_string());
    assert_eq!(plan.skipped_docs, 0);
    assert_eq!(plan.updates.len(), 2);
}

#[test]
fn vanished_documents_are_dropped() {
    let cfg = config(256);
    let indexer = Indexer::new(&cfg);
    let fp = "fp".to_string();
    let manifests = vec![
        ("gone.md".to_string(), DocumentManifest { file_hash: "x".to_string(), embedding_fingerprint: "fp".to_string() }),
        ("kept.md".to_string(), DocumentManifest { file_hash: "y".to_string(), embedding_fingerprint: "fp".to_string() }),
    ];
    let plan = indexer.reindex_all(&vec![doc("kept.md", "k")], &manifests, &fp);
    assert_eq!(plan.deleted_paths, vec!["gone.md".to_string()]);
    assert_eq!(plan.scanned_docs, 1);
    assert_eq!(plan.updates.len(), 1);
    let stats = plan.stats(1, 3);
    assert_eq!(stats.deleted_docs, 1);
    assert_eq!(stats.total_chunks, 3);
}

#[test]
fn chunk_rows_hash_their_text_and_position() {
    let cfg = config(12);
    let indexer = Indexer::new(&cfg);
    let d = doc("r.md", "# H\nline1\n\nline2");
    let plan = indexer.reindex_all(&vec![doc("r.md", "# H\nline1\n\nline2")], &Vec::new(), &"fp".to_string());
    let drafts = chunk_document(&d, 12);
    let rows = &plan.updates[0].chunks;
    assert_eq!(rows.len(), drafts.len());
    assert_eq!(plan.updates[0].file_hash, sha256_hex(d.content.as_bytes()));
    for (ordinal, (row, draft)) in rows.iter().zip(drafts.iter()).enumerate() {
        let chunk_hash = sha256_hex(draft.text.as_bytes());
        assert_eq!(row.ordinal, ordinal);
        assert_eq!(row.doc_path, "r.md");
        assert_eq!(row.text, draft.text);
        assert_eq!(row.heading_path, draft.heading_path);
        assert_eq!(row.chunk_hash, chunk_hash);
        let id = sha256_hex(format!("{}:{}:{}:{}", "r.md", ordinal, draft.heading_path, chunk_hash).as_bytes());
        assert_eq!(row.chunk_id, id);
    }
}

#[test]
fn zero_limit_is_checked_before_chunking() {
    let cfg = config(0);
    let indexer = Indexer::new(&cfg);
    let fp = "fp".to_string();
    let with_text = vec![doc("t.md", "# T\nsome text")];
    assert!(!indexer.inputs_chunkable(&with_text, &Vec::new(), &fp));
    assert!(indexer.checked_reindex_all(&with_text, &Vec::new(), &fp).is_none());
    let headings_only = vec![doc("h.md", "# T\n\n## U\n")];
    assert!(indexer.inputs_chunkable(&headings_only, &Vec::new(), &fp));
    let plan = indexer.checked_reindex_all(&headings_only, &Vec::new(), &fp).unwrap();
    assert_eq!(plan.updates.len(), 1);
    assert_eq!(plan.updates[0].chunks.len(), 1);
    assert_eq!(plan.updates[0].chunks[0].text, "Path: h.md\n\n# T\n\n## U");
    let cfg = config(10);
    assert!(Indexer::new(&cfg).inputs_chunkable(&with_text, &Vec::new(), &fp));
}

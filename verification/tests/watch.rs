use llm_wiki::config::AppConfig;
use llm_wiki::model::IndexStats;
use llm_wiki::service::KnowledgeService;
use llm_wiki::watch::{report_tick, run, run_one_tick, TickOutcome, WatchAction, WatchMode, WatchOptions};

fn service() -> KnowledgeService {
    KnowledgeService::new(AppConfig {
        knowledge_root: "/kb".to_string(),
        state_dir: "/kb/state".to_string(),
        database_path: "/kb/state/index.sqlite3".to_string(),
        embedding_backend: "hashing".to_string(),
        fastembed_model: "AllMiniLML6V2".to_string(),
        embedding_cache_dir: "/kb/model-cache".to_string(),
        hashing_dimensions: 64,
        chunk_char_limit: 256,
        search_limit: 8,
        exclude_hidden: true,
        exclude_obsidian_dir: true,
    })
}

fn stats() -> IndexStats {
    IndexStats { scanned_docs: 3, updated_docs: 1, skipped_docs: 2, deleted_docs: 0, total_chunks: 17 }
}

#[test]
fn zero_interval_is_refused() {
    let r = run(service(), WatchOptions { mode: WatchMode::Poll, interval_secs: 0, run_on_startup: true });
    match r {
        Err(e) => assert_eq!(e.message(), "watch interval_secs must be greater than zero"),
        Ok(_) => panic!("zero interval accepted"),
    }
}

#[test]
fn poll_schedule_alternates() {
    let l = run(service(), WatchOptions { mode: WatchMode::Poll, interval_secs: 5, run_on_startup: true })
        .ok()
        .unwrap();
    assert_eq!(l.first_action(), WatchAction::Tick);
    assert_eq!(l.next_action(WatchAction::Tick), WatchAction::Sleep(5));
    assert_eq!(l.next_action(WatchAction::Sleep(5)), WatchAction::Tick);
    let l = run(service(), WatchOptions { mode: WatchMode::Poll, interval_secs: 7, run_on_startup: false })
        .ok()
        .unwrap();
    assert_eq!(l.first_action(), WatchAction::Sleep(7));
}

#[test]
fn tick_outcomes_and_reports() {
    assert!(matches!(run_one_tick(None), TickOutcome::BusySkipped));
    let r = report_tick(Ok(run_one_tick(Some(stats()))));
    assert_eq!(
        r.line,
        "watch tick indexed scanned_docs=3 updated_docs=1 skipped_docs=2 deleted_docs=0 total_chunks=17"
    );
    assert!(!r.to_stderr);
    let r = report_tick(Ok(TickOutcome::BusySkipped));
    assert_eq!(r.line, "watch tick skipped reason=busy");
    assert!(!r.to_stderr);
    let r = report_tick(Err("disk full".to_string()));
    assert_eq!(r.line, "watch tick failed error=disk full");
    assert!(r.to_stderr);
}

use llm_wiki::state::watcher_tick;
use llm_wiki::zotero::ZoteroStatus;
use llm_wiki::AppState;

#[test]
fn app_state_stores_content_root() {
    let state = AppState::default();
    *state.content_root.lock().unwrap() = Some("/data/content".into());
    let got = state.content_root.lock().unwrap().clone();
    assert_eq!(got.as_deref(), Some("/data/content"));
}

#[test]
fn watcher_checks_queue_only_on_reconnect() {
    let t = watcher_tick(false, true, Some("/data/content"));
    assert!(matches!(t.status, ZoteroStatus::Connected));
    assert_eq!(t.check_queue.as_deref(), Some("/data/content/meta/pending-zotero-sync.json"));
    let t = watcher_tick(true, true, Some("/data/content"));
    assert!(t.check_queue.is_none());
    let t = watcher_tick(true, false, Some("/data/content"));
    assert!(matches!(t.status, ZoteroStatus::Disconnected));
    assert!(t.check_queue.is_none());
    let t = watcher_tick(false, true, None);
    assert!(t.check_queue.is_none());
}

use llm_wiki::pending_sync::{
    doi_lookup_error, extract_title_from_frontmatter, key_resolution, no_title_error, sync_precheck, ItemEvent, ItemOutcome,
    KeyResolution, PendingSyncItem, PendingSyncQueue, SyncRun,
};

fn make_item(key: &str, paper_file: &str) -> PendingSyncItem {
    PendingSyncItem {
        paper_file: paper_file.to_string(),
        zotero_item_key: key.to_string(),
        target_collection: "nlp".to_string(),
        queued_at: "2026-01-01T00:00:00Z".to_string(),
    }
}

#[test]
fn test_enqueue_and_load() {
    let mut q = PendingSyncQueue::empty();
    q.enqueue("paper1.md".into(), "AAAA0001".into(), "large-language-models".into());
    q.enqueue("paper2.md".into(), "BBBB0002".into(), "computer-vision".into());
    assert_eq!(q.items.len(), 2, "Queue should contain 2 items");
}

#[test]
fn test_remove_from_queue() {
    let mut q = PendingSyncQueue::empty();
    q.enqueue("paper1.md".into(), "AAAA0001".into(), "llm".into());
    q.enqueue("paper2.md".into(), "BBBB0002".into(), "cv".into());
    q.remove_key("AAAA0001");
    assert_eq!(q.items.len(), 1, "Queue should contain 1 item after removal");
    assert_eq!(q.items[0].zotero_item_key, "BBBB0002");
}

#[test]
fn test_has_pending_false_when_empty() {
    let q = PendingSyncQueue::empty();
    assert!(!q.has_pending(), "Empty queue must report has_pending = false");
}

#[test]
fn test_enqueue_same_key_is_idempotent() {
    let mut q = PendingSyncQueue::empty();
    assert!(q.enqueue("paper.md".into(), "KEY123".into(), "nlp".into()));
    assert!(!q.enqueue("paper.md".into(), "KEY123".into(), "nlp".into()));
    assert_eq!(q.items.len(), 1);
}

#[test]
fn test_has_pending_true_after_enqueue() {
    let mut q = PendingSyncQueue::empty();
    q.enqueue("paper.md".into(), "CCCC0003".into(), "rl".into());
    assert!(q.has_pending(), "Queue with one item must report has_pending = true");
}

#[test]
fn test_remove_from_queue_missing_key_is_noop() {
    let mut q = PendingSyncQueue::empty();
    q.enqueue("paper.md".into(), "KEY1".into(), "nlp".into());
    q.remove_key("MISSING");
    assert_eq!(q.items.len(), 1);
}

#[test]
fn extract_title_parses_yaml_frontmatter() {
    let md = "---\ntitle: My Paper Title\nabstract: Some abstract.\n---\nBody";
    assert_eq!(extract_title_from_frontmatter(md).as_deref(), Some("My Paper Title"));
}

#[test]
fn extract_title_returns_none_without_frontmatter() {
    assert_eq!(extract_title_from_frontmatter("Plain body only."), None);
}

#[test]
fn extract_title_returns_none_when_title_absent() {
    let md = "---\nabstract: Something.\n---\n";
    assert_eq!(extract_title_from_frontmatter(md), None);
}

#[test]
fn key_resolution_forms() {
    assert!(matches!(key_resolution("ABCD1234"), KeyResolution::Ready(k) if k == "ABCD1234"));
    assert!(matches!(key_resolution("abcd1234"), KeyResolution::PassThrough(k) if k == "abcd1234"));
    assert!(matches!(key_resolution("doi:10.1234/test"), KeyResolution::ByDoi(d) if d == "10.1234/test"));
    assert!(matches!(key_resolution("file:phantom.md"), KeyResolution::ByTitle));
    assert!(no_title_error("file:phantom.md").contains("no parseable title"));
    assert!(doi_lookup_error("10.1234/test", "Zotero unreachable").contains("10.1234/test"));
}

#[test]
fn sync_run_keeps_failed_items() {
    let items = vec![make_item("AAAA0001", "a.md"), make_item("BBBB0002", "b.md"), make_item("CCCC0003", "c.md")];
    let mut run = SyncRun::new(items);
    assert_eq!(run.next_index(), Some(0));
    let ev = run.record(ItemOutcome::Synced);
    assert!(matches!(ev, ItemEvent::Done { zotero_item_key } if zotero_item_key == "AAAA0001"));
    assert_eq!(run.next_index(), Some(1));
    let ev = run.record(ItemOutcome::UpdateFailed("HTTP 500".into()));
    assert!(matches!(ev, ItemEvent::Error { zotero_item_key, error } if zotero_item_key == "BBBB0002" && error == "HTTP 500"));
    let ev = run.record(ItemOutcome::ResolveFailed("not found".into()));
    assert!(matches!(ev, ItemEvent::Error { zotero_item_key, error } if zotero_item_key == "CCCC0003" && error == "not found"));
    assert_eq!(run.next_index(), None);
    let (result, queue) = run.finish();
    assert_eq!(result.synced, 1);
    assert_eq!(result.failed, 2);
    assert_eq!(result.remaining, 2);
    assert_eq!(result.errors[0], "[BBBB0002] → \"nlp\": HTTP 500");
    assert_eq!(result.errors[1], "[CCCC0003] → \"nlp\": key resolution failed: not found");
    assert_eq!(queue.items.len(), 2);
    assert_eq!(queue.items[0].zotero_item_key, "BBBB0002");
}

#[test]
fn sync_is_refused_while_zotero_is_unreachable() {
    assert!(sync_precheck(true).is_ok());
    assert_eq!(
        sync_precheck(false).unwrap_err(),
        "Zotero is not reachable — start Zotero and retry"
    );
}

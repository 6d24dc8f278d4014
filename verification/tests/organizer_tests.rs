use llm_wiki::organizer::{
    filed_content, parse_frontmatter, Command, Event, Organizer, OrganizerConfig, PdfMoveSpec,
    Reaction,
};
use llm_wiki::transaction::{StepKind, Undo};

const PAPER: &str = "---\ntitle: Attention Is All You Need\nabstract: We propose.\ndoi: 10.1234/attention.2017\n---\n\nBody";

fn run(online: bool, content: &str, pdf: PdfMoveSpec) -> Organizer {
    run_with(online, content, pdf, vec![])
}

fn run_with(online: bool, content: &str, pdf: PdfMoveSpec, processed: Vec<String>) -> Organizer {
    Organizer::new(
        "/root/content/papers/unclassified/attention.md".into(),
        "/root/content".into(),
        content.into(),
        "attention.md".into(),
        online,
        pdf,
        processed,
    )
}

fn statuses(r: &Reaction) -> Vec<(String, String)> {
    r.progress.iter().map(|p| (p.step.clone(), p.status.clone())).collect()
}

#[test]
fn config_paths() {
    let c = OrganizerConfig::new("/root/content".into());
    assert_eq!(c.unclassified_dir(), "/root/content/papers/unclassified");
    assert_eq!(c.staging_dir(), "/root/content/papers/.staging");
    assert_eq!(c.category_dir("nlp"), "/root/content/papers/nlp");
    assert_eq!(c.queue_path(), "/root/content/meta/pending-zotero-sync.json");
    assert_eq!(c.log_path_on("2024-01-02"), "/root/logs/organize-2024-01-02.json");
    assert!(c.log_path().starts_with("/root/logs/organize-"));
}

#[test]
fn frontmatter_fields_are_read() {
    let fm = parse_frontmatter(PAPER);
    assert_eq!(fm.title, "Attention Is All You Need");
    assert_eq!(fm.abstract_text, "We propose.");
    assert_eq!(fm.doi.as_deref(), Some("10.1234/attention.2017"));
    let fm = parse_frontmatter("---\nDOI: \"10.1/a\"\ndoi: \n---\n");
    assert_eq!(fm.doi.as_deref(), Some("10.1/a"));
    let fm = parse_frontmatter("no frontmatter");
    assert_eq!(fm.title, "");
    assert_eq!(fm.doi, None);
}

#[test]
fn offline_run_queues_the_zotero_update() {
    let mut o = run(false, PAPER, PdfMoveSpec::NoWait);
    let r = o.step(Event::Start);
    match &r.command {
        Command::Move { from, to } => {
            assert_eq!(from, "/root/content/papers/unclassified/attention.md");
            assert_eq!(to, "/root/content/papers/.staging/attention.md");
        }
        c => panic!("unexpected {c:?}"),
    }
    let r = o.step(Event::Moved(Ok(())));
    assert!(matches!(&r.command, Command::Classify { title, .. } if title == "Attention Is All You Need"));
    let r = o.step(Event::Classified(Ok("large-language-models".into())));
    match &r.command {
        Command::Write { path, text } => {
            assert_eq!(path, "/root/content/papers/.staging/attention.md");
            assert!(text.contains("tags: [large-language-models]"));
            assert!(text.contains("summary: \"We propose.\""));
        }
        c => panic!("unexpected {c:?}"),
    }
    let r = o.step(Event::Written(Ok(())));
    assert_eq!(statuses(&r), vec![
        ("FrontmatterUpdated".to_string(), "done".to_string()),
        ("MovedToTarget".to_string(), "started".to_string()),
    ]);
    match &r.command {
        Command::Move { from, to } => {
            assert_eq!(from, "/root/content/papers/.staging/attention.md");
            assert_eq!(to, "/root/content/papers/large-language-models/attention.md");
        }
        c => panic!("unexpected {c:?}"),
    }
    let r = o.step(Event::Moved(Ok(())));
    assert_eq!(statuses(&r), vec![
        ("MovedToTarget".to_string(), "done".to_string()),
        ("ZoteroCollectionChanged".to_string(), "skipped".to_string()),
        ("ZotMovConfirmed".to_string(), "skipped".to_string()),
    ]);
    match &r.command {
        Command::Enqueue { queue_path, zotero_key, category, .. } => {
            assert_eq!(queue_path, "/root/content/meta/pending-zotero-sync.json");
            assert_eq!(zotero_key, "doi:10.1234/attention.2017");
            assert_eq!(category, "large-language-models");
        }
        c => panic!("unexpected {c:?}"),
    }
    let r = o.step(Event::Enqueued);
    match r.command {
        Command::Finish { result, log, record_doi } => {
            assert_eq!(log.step, "Completed");
            assert_eq!(log.message, "filed under large-language-models");
            assert_eq!(log.paper_path, "/root/content/papers/unclassified/attention.md");
            assert_eq!(record_doi.as_deref(), Some("10.1234/attention.2017"));
            assert_eq!(result.category, "large-language-models");
            assert_eq!(result.final_path, "/root/content/papers/large-language-models/attention.md");
            assert!(result.zotero_pending);
            assert!(!result.zotero_synced);
        }
        c => panic!("unexpected {c:?}"),
    }
}

#[test]
fn classification_failure_rolls_back_to_unclassified() {
    let mut o = run(true, PAPER, PdfMoveSpec::NoWait);
    o.step(Event::Start);
    o.step(Event::Moved(Ok(())));
    let r = o.step(Event::Classified(Err("quota".into())));
    assert_eq!(statuses(&r), vec![("GeminiClassified".to_string(), "failed".to_string())]);
    match r.command {
        Command::Fail { rollback, log, message } => {
            assert_eq!(message, "[GeminiClassified] quota");
            assert_eq!(log.step, "GeminiClassified");
            assert_eq!(rollback.len(), 1);
            assert!(matches!(rollback[0].step, StepKind::MovedToStaging));
            assert!(matches!(&rollback[0].undo, Undo::MoveToUnclassified { from } if from == "/root/content/papers/.staging/attention.md"));
        }
        c => panic!("unexpected {c:?}"),
    }
}

#[test]
fn online_run_updates_zotero_and_waits_for_pdf() {
    let mut o = run(true, PAPER, PdfMoveSpec::UnderRoot { pdf_root: "/pdfs".into(), pdf_filename: "a.pdf".into() });
    o.step(Event::Start);
    o.step(Event::Moved(Ok(())));
    o.step(Event::Classified(Ok("nlp".into())));
    o.step(Event::Written(Ok(())));
    let r = o.step(Event::Moved(Ok(())));
    assert!(matches!(&r.command, Command::FindItem { doi } if doi == "10.1234/attention.2017"));
    let r = o.step(Event::ItemFound(Ok("ITEM0001".into())));
    assert!(matches!(&r.command, Command::ReadCollection { item_key } if item_key == "ITEM0001"));
    let r = o.step(Event::CollectionRead(Some("inbox".into())));
    assert!(matches!(&r.command, Command::UpdateCollection { item_key, collection } if item_key == "ITEM0001" && collection == "nlp"));
    let r = o.step(Event::CollectionUpdated(Ok(())));
    assert!(matches!(&r.command, Command::WaitForPdf { path, timeout_secs: 10 } if path == "/pdfs/nlp/a.pdf"));
    let r = o.step(Event::PdfArrived(Err("Timeout".into())));
    match r.command {
        Command::Fail { rollback, message, .. } => {
            assert_eq!(message, "[ZotMovConfirmed] Timeout");
            let kinds: Vec<_> = rollback.iter().map(|a| a.step).collect();
            assert!(matches!(kinds.as_slice(), [StepKind::ZoteroCollectionChanged, StepKind::MovedToTarget, StepKind::GeminiClassified, StepKind::MovedToStaging]));
            assert!(matches!(&rollback[0].undo, Undo::RestoreCollection { item_key, collection } if item_key == "ITEM0001" && collection == "inbox"));
        }
        c => panic!("unexpected {c:?}"),
    }
}

#[test]
fn run_without_doi_skips_zotero() {
    let mut o = run(true, "---\ntitle: T\n---\nBody", PdfMoveSpec::NoWait);
    o.step(Event::Start);
    o.step(Event::Moved(Ok(())));
    o.step(Event::Classified(Ok("nlp".into())));
    o.step(Event::Written(Ok(())));
    let r = o.step(Event::Moved(Ok(())));
    assert_eq!(r.progress[1].detail.as_deref(), Some("no DOI in frontmatter"));
    match r.command {
        Command::Finish { result, record_doi, .. } => {
            assert!(!result.zotero_synced && !result.zotero_pending);
            assert_eq!(record_doi, None);
        }
        c => panic!("unexpected {c:?}"),
    }
}

#[test]
fn staging_failure_needs_no_rollback() {
    let mut o = run(true, PAPER, PdfMoveSpec::NoWait);
    o.step(Event::Start);
    assert!(o.accepts_event(&Event::Moved(Ok(()))));
    assert!(!o.accepts_event(&Event::Enqueued));
    let r = o.step(Event::Moved(Err("disk full".into())));
    match r.command {
        Command::Fail { rollback, message, .. } => {
            assert!(rollback.is_empty());
            assert_eq!(message, "[MovedToStaging] disk full");
        }
        c => panic!("unexpected {c:?}"),
    }
}

#[test]
fn duplicate_doi_is_refused_before_staging() {
    let mut o = run_with(
        true,
        PAPER,
        PdfMoveSpec::NoWait,
        vec!["10.9999/other".into(), "10.1234/attention.2017".into()],
    );
    let r = o.step(Event::Start);
    assert_eq!(statuses(&r), vec![("DuplicateCheck".to_string(), "failed".to_string())]);
    match r.command {
        Command::Fail { rollback, log, message } => {
            assert!(rollback.is_empty());
            assert!(message.to_lowercase().contains("duplicate"));
            assert_eq!(message, "[DuplicateCheck] duplicate DOI 10.1234/attention.2017: already processed");
            assert_eq!(log.step, "DuplicateCheck");
        }
        c => panic!("unexpected {c:?}"),
    }
    assert!(!o.accepts_event(&Event::Moved(Ok(()))));
}

#[test]
fn other_processed_dois_do_not_block_the_run() {
    let mut o = run_with(true, PAPER, PdfMoveSpec::NoWait, vec!["10.9999/other".into()]);
    let r = o.step(Event::Start);
    assert!(matches!(&r.command, Command::Move { .. }));
}

#[test]
fn frontmatter_write_failure_rolls_back() {
    let mut o = run(false, PAPER, PdfMoveSpec::NoWait);
    o.step(Event::Start);
    o.step(Event::Moved(Ok(())));
    o.step(Event::Classified(Ok("nlp".into())));
    let r = o.step(Event::Written(Err("read-only".into())));
    match r.command {
        Command::Fail { rollback, message, .. } => {
            assert_eq!(message, "[FrontmatterUpdated] read-only");
            let kinds: Vec<_> = rollback.iter().map(|a| a.step).collect();
            assert!(matches!(kinds.as_slice(), [StepKind::GeminiClassified, StepKind::MovedToStaging]));
        }
        c => panic!("unexpected {c:?}"),
    }
}

#[test]
fn filed_content_adds_summary_and_tags() {
    assert_eq!(
        filed_content(PAPER, "cat", "We propose."),
        "---\ntitle: Attention Is All You Need\nabstract: We propose.\ndoi: 10.1234/attention.2017\nsummary: \"We propose.\"\ntags: [cat]\n---\n\nBody"
    );
    let with_summary = "---\nsummary: \"Kept.\"\ntags: [old]\n---\nBody";
    assert_eq!(
        filed_content(with_summary, "nlp", "Abstract."),
        "---\nsummary: \"Kept.\"\ntags: [nlp]\n---\nBody"
    );
    assert_eq!(filed_content("no frontmatter", "nlp", ""), "no frontmatter");
}

fn sample_paper_content(doi: &str) -> String {
    format!(
        "---\ntitle: Attention Is All You Need\nabstract: We propose a new simple network architecture. The Transformer is based solely on attention mechanisms. Experiments on two machine translation tasks show it is superior in quality.\ndoi: {doi}\nauthors: Vaswani et al.\nyear: 2017\n---\n\n# Introduction\n\nThe dominant sequence transduction models are based on complex recurrent networks.\n"
    )
}

fn start_run(name: &str, doi: &str, online: bool, processed: Vec<String>) -> Organizer {
    Organizer::new(
        format!("/tmp/t/content/papers/unclassified/{name}"),
        "/tmp/t/content".into(),
        sample_paper_content(doi),
        name.into(),
        online,
        PdfMoveSpec::NoWait,
        processed,
    )
}

#[test]
fn test_full_transaction_zotero_offline() {
    let mut o = start_run("attention.md", "10.1234/attention.2017", false, vec![]);
    assert!(matches!(o.step(Event::Start).command, Command::Move { .. }));
    assert!(matches!(o.step(Event::Moved(Ok(()))).command, Command::Classify { .. }));
    let r = o.step(Event::Classified(Ok("large-language-models".into())));
    match &r.command {
        Command::Write { path, text } => {
            assert_eq!(path, "/tmp/t/content/papers/.staging/attention.md");
            let fm = text.split("\n---").next().unwrap();
            let tags = fm.lines().find(|l| l.starts_with("tags:")).expect("tags: line");
            assert!(tags.contains("large-language-models"));
            let summary = fm.lines().find(|l| l.starts_with("summary:")).expect("summary: line");
            assert!(summary.contains("We propose"));
        }
        c => panic!("unexpected {c:?}"),
    }
    let r = o.step(Event::Written(Ok(())));
    match &r.command {
        Command::Move { from, to } => {
            assert_eq!(from, "/tmp/t/content/papers/.staging/attention.md");
            assert_eq!(to, "/tmp/t/content/papers/large-language-models/attention.md");
        }
        c => panic!("unexpected {c:?}"),
    }
    let r = o.step(Event::Moved(Ok(())));
    match &r.command {
        Command::Enqueue { queue_path, .. } => {
            assert_eq!(queue_path, "/tmp/t/content/meta/pending-zotero-sync.json")
        }
        c => panic!("unexpected {c:?}"),
    }
    match o.step(Event::Enqueued).command {
        Command::Finish { result, log, record_doi } => {
            assert_eq!(result.category, "large-language-models");
            assert!(result.zotero_pending);
            assert!(!result.zotero_synced);
            assert_eq!(result.final_path, "/tmp/t/content/papers/large-language-models/attention.md");
            assert_eq!(log.step, "Completed");
            assert_eq!(record_doi.as_deref(), Some("10.1234/attention.2017"));
        }
        c => panic!("unexpected {c:?}"),
    }
    assert_eq!(o.config.log_path_on("2024-01-02"), "/tmp/t/logs/organize-2024-01-02.json");
}

#[test]
fn test_full_transaction_rollback_on_gemini_failure() {
    let mut o = start_run("to-be-rolled-back.md", "10.1234/rollback.2024", false, vec![]);
    o.step(Event::Start);
    o.step(Event::Moved(Ok(())));
    let r = o.step(Event::Classified(Err("simulated Gemini API failure".into())));
    match r.command {
        Command::Fail { rollback, log, message } => {
            assert!(message.contains("GeminiClassified"));
            assert_eq!(log.step, "GeminiClassified");
            assert_eq!(rollback.len(), 1);
            assert!(matches!(&rollback[0].undo, Undo::MoveToUnclassified { from } if from == "/tmp/t/content/papers/.staging/to-be-rolled-back.md"));
        }
        c => panic!("unexpected {c:?}"),
    }
    assert!(!o.accepts_event(&Event::Enqueued));
}

#[test]
fn test_duplicate_detection() {
    let mut o = start_run(
        "duplicate-paper.md",
        "10.9999/already-processed",
        false,
        vec!["10.9999/already-processed".into()],
    );
    let r = o.step(Event::Start);
    match r.command {
        Command::Fail { rollback, message, .. } => {
            assert!(message.to_lowercase().contains("duplicate"));
            assert!(rollback.is_empty());
        }
        c => panic!("unexpected {c:?}"),
    }
    assert!(!o.accepts_event(&Event::Moved(Ok(()))));
}

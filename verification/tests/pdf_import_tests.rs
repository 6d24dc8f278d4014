use llm_wiki::pdf_import::{
    classify_title, dedup_zotero_entries, existing_categories, extract_title_and_abstract,
    import_slug, inject_zotero_key, markdown_path, slug_of_lowercase, slugify, unclassified_collection,
    unprocessed_pdfs, zotero_slug, PdfCandidate,
};
use llm_wiki::zotero::ZoteroPdfEntry;

#[test]
fn slugify_handles_typical_paper_filenames() {
    assert_eq!(slugify("Attention Is All You Need"), "attention-is-all-you-need");
    assert_eq!(slugify("Vaswani_et_al_2017_Attention"), "vaswani-et-al-2017-attention");
    assert_eq!(slugify("  Trim  Edges  "), "trim-edges");
    assert_eq!(slugify("BERT: Pre-training"), "bert-pre-training");
}

#[test]
fn slugify_collapses_runs_of_separators() {
    assert_eq!(slugify("a---b___c"), "a-b-c");
}

#[test]
fn slugify_drops_non_ascii_and_edge_dashes() {
    assert_eq!(slugify("--Résumé--"), "r-sum");
    assert_eq!(slugify("日本語"), "");
    assert_eq!(slugify(""), "");
}

#[test]
fn inject_zotero_key_adds_field_to_frontmatter() {
    let md = "---\ntitle: T\nabstract: A.\n---\n\nbody";
    let out = inject_zotero_key(md, "ABCD1234");
    assert!(out.contains("zotero_key: ABCD1234"));
    assert!(out.contains("title: T"));
    assert!(out.ends_with("body"));
}

#[test]
fn inject_zotero_key_is_idempotent() {
    let md = "---\ntitle: T\nzotero_key: STALE\nabstract: A.\n---\n\nbody";
    let out = inject_zotero_key(md, "FRESH");
    let count = out.matches("zotero_key:").count();
    assert_eq!(count, 1, "expected exactly one zotero_key entry: {out}");
    assert!(out.contains("zotero_key: FRESH"));
    assert!(!out.contains("STALE"));
}

#[test]
fn inject_zotero_key_no_frontmatter_returns_unchanged() {
    let md = "no frontmatter here";
    let out = inject_zotero_key(md, "ABC");
    assert_eq!(out, md);
}

#[test]
fn inject_zotero_key_exact_output() {
    let md = "---\ntitle: T\n  zotero_key: OLD\n---\nbody";
    assert_eq!(inject_zotero_key(md, "NEW"), "---\ntitle: T\nzotero_key: NEW\n---\nbody");
    assert_eq!(inject_zotero_key("---\nunclosed", "K"), "---\nunclosed");
}

#[test]
fn unprocessed_pdfs_skips_imported_and_sorts() {
    let cands = vec![
        PdfCandidate { path: "/s/ABC/Attention.pdf".into(), stem: "Attention".into(), size_bytes: 8 },
        PdfCandidate { path: "/s/DEF/LoRA.pdf".into(), stem: "LoRA".into(), size_bytes: 9 },
        PdfCandidate { path: "/s/GHI/bert.pdf".into(), stem: "bert".into(), size_bytes: 1 },
    ];
    let existing = vec!["attention".to_string()];
    let out = unprocessed_pdfs(cands, &existing);
    assert_eq!(out.len(), 2);
    assert_eq!(out[0].stem, "bert");
    assert_eq!(out[1].stem, "LoRA");
    assert_eq!(out[1].size_bytes, 9);
}

#[test]
fn import_slug_refuses_empty() {
    assert_eq!(import_slug("My Paper").unwrap(), "my-paper");
    assert_eq!(import_slug("!!!").unwrap_err(), "PDF filename \"!!!\" produced an empty slug");
}

#[test]
fn markdown_path_is_under_unclassified() {
    assert_eq!(markdown_path("/root/content", "x"), "/root/content/papers/unclassified/x.md");
    assert_eq!(markdown_path("/root/content/", "x"), "/root/content/papers/unclassified/x.md");
}

fn entry(key: &str, title: &str, filename: Option<&str>, collection: Option<&str>) -> ZoteroPdfEntry {
    ZoteroPdfEntry {
        item_key: key.into(),
        attachment_key: format!("A{key}"),
        title: title.into(),
        filename: filename.map(|f| f.to_string()),
        collection_name: collection.map(|c| c.to_string()),
    }
}

#[test]
fn dedup_zotero_entries_filters_and_sorts() {
    let raw = vec![
        entry("K1", "Zeta Paper", Some("attention.pdf"), Some("nlp")),
        entry("K2", "alpha", None, Some("Unclassified")),
        entry("K3", "Beta", Some("storage/beta.v2.pdf"), None),
        entry("K4", "???", None, None),
    ];
    let existing = vec!["Attention".to_string()];
    let out = dedup_zotero_entries(raw, &existing);
    assert_eq!(out.len(), 2);
    assert_eq!(out[0].item_key, "K2");
    assert_eq!(out[0].slug, "alpha");
    assert_eq!(out[0].collection_name, None);
    assert_eq!(out[1].item_key, "K3");
    assert_eq!(out[1].slug, "beta-v2");
    assert_eq!(out[1].attachment_key, "AK3");
}

#[test]
fn existing_categories_are_sorted_user_folders() {
    let entries = vec![
        ("nlp".to_string(), true),
        (".staging".to_string(), true),
        ("unclassified".to_string(), true),
        ("cv".to_string(), true),
        ("notes.md".to_string(), false),
    ];
    assert_eq!(existing_categories(&entries), vec!["cv".to_string(), "nlp".to_string()]);
}

#[test]
fn extract_title_and_abstract_reads_frontmatter() {
    let md = "---\ntitle: \"T1\"\nabstract: 'A1'\ntitle: T2\n---\nbody";
    assert_eq!(extract_title_and_abstract(md), ("T2".to_string(), "A1".to_string()));
    assert_eq!(extract_title_and_abstract("body"), (String::new(), String::new()));
}

#[test]
fn zotero_slug_falls_back_to_key() {
    assert_eq!(zotero_slug(Some("Deep Nets"), "KEY1"), "deep-nets");
    assert_eq!(zotero_slug(Some("???"), "KEY1"), "key1");
    assert_eq!(zotero_slug(None, "AB CD"), "ab-cd");
    assert_eq!(classify_title(String::new(), "T".into()), "T");
    assert_eq!(classify_title("E".into(), "T".into()), "E");
}

#[test]
fn unclassified_collection_defaults() {
    assert_eq!(unclassified_collection(None), "Unclassified");
    assert_eq!(unclassified_collection(Some("  ")), "Unclassified");
    assert_eq!(unclassified_collection(Some(" Inbox ")), "Inbox");
}

#[test]
fn inject_zotero_key_twice_equals_once() {
    let md = "---\ntitle: T\nzotero_key: OLD\nabstract: A.\n---\nbody";
    let once = inject_zotero_key(md, "KEY1");
    assert_eq!(inject_zotero_key(&once, "KEY1"), once);
    let empty = "---\nzotero_key: OLD\n---\n";
    let once = inject_zotero_key(empty, "K");
    assert_eq!(once, "---\n\nzotero_key: K\n---\n");
    assert_eq!(inject_zotero_key(&once, "K"), once);
}

#[test]
fn slug_of_lowercase_keeps_ascii_letters_and_digits() {
    assert_eq!(slug_of_lowercase("attention is all--you need!"), "attention-is-all-you-need");
    assert_eq!(slug_of_lowercase("--a.b--"), "a-b");
    assert_eq!(slug_of_lowercase("Ab"), "Ab");
    assert_eq!(slug_of_lowercase("é"), "");
}

#[test]
fn slugs_of_ascii_stems_are_lower_case_and_stable() {
    for stem in ["Attention Is All You Need", "--X__Y--", "  A1 b2  ", "...", "GPT-4 Technical Report (v2)"] {
        let s = slugify(stem);
        assert!(s.chars().all(|c| c.is_ascii_lowercase() || c.is_ascii_digit() || c == '-'));
        assert!(!s.starts_with('-') && !s.ends_with('-') && !s.contains("--"));
        assert_eq!(slugify(&s), s);
    }
    assert_eq!(slugify("GPT-4 Technical Report (v2)"), "gpt-4-technical-report-v2");
}

use llm_wiki::zotero::{
    attachment_size_check, build_collection_paths, entry_base, eq_ignore_ascii_case,
    find_collection_key, first_collection_key, folders_to_create, listing_collection_name,
    lookup_plan, mirrored_paths, next_interval, normalise_title, pdf_attachment,
    pick_item_by_doi, pick_item_by_title, resolved_entries, sort_pdf_entries, status_of_failure,
    status_of_response, wiki_folder_path, zotmoov_step, AttachmentChild, LookupBy,
    EntryBase, OrganizerPaperHints, TopItem, ZoteroItem, ZoteroItemData, ZoteroPdfEntry, ZoteroStatus,
    ZotmoovStep,
};

fn data() -> ZoteroItemData {
    ZoteroItemData {
        title: None,
        abstract_note: None,
        collections: vec![],
        doi: None,
        creators: vec![],
        date: None,
        url: None,
        publication_title: None,
        journal_abbreviation: None,
        conference_name: None,
        proceedings_title: None,
        book_title: None,
        repository: None,
        publisher: None,
    }
}

fn item(key: &str, title: Option<&str>, doi: Option<&str>) -> ZoteroItem {
    let mut d = data();
    d.title = title.map(|t| t.to_string());
    d.doi = doi.map(|t| t.to_string());
    ZoteroItem { key: key.into(), data: d }
}

fn paths_get<'a>(paths: &'a [(String, String)], key: &str) -> Option<&'a str> {
    paths.iter().find(|(k, _)| k == key).map(|(_, p)| p.as_str())
}

#[test]
fn test_zotero_item_deserialises_from_api_shape() {
    let mut d = data();
    d.title = Some("Test Paper".into());
    d.abstract_note = Some("An abstract.".into());
    d.collections = vec!["COL1".into()];
    d.doi = Some("10.1234/example".into());
    d.publication_title = Some("Nature".into());
    d.url = Some("https://example.com/paper".into());
    let item = ZoteroItem { key: "ABCD1234".into(), data: d };
    assert_eq!(item.key, "ABCD1234");
    assert_eq!(item.data.doi.as_deref(), Some("10.1234/example"));
    assert_eq!(item.data.best_publication().as_deref(), Some("Nature"));
    assert_eq!(item.data.url.as_deref(), Some("https://example.com/paper"));
}

#[test]
fn best_publication_falls_through_to_conference_then_book() {
    let mut d = data();
    d.publication_title = Some("".into());
    d.conference_name = Some("  CVPR 2023  ".into());
    d.book_title = Some("Should Be Skipped".into());
    assert_eq!(d.best_publication().as_deref(), Some("CVPR 2023"));
}

#[test]
fn best_publication_returns_none_when_all_empty() {
    let mut d = data();
    d.publication_title = Some("  ".into());
    assert!(d.best_publication().is_none());
}

#[test]
fn best_publication_reaches_publisher() {
    let mut d = data();
    d.repository = Some(" ".into());
    d.publisher = Some(" MIT Press".into());
    assert_eq!(d.best_publication().as_deref(), Some("MIT Press"));
}

#[test]
fn build_collection_paths_handles_flat_collections() {
    let nodes = vec![
        ("K1".to_string(), ("Computer Vision".to_string(), None)),
        ("K2".to_string(), ("NLP".to_string(), None)),
    ];
    let paths = build_collection_paths(&nodes);
    assert_eq!(paths_get(&paths, "K1"), Some("Computer Vision"));
    assert_eq!(paths_get(&paths, "K2"), Some("NLP"));
}

#[test]
fn build_collection_paths_walks_parent_chain() {
    let nodes = vec![
        ("K1".to_string(), ("Computer Vision".to_string(), None)),
        ("K2".to_string(), ("01_Generative_Models".to_string(), Some("K1".to_string()))),
        ("K3".to_string(), ("Autoencoders".to_string(), Some("K2".to_string()))),
    ];
    let paths = build_collection_paths(&nodes);
    assert_eq!(
        paths_get(&paths, "K3"),
        Some("Computer Vision/01_Generative_Models/Autoencoders"),
    );
    assert_eq!(paths_get(&paths, "K2"), Some("Computer Vision/01_Generative_Models"));
}

#[test]
fn build_collection_paths_breaks_cycles() {
    let nodes = vec![("A".to_string(), ("Loop".to_string(), Some("A".to_string())))];
    let paths = build_collection_paths(&nodes);
    assert_eq!(paths_get(&paths, "A"), Some("Loop"));
}

#[test]
fn build_collection_paths_stops_at_missing_parent_and_two_cycles() {
    let nodes = vec![
        ("A".to_string(), ("a".to_string(), Some("B".to_string()))),
        ("B".to_string(), ("b".to_string(), Some("A".to_string()))),
        ("C".to_string(), ("c".to_string(), Some("GONE".to_string()))),
    ];
    let paths = build_collection_paths(&nodes);
    assert_eq!(paths_get(&paths, "A"), Some("b/a"));
    assert_eq!(paths_get(&paths, "B"), Some("a/b"));
    assert_eq!(paths_get(&paths, "C"), Some("c"));
}

#[test]
fn doi_lookup_ignores_ascii_case() {
    let items = vec![item("K1", Some("x"), Some("10.1/OTHER")), item("K2", Some("y"), Some("10.1/ABC"))];
    assert_eq!(pick_item_by_doi(items, "10.1/abc").unwrap().key, "K2");
    let none = vec![item("K1", None, None)];
    assert_eq!(pick_item_by_doi(none, "10.1/x").unwrap_err(), "No Zotero item found for DOI: 10.1/x");
    assert!(eq_ignore_ascii_case("AbC", "aBc"));
    assert!(!eq_ignore_ascii_case("AbC", "aBcd"));
}

#[test]
fn title_lookup_normalises_whitespace_and_case() {
    assert_eq!(normalise_title("  Attention   Is\nAll "), "attention is all");
    let items = vec![item("K1", Some("Other"), None), item("K2", Some("ATTENTION  is all"), None)];
    assert_eq!(pick_item_by_title(items, "attention is  ALL").unwrap().key, "K2");
    let err = pick_item_by_title(vec![], "A \"b\"").unwrap_err();
    assert_eq!(err, "No Zotero item found for title: \"A \\\"b\\\"\"");
}

#[test]
fn status_of_answers() {
    assert!(matches!(status_of_response(200, "200 OK"), ZoteroStatus::Connected));
    assert!(matches!(status_of_response(403, "403 Forbidden"), ZoteroStatus::Error(e) if e.contains("Allow other applications")));
    assert!(matches!(status_of_response(500, "500 Internal Server Error"), ZoteroStatus::Error(e) if e == "HTTP 500 Internal Server Error"));
    assert!(matches!(status_of_failure(true, "refused"), ZoteroStatus::Disconnected));
    assert!(matches!(status_of_failure(false, "tls"), ZoteroStatus::Error(e) if e == "tls"));
}

#[test]
fn collection_lookups() {
    let cols = vec![
        (None, Some("nlp".to_string())),
        (Some("K1".to_string()), Some("cv".to_string())),
        (Some("K2".to_string()), Some("nlp".to_string())),
    ];
    assert_eq!(find_collection_key(&cols, "nlp").as_deref(), Some("K2"));
    assert_eq!(find_collection_key(&cols, "rl"), None);
    assert_eq!(listing_collection_name("  ").unwrap_err(), "collection name must not be empty");
    assert_eq!(listing_collection_name(" nlp ").unwrap(), "nlp");
    assert_eq!(first_collection_key("IT", &vec![]).unwrap_err(), "Item IT belongs to no collection");
    assert_eq!(first_collection_key("IT", &vec!["C1".into(), "C2".into()]).unwrap(), "C1");
}

#[test]
fn pdf_attachment_picks_first_pdf_with_key() {
    let children = vec![
        AttachmentChild { key: Some("N1".into()), content_type: Some("text/html".into()), filename: None, path: None },
        AttachmentChild { key: None, content_type: Some("application/pdf".into()), filename: None, path: None },
        AttachmentChild {
            key: Some("P2".into()),
            content_type: Some("application/pdf".into()),
            filename: None,
            path: Some("attachments:dir/Paper.pdf".into()),
        },
    ];
    assert_eq!(pdf_attachment(&children), Some(("P2".to_string(), Some("Paper.pdf".to_string()))));
    assert_eq!(pdf_attachment(&vec![]), None);
}

#[test]
fn entries_are_built_and_sorted() {
    let paths = vec![("C1".to_string(), "CV/GANs".to_string())];
    let top = TopItem { key: Some("I1".into()), title: None, first_collection: Some("C1".into()) };
    let base = entry_base(&top, &paths, None).unwrap();
    assert_eq!(base.title, "I1");
    assert_eq!(base.collection_name.as_deref(), Some("CV/GANs"));
    let over = entry_base(&top, &paths, Some("Unclassified")).unwrap();
    assert_eq!(over.collection_name.as_deref(), Some("Unclassified"));
    assert!(entry_base(&TopItem { key: None, title: None, first_collection: None }, &paths, None).is_none());
    let e = |t: &str| ZoteroPdfEntry { item_key: t.into(), attachment_key: "A".into(), title: t.into(), filename: None, collection_name: None };
    let sorted = sort_pdf_entries(vec![e("beta"), e("Alpha"), e("gamma")]);
    let titles: Vec<_> = sorted.iter().map(|x| x.title.as_str()).collect();
    assert_eq!(titles, vec!["Alpha", "beta", "gamma"]);
}

#[test]
fn wiki_folders_and_mirroring() {
    assert_eq!(wiki_folder_path("Computer Vision").as_deref(), Some("Computer Vision"));
    assert_eq!(wiki_folder_path("Computer Vision\\01_Generative_Models").as_deref(), Some("Computer Vision/01_Generative_Models"));
    assert_eq!(wiki_folder_path("unclassified/x"), None);
    assert_eq!(wiki_folder_path("UnClassified"), None);
    assert_eq!(wiki_folder_path(".staging"), None);
    assert_eq!(wiki_folder_path(""), None);
    let paths = vec![
        ("K1".to_string(), "CV/GANs".to_string()),
        ("K2".to_string(), "Unclassified".to_string()),
        ("K3".to_string(), "NLP/unclassified".to_string()),
        ("K4".to_string(), "CV".to_string()),
    ];
    let kept = mirrored_paths(&paths).unwrap();
    assert_eq!(kept, vec!["CV/GANs".to_string(), "NLP/unclassified".to_string(), "CV".to_string()]);
    assert!(mirrored_paths(&vec![]).is_err());
    let wiki = vec!["CV".to_string()];
    let todo = folders_to_create(&kept, &wiki);
    assert_eq!(todo, vec!["CV/GANs".to_string(), "NLP/unclassified".to_string()]);
    let todo = folders_to_create(&vec!["b/c".into(), "a".into(), "b".into(), "a".into()], &vec![]);
    assert_eq!(todo, vec!["a".to_string(), "b".to_string(), "b/c".to_string()]);
}

#[test]
fn zotmoov_backoff_and_timeout() {
    assert_eq!(next_interval(100), 200);
    assert_eq!(next_interval(200), 400);
    assert_eq!(next_interval(400), 500);
    assert_eq!(next_interval(500), 500);
    assert!(matches!(zotmoov_step(true, 0, 100, "/p.pdf", 2), ZotmoovStep::Arrived));
    match zotmoov_step(false, 0, 100, "/p.pdf", 2) {
        ZotmoovStep::TimedOut(m) => assert_eq!(m, "Timeout after 2s: \"/p.pdf\" did not appear"),
        other => panic!("unexpected {other:?}"),
    }
    assert!(matches!(zotmoov_step(false, 50, 100, "/p.pdf", 2), ZotmoovStep::Sleep { ms: 50, next_interval_ms: 200 }));
    assert!(matches!(zotmoov_step(false, 5000, 400, "/p.pdf", 2), ZotmoovStep::Sleep { ms: 400, next_interval_ms: 500 }));
}

#[test]
fn lookup_plan_orders_key_doi_title() {
    let h = OrganizerPaperHints { zotero_key: Some("ZK".into()), doi: Some("10.1/x".into()), title: "T".into() };
    let plan = lookup_plan(&h);
    let got: Vec<_> = plan.iter().map(|a| (a.by, a.query.as_str(), a.label.as_str())).collect();
    assert_eq!(got, vec![
        (LookupBy::Key, "ZK", "zotero_key ZK"),
        (LookupBy::Doi, "10.1/x", "DOI 10.1/x"),
        (LookupBy::Title, "T", "title fallback (DOI 10.1/x not found)"),
    ]);
    let h = OrganizerPaperHints { zotero_key: Some("".into()), doi: None, title: "T".into() };
    let plan = lookup_plan(&h);
    assert_eq!(plan.len(), 1);
    assert_eq!(plan[0].label, "title (no DOI in frontmatter)");
    let h = OrganizerPaperHints { zotero_key: None, doi: Some("".into()), title: "".into() };
    assert!(lookup_plan(&h).is_empty());
}

#[test]
fn attachment_cap_is_fifty_mib() {
    assert!(attachment_size_check(None).is_ok());
    assert!(attachment_size_check(Some(50 * 1024 * 1024)).is_ok());
    assert_eq!(
        attachment_size_check(Some(60 * 1024 * 1024)).unwrap_err(),
        "Attachment is 60 MB; LLM-Wiki caps single-PDF imports at 50 MB."
    );
}

#[test]
fn resolved_entries_keep_items_with_a_pdf_sorted_by_title() {
    let base = |k: &str, t: &str| EntryBase {
        item_key: k.into(),
        title: t.into(),
        collection_name: Some("ml".into()),
    };
    let found = vec![
        (base("K1", "zeta"), Some(("A1".to_string(), Some("z.pdf".to_string())))),
        (base("K2", "Beta"), None),
        (base("K3", "alpha"), Some(("A3".to_string(), None))),
    ];
    let r = resolved_entries(found);
    assert_eq!(r.len(), 2);
    assert_eq!(r[0].item_key, "K3");
    assert_eq!(r[0].attachment_key, "A3");
    assert_eq!(r[0].filename, None);
    assert_eq!(r[1].item_key, "K1");
    assert_eq!(r[1].filename.as_deref(), Some("z.pdf"));
    assert_eq!(r[1].collection_name.as_deref(), Some("ml"));
    assert!(resolved_entries(vec![]).is_empty());
}

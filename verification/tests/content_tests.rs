use llm_wiki::clock::FileTime;
use llm_wiki::content::{
    backlinks_or_empty, build_category_tree, categories_from_scan, created_at_of,
    extract_frontmatter_block, find_category_of, is_category_folder, is_paper_file_name,
    is_user_category, paper_frontmatter, papers_newest_first, recent_papers, slug_of,
    unclassified_from_scan, DirScan, DirTree, FileScan, PaperFrontmatter, UnclassifiedScan,
};

fn file(name: &str, secs: i64) -> FileScan {
    FileScan { name: name.to_string(), mtime: Some(FileTime { secs, nanos: 0 }) }
}

fn dir(name: &str, files: Vec<FileScan>, children: Vec<DirTree>) -> DirTree {
    DirTree { name: name.to_string(), is_dir: true, files, children }
}

#[test]
fn extract_frontmatter_block_parses_yaml() {
    let md = "---\ntitle: Foo\nyear: 2024\n---\n\nBody";
    assert_eq!(extract_frontmatter_block(md), "title: Foo\nyear: 2024");
}

#[test]
fn extract_frontmatter_block_empty_when_missing() {
    assert_eq!(extract_frontmatter_block("no frontmatter"), "");
    assert_eq!(extract_frontmatter_block("---\nunclosed"), "");
}

#[test]
fn is_user_category_excludes_system_folders() {
    assert!(is_user_category("large-language-models"));
    assert!(!is_user_category("unclassified"));
    assert!(!is_user_category(".staging"));
    assert!(!is_user_category(".hidden"));
}

#[test]
fn find_paper_category_locates_slug() {
    // `attention.md` is found only in `large-language-models/`.
    let folders = vec!["large-language-models".to_string()];
    assert_eq!(find_category_of(&folders, "attention").unwrap(), "large-language-models");
}

#[test]
fn find_paper_category_finds_second_category() {
    // `resnet.md` is found only in `computer-vision/`.
    let folders = vec!["computer-vision".to_string()];
    assert_eq!(find_category_of(&folders, "resnet").unwrap(), "computer-vision");
}

#[test]
fn find_paper_category_errors_when_missing() {
    let folders: Vec<String> = vec![];
    assert!(find_category_of(&folders, "nonexistent").is_err());
}

#[test]
fn find_category_skips_unclassified_folder() {
    let folders = vec!["unclassified".to_string(), "ml/llm".to_string()];
    assert_eq!(find_category_of(&folders, "gpt").unwrap(), "ml/llm");
    let only = vec!["unclassified".to_string()];
    assert_eq!(find_category_of(&only, "draft").unwrap_err(), "Paper not found: draft");
}

#[test]
fn category_tree_flat_counts_papers() {
    let papers = vec![
        dir(
            "large-language-models",
            vec![file("attention.md", 100), file("bert.md", 200)],
            vec![],
        ),
        dir("unclassified", vec![file("draft.md", 300)], vec![]),
    ];
    let tree = build_category_tree(&papers, None);
    assert_eq!(tree.len(), 1);
    let node = &tree[0];
    assert_eq!(node.name, "large-language-models");
    assert_eq!(node.path, "large-language-models");
    assert_eq!(node.paper_count, 2);
    assert_eq!(node.total_paper_count, 2);
    assert!(node.children.is_empty());
    assert!(node.latest_paper_date.is_some());
}

#[test]
fn category_tree_nested_aggregates_totals() {
    let llm = dir("llm", vec![file("gpt.md", 10), file("bert.md", 20)], vec![]);
    let ml = dir("ml", vec![file("survey.md", 5)], vec![llm]);
    let cv = dir("computer-vision", vec![file("resnet.md", 7)], vec![]);
    let tree = build_category_tree(&vec![ml, cv], None);
    assert_eq!(tree.len(), 2);
    assert_eq!(tree[0].name, "computer-vision");
    assert_eq!(tree[1].name, "ml");
    assert_eq!(tree[0].paper_count, 1);
    assert_eq!(tree[0].total_paper_count, 1);
    assert_eq!(tree[1].paper_count, 1);
    assert_eq!(tree[1].total_paper_count, 3);
    assert_eq!(tree[1].children.len(), 1);
    let llm_node = &tree[1].children[0];
    assert_eq!(llm_node.name, "llm");
    assert_eq!(llm_node.path, "ml/llm");
    assert_eq!(llm_node.paper_count, 2);
    assert_eq!(llm_node.total_paper_count, 2);
    assert_eq!(tree[1].latest_paper_date, llm_node.latest_paper_date);
}

#[test]
fn category_tree_ignores_hidden_and_non_paper_files() {
    let d = dir(
        "nlp",
        vec![file(".hidden.md", 1), file("notes.txt", 2), file("paper.md", 3)],
        vec![dir(".staging", vec![file("x.md", 4)], vec![])],
    );
    let tree = build_category_tree(&vec![d], None);
    assert_eq!(tree[0].paper_count, 1);
    assert_eq!(tree[0].total_paper_count, 1);
    assert!(tree[0].children.is_empty());
}

fn scan_dir(name: &str, is_dir: bool, files: Vec<FileScan>) -> DirScan {
    DirScan { name: name.to_string(), is_dir, files }
}

fn paper(slug: &str, created_at: &str) -> PaperFrontmatter {
    PaperFrontmatter {
        slug: slug.to_string(),
        category: "c".to_string(),
        frontmatter: String::new(),
        created_at: created_at.to_string(),
    }
}

#[test]
fn categories_are_user_folders_sorted_by_name() {
    let entries = vec![
        scan_dir("vision", true, vec![file("resnet.md", 10)]),
        scan_dir("unclassified", true, vec![file("draft.md", 30)]),
        scan_dir(".staging", true, vec![]),
        scan_dir(
            "large-language-models",
            true,
            vec![file("attention.md", 5), file("bert.md", 20), file(".hidden.md", 99), file("notes.txt", 99)],
        ),
        scan_dir("stray.md", false, vec![]),
    ];
    let cats = categories_from_scan(entries);
    let names: Vec<&str> = cats.iter().map(|c| c.name.as_str()).collect();
    assert_eq!(names, vec!["large-language-models", "vision"]);
    assert_eq!(cats[0].paper_count, 2);
    assert_eq!(cats[0].latest_paper_date.as_deref(), Some("1970-01-01T00:00:20+00:00"));
    assert_eq!(cats[1].paper_count, 1);
}

#[test]
fn empty_category_has_no_date() {
    let cats = categories_from_scan(vec![scan_dir("empty", true, vec![])]);
    assert_eq!(cats.len(), 1);
    assert_eq!(cats[0].paper_count, 0);
    assert_eq!(cats[0].latest_paper_date, None);
}

#[test]
fn paper_descriptor_from_file() {
    let p = paper_frontmatter(
        "attention.md",
        "large-language-models",
        "---\ntitle: Attention Is All You Need\nyear: 2017\n---\n\nBody text.",
        Some(FileTime { secs: 0, nanos: 0 }),
    );
    assert_eq!(p.slug, "attention");
    assert_eq!(p.category, "large-language-models");
    assert_eq!(p.frontmatter, "title: Attention Is All You Need\nyear: 2017");
    assert_eq!(p.created_at, "1970-01-01T00:00:00+00:00");
    let bare = paper_frontmatter("bert.md", "c", "No frontmatter here.", None);
    assert_eq!(bare.frontmatter, "");
    assert_eq!(bare.created_at, "");
}

#[test]
fn papers_come_newest_first_and_recent_is_capped() {
    let papers = vec![paper("a", "2024-01-01"), paper("b", "2025-06-01"), paper("c", "2023-03-03")];
    let sorted = papers_newest_first(papers.clone());
    let slugs: Vec<&str> = sorted.iter().map(|p| p.slug.as_str()).collect();
    assert_eq!(slugs, vec!["b", "a", "c"]);
    let recent = recent_papers(papers.clone(), 1);
    assert_eq!(recent.len(), 1);
    assert_eq!(recent[0].slug, "b");
    assert_eq!(recent_papers(papers, 10).len(), 3);
}

#[test]
fn unclassified_lists_paper_files_by_name() {
    let files = vec![
        UnclassifiedScan { path: "/c/papers/unclassified/zeta.md".into(), file: file("zeta.md", 1) },
        UnclassifiedScan { path: "/c/papers/unclassified/.tmp.md".into(), file: file(".tmp.md", 1) },
        UnclassifiedScan { path: "/c/papers/unclassified/draft.md".into(), file: file("draft.md", 2) },
        UnclassifiedScan { path: "/c/papers/unclassified/x.pdf".into(), file: file("x.pdf", 2) },
    ];
    let out = unclassified_from_scan(files);
    let names: Vec<&str> = out.iter().map(|u| u.name.as_str()).collect();
    assert_eq!(names, vec!["draft.md", "zeta.md"]);
    assert_eq!(out[0].path, "/c/papers/unclassified/draft.md");
}

#[test]
fn small_content_helpers() {
    assert!(is_paper_file_name("a.md"));
    assert!(!is_paper_file_name(".a.md"));
    assert!(!is_paper_file_name("a.txt"));
    assert_eq!(slug_of("attention.md"), "attention");
    assert!(is_category_folder("ml/llm"));
    assert!(!is_category_folder("unclassified"));
    assert!(!is_category_folder(".staging/x"));
    assert!(!is_category_folder(""));
    assert_eq!(created_at_of(None), "");
    assert_eq!(backlinks_or_empty(None), "{}");
    assert_eq!(backlinks_or_empty(Some("{\"a\":[\"b\"]}".into())), "{\"a\":[\"b\"]}");
}

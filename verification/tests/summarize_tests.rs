use llm_wiki::gemini::{GeminiResponse, NsCandidate, NsContent, NsPart};
use llm_wiki::summarize::{
    escape_for_yaml, split_frontmatter, summary_from_response, summary_prompt, summary_request,
    upsert_summary, yaml_scalar,
};

#[test]
fn split_frontmatter_extracts_yaml_block() {
    let md = "---\ntitle: A\nyear: 2020\n---\n\nBody here.\n";
    let (yaml, body) = split_frontmatter(md);
    assert_eq!(yaml, Some("title: A\nyear: 2020"));
    assert_eq!(body.trim_start(), "Body here.\n");
}

#[test]
fn split_frontmatter_returns_none_when_missing() {
    let md = "No frontmatter here.";
    let (yaml, body) = split_frontmatter(md);
    assert_eq!(yaml, None);
    assert_eq!(body, md);
}

#[test]
fn yaml_scalar_reads_quoted_and_plain_values() {
    let y = "title: \"Hello\"\nyear: 2020\n";
    assert_eq!(yaml_scalar(y, "title"), Some("Hello"));
    assert_eq!(yaml_scalar(y, "year"), Some("2020"));
    assert_eq!(yaml_scalar(y, "missing"), None);
}

#[test]
fn upsert_summary_inserts_new_line_before_closing_delimiter() {
    let md = "---\ntitle: \"A\"\nyear: 2020\n---\n\nBody\n";
    let out = upsert_summary(md, "New summary.");
    assert!(out.contains("summary: \"New summary.\""));
    assert!(out.contains("title: \"A\""));
    assert!(out.contains("Body"));
    let summary_idx = out.find("summary:").unwrap();
    let closing_idx = out.rfind("---").unwrap();
    assert!(summary_idx < closing_idx);
}

#[test]
fn upsert_summary_replaces_existing_line() {
    let md = "---\ntitle: \"A\"\nsummary: \"Old\"\n---\nBody";
    let out = upsert_summary(md, "Brand new summary.");
    assert!(out.contains("summary: \"Brand new summary.\""));
    assert!(!out.contains("Old"));
    assert_eq!(out.matches("summary:").count(), 1);
}

#[test]
fn upsert_summary_synthesises_frontmatter_when_missing() {
    let md = "Body only, no fm.";
    let out = upsert_summary(md, "added");
    assert!(out.starts_with("---\nsummary: \"added\"\n---\n"));
    assert!(out.contains("Body only, no fm."));
}

#[test]
fn escape_for_yaml_collapses_whitespace_and_quotes() {
    let s = "Line 1\nLine 2\r\nwith \"quotes\"";
    let out = escape_for_yaml(s);
    assert!(!out.contains('\n'));
    assert!(!out.contains('"'));
    assert!(out.contains("Line 1 Line 2 with"));
}

#[test]
fn upsert_then_read_gives_the_summary_back() {
    for md in ["---\ntitle: A\n---\nBody", "plain", "---\nsummary: old\n  summary: older\n---\n"] {
        let out = upsert_summary(md, "  Two\nlines \"q\" ");
        let (yaml, _) = split_frontmatter(&out);
        assert_eq!(yaml_scalar(yaml.unwrap(), "summary"), Some("Two lines \u{201D}q\u{201D}"));
    }
}

#[test]
fn upsert_summary_exact_output() {
    assert_eq!(
        upsert_summary("---\ntitle: A\n---\nBody", "S"),
        "---\ntitle: A\nsummary: \"S\"\n---\n\nBody"
    );
    assert_eq!(upsert_summary("\n\nBody", "S"), "---\nsummary: \"S\"\n---\n\nBody");
}

#[test]
fn summary_request_refuses_empty_paper() {
    let err = summary_request("---\ntitle: \"\"\n---\n   ").err().unwrap();
    assert_eq!(
        err,
        "Nothing to summarise \u{2014} title, abstract, and body are all empty. Please fill in the abstract in Zotero first."
    );
    let q = summary_request("---\ntitle: \" T \"\nabstract: A\n---\nBody").ok().unwrap();
    assert_eq!(q.title, "T");
    assert_eq!(q.abstract_text, "A");
    assert_eq!(q.body_excerpt, "Body");
    let p = summary_prompt(&q);
    assert!(p.starts_with("You are a research-note assistant."));
    assert!(p.ends_with("Title: T\n\nAbstract: A\n\nBody excerpt:\nBody"));
}

#[test]
fn summary_request_truncates_body() {
    let body: String = std::iter::repeat('x').take(7000).collect();
    let q = summary_request(&body).ok().unwrap();
    assert_eq!(q.body_excerpt.chars().count(), 6000);
}

#[test]
fn summary_from_response_trims_or_refuses() {
    let resp = GeminiResponse {
        candidates: vec![NsCandidate { content: NsContent { parts: vec![NsPart { text: "  Short summary. ".into() }] } }],
    };
    assert_eq!(summary_from_response(&resp).ok().unwrap().summary, "Short summary.");
    let empty = GeminiResponse { candidates: vec![] };
    assert_eq!(summary_from_response(&empty).err().unwrap(), "Gemini returned an empty response.");
}

#[test]
fn summarising_again_replaces_the_summary() {
    let docs = [
        "---\ntitle: T\nabstract: A\n---\n\nBody",
        "---\ntitle: T\nsummary: \"old\"\nyear: 2020\n---\nBody",
        "No frontmatter at all.",
        "  \n---\nunclosed",
    ];
    for md in docs {
        let once = upsert_summary(md, "second");
        let twice = upsert_summary(&upsert_summary(md, "first"), "second");
        assert_eq!(twice, once, "doc: {md:?}");
        assert_eq!(twice.matches("summary:").count(), 1);
    }
}

use llm_wiki::abstract_lookup::{
    normalise_whitespace, reconstruct_inverted_index, strip_html_tags, url_encode_path, IndexEntry,
};

fn entry(word: &str, positions: &[u64]) -> IndexEntry {
    IndexEntry {
        word: word.to_string(),
        positions: Some(positions.iter().map(|p| Some(*p)).collect()),
    }
}

#[test]
fn strip_html_tags_removes_jats_paragraph() {
    let jats = "<jats:p>Hello <jats:italic>world</jats:italic>.</jats:p>";
    let cleaned = normalise_whitespace(&strip_html_tags(jats));
    assert_eq!(cleaned, "Hello world .");
}

#[test]
fn strip_html_tags_handles_text_without_tags() {
    let plain = "plain abstract.";
    assert_eq!(strip_html_tags(plain), plain);
}

#[test]
fn normalise_whitespace_collapses_runs() {
    assert_eq!(
        normalise_whitespace("  multiple\n\t  spaces  here  "),
        "multiple spaces here"
    );
}

#[test]
fn url_encode_path_encodes_special_chars() {
    assert_eq!(url_encode_path("10.1/abc def"), "10.1/abc%20def");
    assert_eq!(url_encode_path("plain"), "plain");
    assert_eq!(url_encode_path("10.48550/arXiv.2106.09685"), "10.48550/arXiv.2106.09685");
}

#[test]
fn reconstruct_inverted_index_orders_by_position() {
    let map = vec![entry("world", &[1]), entry("Hello", &[0]), entry("!", &[2])];
    assert_eq!(reconstruct_inverted_index(&map), "Hello world !");
}

#[test]
fn reconstruct_inverted_index_handles_repeated_words() {
    let map = vec![entry("the", &[0, 2]), entry("cat", &[1]), entry("ran", &[3])];
    assert_eq!(reconstruct_inverted_index(&map), "the cat the ran");
}

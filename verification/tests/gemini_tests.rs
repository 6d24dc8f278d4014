use llm_wiki::gemini::{
    category_from_response, category_of_lowercase, category_prompt, classify_prompt,
    classify_prompt_with_categories, drain_sse_lines, extract_ns_text, format_gemini_http_error,
    normalise_category, pdf_size_check, sse_chunk_text, strip_markdown_fence, supplied_key,
    to_gemini_contents, GeminiPart, GeminiResponse, Message, NsCandidate, NsContent, NsPart,
    SseCandidate, SseChunk, SseStream, StreamEvent, StreamStep,
};

/// True iff `s` is non-empty lower-case kebab-case.
fn is_kebab_case(s: &str) -> bool {
    !s.is_empty()
        && s.chars().next().map(|c| c.is_ascii_lowercase()).unwrap_or(false)
        && !s.ends_with('-')
        && s.chars().all(|c| c.is_ascii_lowercase() || c.is_ascii_digit() || c == '-')
}

fn response(texts: &[&str]) -> GeminiResponse {
    GeminiResponse {
        candidates: vec![NsCandidate {
            content: NsContent {
                parts: texts.iter().map(|t| NsPart { text: t.to_string() }).collect(),
            },
        }],
    }
}

#[test]
fn test_classify_returns_kebab_case() {
    let cases = [
        "large-language-models",
        "  Reinforcement Learning  ",
        "Computer Vision",
        "Graph_Neural_Networks",
        "\"multimodal-learning\"",
    ];
    for input in &cases {
        let result = normalise_category(input);
        assert!(
            is_kebab_case(&result),
            "normalise_category({input:?}) = {result:?} is not valid kebab-case"
        );
    }
}

#[test]
fn test_classify_no_uppercase() {
    let cases = ["LargeLanguageModels", "BERT", "GPT-4", "ReinforcementLearning"];
    for input in &cases {
        let result = normalise_category(input);
        assert_eq!(
            result,
            result.to_lowercase(),
            "normalise_category({input:?}) = {result:?} contains uppercase letters"
        );
    }
}

#[test]
fn test_classify_no_spaces() {
    let cases = [
        "large language models",
        "reinforcement learning",
        "computer vision tasks",
        "graph neural networks",
    ];
    for input in &cases {
        let result = normalise_category(input);
        assert!(!result.contains(' '), "normalise_category({input:?}) = {result:?} still contains a space");
        assert!(!result.contains('_'), "normalise_category({input:?}) = {result:?} still contains an underscore");
    }
}

#[test]
fn test_extract_ns_text_reads_first_candidate() {
    let resp = response(&["large-language-models"]);
    assert_eq!(extract_ns_text(&resp).as_deref(), Some("large-language-models"));
}

#[test]
fn test_extract_ns_text_empty_candidates() {
    let resp = GeminiResponse { candidates: vec![] };
    assert_eq!(extract_ns_text(&resp), None);
}

#[test]
fn test_to_gemini_contents_maps_roles() {
    let contents = to_gemini_contents(vec![
        Message { role: "user".into(), text: "hello".into() },
        Message { role: "model".into(), text: "hi".into() },
    ]);
    assert_eq!(contents.len(), 2);
    assert_eq!(contents[0].role, "user");
    assert_eq!(contents[1].parts[0].text.as_deref(), Some("hi"));
}

#[test]
fn strip_markdown_fence_removes_wrapping_fence() {
    let input = "```markdown\n---\ntitle: x\n---\nbody\n```";
    let out = strip_markdown_fence(input);
    assert!(out.starts_with("---"));
    assert!(out.ends_with("body"));
}

#[test]
fn strip_markdown_fence_leaves_plain_text_untouched() {
    let input = "---\ntitle: x\n---\nbody";
    let out = strip_markdown_fence(input);
    assert_eq!(out, input);
}

#[test]
fn gemini_part_pdf_encodes_base64() {
    let part = GeminiPart::pdf(b"%PDF-1.4 test");
    let inline = part.inline_data.expect("inline_data should be set");
    assert_eq!(inline.mime_type, "application/pdf");
    assert!(!inline.data.is_empty());
    assert!(part.text.is_none());
}

#[test]
fn gemini_part_pdf_holds_standard_base64() {
    let part = GeminiPart::pdf(b"Man");
    assert_eq!(part.inline_data.unwrap().data, "TWFu");
    let part = GeminiPart::pdf(b"Ma");
    assert_eq!(part.inline_data.unwrap().data, "TWE=");
}

#[test]
fn normalise_category_exact_values() {
    assert_eq!(normalise_category("  Reinforcement Learning  "), "reinforcement-learning");
    assert_eq!(normalise_category("Graph_Neural_Networks"), "graph-neural-networks");
    assert_eq!(normalise_category("\"multimodal-learning\"."), "multimodal-learning");
    assert_eq!(normalise_category("a / b \\ c"), "a-b-c");
    assert_eq!(normalise_category("   "), "");
}

#[test]
fn category_from_response_refuses_empty() {
    let err = category_from_response(&response(&["  \"\"  "])).unwrap_err();
    assert_eq!(err, "Gemini returned an empty category (raw: \"  \\\"\\\"  \")");
    let err = category_from_response(&GeminiResponse { candidates: vec![] }).unwrap_err();
    assert_eq!(err, "Gemini returned an empty category (raw: \"\")");
    assert_eq!(category_from_response(&response(&["Computer Vision"])).unwrap(), "computer-vision");
}

#[test]
fn strip_markdown_fence_variants() {
    assert_eq!(strip_markdown_fence("```md\n\nbody\n```"), "body");
    assert_eq!(strip_markdown_fence("```\nbody  \n```"), "body");
    assert_eq!(strip_markdown_fence("  text```  "), "text");
}

#[test]
fn sse_lines_are_drained_into_payloads() {
    let (payloads, rest) =
        drain_sse_lines("data: {\"a\":1}\n\nevent: x\ndata: [DONE]\n  data: {\"b\":2}  \ndata: part");
    assert_eq!(payloads, vec!["{\"a\":1}".to_string(), "{\"b\":2}".to_string()]);
    assert_eq!(rest, "data: part");
    let (none, all) = drain_sse_lines("no line end");
    assert!(none.is_empty());
    assert_eq!(all, "no line end");
}

#[test]
fn sse_chunk_text_reads_first_part() {
    let chunk = SseChunk {
        candidates: Some(vec![SseCandidate {
            content: Some(NsContent { parts: vec![NsPart { text: "delta".into() }] }),
        }]),
    };
    assert_eq!(sse_chunk_text(&chunk).as_deref(), Some("delta"));
    assert_eq!(sse_chunk_text(&SseChunk { candidates: None }), None);
    assert_eq!(sse_chunk_text(&SseChunk { candidates: Some(vec![SseCandidate { content: None }]) }), None);
}

#[test]
fn http_errors_hide_the_request() {
    assert!(format_gemini_http_error(401).contains("AI Studio"));
    assert_eq!(format_gemini_http_error(401), format_gemini_http_error(403));
    assert!(format_gemini_http_error(429).contains("429"));
    assert_eq!(format_gemini_http_error(500), "Gemini API 오류: HTTP 500");
    assert_eq!(format_gemini_http_error(0), "Gemini API 오류: HTTP 0");
}

#[test]
fn pdf_size_limit_is_twenty_mib() {
    assert!(pdf_size_check(20 * 1024 * 1024).is_ok());
    assert_eq!(
        pdf_size_check(20 * 1024 * 1024 + 1).unwrap_err(),
        "PDF is 20 MB \u{2014} Gemini inline limit is 20 MB. Split the file or use the File API."
    );
    assert!(pdf_size_check(35 * 1024 * 1024).unwrap_err().starts_with("PDF is 35 MB"));
}

#[test]
fn supplied_key_is_trimmed_or_refused() {
    assert_eq!(supplied_key("  abc  ").unwrap(), "abc");
    assert_eq!(supplied_key(" \t ").unwrap_err(), "API key must not be empty");
}

#[test]
fn sse_event_split_across_reads_is_read_once() {
    let whole = "data: {\"a\":1}\n\ndata: {\"b\":2}\ndata: tail";
    let (all, all_rest) = drain_sse_lines(whole);
    for cut in 0..=whole.len() {
        if !whole.is_char_boundary(cut) {
            continue;
        }
        let (first, rest) = drain_sse_lines(&whole[..cut]);
        let (second, rest2) = drain_sse_lines(&(rest + &whole[cut..]));
        let mut joined = first.clone();
        joined.extend(second);
        assert_eq!(joined, all, "cut at {cut}");
        assert_eq!(rest2, all_rest, "cut at {cut}");
    }
    assert_eq!(all, vec!["{\"a\":1}".to_string(), "{\"b\":2}".to_string()]);
    assert_eq!(all_rest, "data: tail");
}

#[test]
fn category_of_lowercase_joins_words_with_dashes() {
    assert_eq!(category_of_lowercase("large language_models/x"), "large-language-models-x");
    assert_eq!(category_of_lowercase("  nlp  "), "nlp");
    assert_eq!(category_of_lowercase("__"), "");
}

#[test]
fn sse_stream_reads_lines_across_chunks() {
    let mut st = SseStream::new();
    match st.feed(StreamEvent::Chunk("data: {\"a\":1}\n\ndata: par".into())) {
        StreamStep::Payloads(ps) => assert_eq!(ps, vec!["{\"a\":1}".to_string()]),
        s => panic!("unexpected {s:?}"),
    }
    assert_eq!(st.buf, "data: par");
    match st.feed(StreamEvent::Chunk("t\ndata: [DONE]\n".into())) {
        StreamStep::Payloads(ps) => assert_eq!(ps, vec!["part".to_string()]),
        s => panic!("unexpected {s:?}"),
    }
    assert!(!st.over);
    assert!(matches!(st.feed(StreamEvent::End), StreamStep::Done));
    assert!(st.over);
}

#[test]
fn sse_stream_read_error_ends_the_stream() {
    let mut st = SseStream::new();
    match st.feed(StreamEvent::ReadError("reset".into())) {
        StreamStep::Failed(m) => assert_eq!(m, "Stream read error: reset"),
        s => panic!("unexpected {s:?}"),
    }
    assert!(st.over);
}

#[test]
fn normalised_ascii_categories_are_lower_case_and_stable() {
    for raw in ["Machine Learning", "  \"NLP/Vision\". ", "A_B c", "__ / \\"] {
        let c = normalise_category(raw);
        assert!(!c.chars().any(|ch| ch.is_ascii_uppercase()));
        assert_eq!(c.to_lowercase(), c);
        assert_eq!(normalise_category(&c), c);
    }
    assert_eq!(normalise_category("__ / \\"), "");
    assert_eq!(normalise_category(" \t_ "), "");
}

#[test]
fn stream_setup_failures_are_reported_once() {
    for (ev, text) in [
        (StreamEvent::KeyFailed("no entry".into()), "Keychain error: no entry"),
        (StreamEvent::SendFailed("dns".into()), "Network error: dns"),
        (StreamEvent::StatusFailed("HTTP 403".into()), "Gemini API error: HTTP 403"),
    ] {
        let mut st = SseStream::new();
        match st.feed(ev) {
            StreamStep::Failed(m) => assert_eq!(m, text),
            s => panic!("unexpected {s:?}"),
        }
        assert!(st.over);
    }
}

#[test]
fn category_prompt_names_existing_categories_only_when_there_are_some() {
    assert_eq!(category_prompt("T", "A", "B", &vec![]), classify_prompt("T", "A", "B"));
    let existing = vec!["nlp".to_string(), "vision".to_string()];
    assert_eq!(
        category_prompt("T", "A", "B", &existing),
        classify_prompt_with_categories("T", "A", "B", &existing)
    );
    assert_ne!(category_prompt("T", "A", "B", &existing), classify_prompt("T", "A", "B"));
}

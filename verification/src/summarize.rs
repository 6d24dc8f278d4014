//! Summaries kept in a paper's frontmatter: splitting the frontmatter from
//! the body, reading a single-line scalar, escaping free text for a
//! double-quoted YAML scalar, and inserting or replacing the `summary:`
//! line.  What is sent to the model and what comes back are decided here
//! too; the request itself and the file access belong to the caller.
use vstd::prelude::*;

use crate::text::{
    chars_of, extend, find, find_from, occurs_at, find_chars_from, lines, lines_of, matches_at, skip_class,
    skip_class_in, starts_with, string_of, strip_prefix, trim, trim_span, trim_start_by,
    trim_start_chars, has_prefix, line_spans, span_views, nl, replace_char, replace_chars,
    collapse_ws, collapse_whitespace, views, CharClass, ends_cr, lemma_lines_single, one_line,
};

verus! {

// ── Splitting ──────────────────────────────────────────────────────────────

/// The view of an optional string slice.
pub open spec fn opt_str(o: Option<&str>) -> Option<Seq<char>> {
    match o {
        Some(x) => Some(x@),
        None => None,
    }
}

/// `s` without one leading `\n`.
pub open spec fn drop_newline(s: Seq<char>) -> Seq<char> {
    if s.len() > 0 && s[0] == '\n' {
        s.drop_first()
    } else {
        s
    }
}

pub open spec fn fm_open() -> Seq<char> {
    seq!['-', '-', '-']
}

pub open spec fn fm_close() -> Seq<char> {
    seq!['\n', '-', '-', '-']
}

/// `(yaml, body)` of a markdown document: after leading whitespace, a `---`
/// (and one `\n`), the yaml up to the first `\n---`, and the body after it
/// (less one `\n`).  Without such a block: no yaml, and the whole text.
pub open spec fn split_fm(md: Seq<char>) -> (Option<Seq<char>>, Seq<char>) {
    match strip_prefix(trim_start_by(md, CharClass::Whitespace), fm_open()) {
        None => (None, md),
        Some(a) => {
            let after = drop_newline(a);
            match find(after, fm_close()) {
                None => (None, md),
                Some(end) => (Some(after.take(end)), drop_newline(after.skip(end + 4))),
            }
        },
    }
}

/// Splits a markdown document into its frontmatter yaml and its body.
pub fn split_frontmatter(markdown: &str) -> (r: (Option<&str>, &str))
    ensures
        opt_str(r.0) == split_fm(markdown@).0,
        r.1@ == split_fm(markdown@).1,
{
    let ghost md = markdown@;
    let s = chars_of(markdown);
    let n = s.len();
    let lead = skip_class(s.as_slice(), 0, CharClass::Whitespace);
    let open: [char; 3] = ['-', '-', '-'];
    let close: [char; 4] = ['\n', '-', '-', '-'];
    assert(open@ =~= fm_open());
    assert(close@ =~= fm_close());
    let ghost trimmed = md.skip(lead as int);
    if !matches_at(s.as_slice(), lead, open.as_slice()) {
        proof {
            if starts_with(trimmed, fm_open()) {
                assert(trimmed.subrange(0, 3) =~= md.subrange(lead as int, lead + 3));
            }
        }
        return (None, markdown);
    }
    proof {
        assert(trimmed.subrange(0, 3) =~= md.subrange(lead as int, lead + 3));
    }
    let mut a = lead + 3;
    if a < n && s[a] == '\n' {
        a = a + 1;
    }
    proof {
        let t = trimmed.skip(3);
        if t.len() > 0 && t[0] == '\n' {
            assert(t.drop_first() =~= md.skip(a as int));
        } else {
            assert(t =~= md.skip(a as int));
        }
        crate::text::lemma_find_from_skip(md, fm_close(), a as int, 0);
        crate::text::lemma_find_from(md, fm_close(), a as int);
    }
    match find_chars_from(s.as_slice(), close.as_slice(), a) {
        None => (None, markdown),
        Some(end) => {
            let mut r = end + 4;
            if r < n && s[r] == '\n' {
                r = r + 1;
            }
            let y = markdown.substring_char(a, end);
            let b = markdown.substring_char(r, n);
            proof {
                let after = md.skip(a as int);
                assert(after.take(end - a) =~= md.subrange(a as int, end as int));
                let rest = after.skip(end - a + 4);
                if rest.len() > 0 && rest[0] == '\n' {
                    assert(rest.drop_first() =~= md.subrange(r as int, n as int));
                } else {
                    assert(rest =~= md.subrange(r as int, n as int));
                }
            }
            (Some(y), b)
        },
    }
}

// ── Reading a scalar ──────────────────────────────────────────────────────

/// `v` without one pair of wrapping double quotes.
pub open spec fn unquote(v: Seq<char>) -> Seq<char> {
    if v.len() >= 2 && v[0] == '"' && v.last() == '"' {
        v.subrange(1, v.len() - 1)
    } else {
        v
    }
}

/// The value on the first line whose trimmed start begins with `needle`:
/// what follows it, trimmed and unquoted.
pub open spec fn scalar_in(ls: Seq<Seq<char>>, needle: Seq<char>) -> Option<Seq<char>>
    decreases ls.len(),
{
    if ls.len() == 0 {
        None
    } else {
        match strip_prefix(trim_start_by(ls[0], CharClass::Whitespace), needle) {
            Some(rest) => Some(unquote(trim(rest))),
            None => scalar_in(ls.drop_first(), needle),
        }
    }
}

/// The scalar of `key` in a yaml block.
pub open spec fn yaml_value(yaml: Seq<char>, key: Seq<char>) -> Option<Seq<char>> {
    scalar_in(lines(yaml), key.push(':'))
}

/// Reads the single-line scalar of `key:` from a yaml block.
#[verifier::rlimit(30)]
pub fn yaml_scalar<'a>(yaml: &'a str, key: &str) -> (r: Option<&'a str>)
    ensures
        opt_str(r) == yaml_value(yaml@, key@),
{
    let s = chars_of(yaml);
    let mut needle = chars_of(key);
    needle.push(':');
    let spans = line_spans(s.as_slice());
    let ghost ls = lines(s@);
    let mut i: usize = 0;
    assert(ls.skip(0) =~= ls);
    while i < spans.len()
        invariant
            i <= spans.len(),
            s@ == yaml@,
            needle@ == key@.push(':'),
            span_views(s@, spans@) == ls,
            ls == lines(s@),
            forall|j: int| 0 <= j < spans@.len() ==> (#[trigger] spans@[j]).0 <= spans@[j].1 <= s@.len(),
            scalar_in(ls, needle@) == scalar_in(ls.skip(i as int), needle@),
        decreases spans.len() - i,
    {
        let (st, en) = spans[i];
        let ghost line = s@.subrange(st as int, en as int);
        proof {
            let t = ls.skip(i as int);
            assert(t[0] == line);
            assert(t.drop_first() =~= ls.skip(i + 1));
        }
        let lead = skip_class_in(s.as_slice(), st, en, CharClass::Whitespace);
        let ghost tl = s@.subrange(lead as int, en as int);
        assert(trim_start_by(line, CharClass::Whitespace) =~= tl);
        if needle.len() <= en - lead && matches_at(s.as_slice(), lead, needle.as_slice()) {
            let (c, d) = trim_span(s.as_slice(), lead + needle.len(), en);
            proof {
                assert(tl.subrange(0, needle@.len() as int) =~= s@.subrange(
                    lead as int,
                    lead + needle@.len(),
                ));
                assert(tl.skip(needle@.len() as int) =~= s@.subrange(
                    lead + needle@.len(),
                    en as int,
                ));
            }
            let ghost v = s@.subrange(c as int, d as int);
            if d - c >= 2 && s[c] == '"' && s[d - 1] == '"' {
                assert(v.subrange(1, v.len() - 1) =~= s@.subrange(c + 1, d - 1));
                return Some(yaml.substring_char(c + 1, d - 1));
            }
            return Some(yaml.substring_char(c, d));
        }
        proof {
            if starts_with(tl, needle@) {
                assert(tl.subrange(0, needle@.len() as int) =~= s@.subrange(
                    lead as int,
                    lead + needle@.len(),
                ));
            }
        }
        i += 1;
    }
    assert(ls.skip(i as int) =~= Seq::<Seq<char>>::empty());
    None
}

// ── Escaping ──────────────────────────────────────────────────────────────

/// Free text as a double-quoted single-line scalar holds it: line breaks
/// become spaces, runs of whitespace collapse to one space with none at
/// either end, and `"` becomes `”`.
pub open spec fn escape_yaml(s: Seq<char>) -> Seq<char> {
    replace_char(
        collapse_ws(replace_char(replace_char(s, '\r', ' '), '\n', ' ')),
        '"',
        '\u{201D}',
    )
}

/// Escapes free text for a double-quoted single-line YAML scalar.
pub fn escape_for_yaml(s: &str) -> (r: String)
    ensures
        r@ == escape_yaml(s@),
{
    let v = chars_of(s);
    let a = replace_chars(v.as_slice(), '\r', ' ');
    let b = replace_chars(a.as_slice(), '\n', ' ');
    let c = collapse_whitespace(b.as_slice());
    let d = replace_chars(c.as_slice(), '"', '\u{201D}');
    string_of(d.as_slice())
}

// ── Writing the summary line ──────────────────────────────────────────────

/// The `summary:` line that holds `summary`.
pub open spec fn summary_line(summary: Seq<char>) -> Seq<char> {
    "summary: \""@ + escape_yaml(summary) + seq!['"']
}

/// A line that already holds a summary.
pub open spec fn is_summary_line(line: Seq<char>) -> bool {
    starts_with(trim_start_by(line, CharClass::Whitespace), "summary:"@)
}

/// Each line followed by `\n`, a summary line replaced by `new_line`.
pub open spec fn rebuilt_lines(ls: Seq<Seq<char>>, new_line: Seq<char>) -> Seq<char>
    decreases ls.len(),
{
    if ls.len() == 0 {
        seq![]
    } else {
        rebuilt_lines(ls.drop_last(), new_line) + (if is_summary_line(ls.last()) {
            new_line
        } else {
            ls.last()
        }) + nl()
    }
}

/// Some line holds a summary.
pub open spec fn has_summary_line(ls: Seq<Seq<char>>) -> bool {
    exists|i: int| 0 <= i < ls.len() && #[trigger] is_summary_line(ls[i])
}

/// The yaml block with its summary lines replaced, or with `new_line`
/// added at its end when it has none.
pub open spec fn rebuilt_yaml(yaml: Seq<char>, new_line: Seq<char>) -> Seq<char> {
    let ls = lines(yaml);
    if has_summary_line(ls) {
        rebuilt_lines(ls, new_line)
    } else {
        rebuilt_lines(ls, new_line) + new_line + nl()
    }
}

/// The document with `summary` written into its frontmatter; a document
/// without frontmatter gets one that holds only the summary.
pub open spec fn upserted(md: Seq<char>, summary: Seq<char>) -> Seq<char> {
    let new_line = summary_line(summary);
    match split_fm(md) {
        (Some(yaml), body) => "---\n"@ + rebuilt_yaml(yaml, new_line) + "---\n"@ + (if starts_with(
            body,
            nl(),
        ) {
            body
        } else {
            nl() + body
        }),
        (None, _) => "---\n"@ + new_line + "\n---\n\n"@ + trim_start_by(md, CharClass::Whitespace),
    }
}

/// Inserts or replaces the `summary:` line of a document's frontmatter.
pub fn upsert_summary(markdown: &str, summary: &str) -> (r: String)
    ensures
        r@ == upserted(markdown@, summary@),
{
    let escaped = escape_for_yaml(summary);
    let mut new_line = chars_of("summary: \"");
    let e = chars_of(escaped.as_str());
    extend(&mut new_line, e.as_slice());
    new_line.push('"');
    assert(new_line@ =~= summary_line(summary@));
    let (yaml_opt, body) = split_frontmatter(markdown);
    match yaml_opt {
        None => {
            let mut out = chars_of("---\n");
            extend(&mut out, new_line.as_slice());
            let mid = chars_of("\n---\n\n");
            extend(&mut out, mid.as_slice());
            let m = chars_of(markdown);
            let t = trim_start_chars(m.as_slice(), CharClass::Whitespace);
            extend(&mut out, t.as_slice());
            string_of(out.as_slice())
        },
        Some(yaml) => {
            let y = chars_of(yaml);
            let ls = lines_of(y.as_slice());
            let ghost lv = views(ls@);
            let key = chars_of("summary:");
            let mut rebuilt: Vec<char> = Vec::new();
            let mut found = false;
            let mut i: usize = 0;
            while i < ls.len()
                invariant
                    i <= ls.len(),
                    lv == views(ls@),
                    lv == lines(yaml@),
                    key@ == "summary:"@,
                    new_line@ == summary_line(summary@),
                    rebuilt@ == rebuilt_lines(lv.take(i as int), new_line@),
                    found == has_summary_line(lv.take(i as int)),
                decreases ls.len() - i,
            {
                let ghost prev = lv.take(i as int);
                proof {
                    assert(lv.take(i + 1).drop_last() =~= prev);
                    assert(lv.take(i + 1).last() == ls@[i as int]@);
                }
                let t = trim_start_chars(ls[i].as_slice(), CharClass::Whitespace);
                let hit = has_prefix(t.as_slice(), key.as_slice());
                if hit {
                    extend(&mut rebuilt, new_line.as_slice());
                    found = true;
                } else {
                    extend(&mut rebuilt, ls[i].as_slice());
                }
                rebuilt.push('\n');
                proof {
                    let next = lv.take(i + 1);
                    if hit {
                        assert(is_summary_line(next[i as int]));
                    } else if found {
                        let j = choose|j: int| 0 <= j < prev.len() && #[trigger] is_summary_line(prev[j]);
                        assert(next[j] == prev[j]);
                    }
                    if has_summary_line(next) && !hit {
                        let j = choose|j: int| 0 <= j < next.len() && #[trigger] is_summary_line(next[j]);
                        assert(j < i);
                        assert(prev[j] == next[j]);
                    }
                }
                i += 1;
            }
            assert(lv.take(ls.len() as int) =~= lv);
            if !found {
                extend(&mut rebuilt, new_line.as_slice());
                rebuilt.push('\n');
            }
            let mut out = chars_of("---\n");
            extend(&mut out, rebuilt.as_slice());
            let close = chars_of("---\n");
            extend(&mut out, close.as_slice());
            let b = chars_of(body);
            if !(b.len() > 0 && b[0] == '\n') {
                out.push('\n');
            }
            extend(&mut out, b.as_slice());
            proof {
                assert(starts_with(b@, nl()) == (b@.len() > 0 && b@[0] == '\n')) by {
                    if b@.len() > 0 {
                        assert(b@.subrange(0, 1) =~= seq![b@[0]]);
                        if starts_with(b@, nl()) {
                            assert(b@.subrange(0, 1)[0] == nl()[0]);
                        }
                        if b@[0] == '\n' {
                            assert(b@.subrange(0, 1) =~= nl());
                        }
                    }
                }
            }
            string_of(out.as_slice())
        },
    }
}

// ── Preparing the request and reading the reply ───────────────────────────

/// How many body characters go to the model.
pub const SUMMARY_BODY_CHARS: usize = 6000;

/// The instructions that open the prompt, up to the title.
pub const SUMMARY_INSTRUCTIONS: &'static str = "You are a research-note assistant.  Summarise the following paper in 5\u{2013}8 sentences of fluent English.  Rules:\n- Write in English only; use plain prose (no bullets, no numbering).\n- Cover: the core problem, the proposed method, the main contributions, and the significance of the results \u{2014} in that order.\n- If the body excerpt is short, infer from the abstract alone.\n- Output plain text only \u{2014} no markdown, no headings, no preamble.\n\nTitle: ";

/// The answer when a paper offers nothing to summarise.
pub const NOTHING_TO_SUMMARISE: &'static str = "Nothing to summarise \u{2014} title, abstract, and body are all empty. Please fill in the abstract in Zotero first.";

/// The answer when the model's reply is blank.
pub const EMPTY_SUMMARY: &'static str = "Gemini returned an empty response.";

/// What the summary of a paper is asked from.
pub struct SummaryRequest {
    pub title: String,
    pub abstract_text: String,
    pub body_excerpt: String,
}

/// What a summary run hands back to the caller.
pub struct SummaryResult {
    /// The new summary text written to the file's frontmatter.
    pub summary: String,
}

pub open spec fn or_empty(o: Option<Seq<char>>) -> Seq<char> {
    match o {
        Some(v) => v,
        None => seq![],
    }
}

/// The frontmatter yaml of a document (empty without one).
pub open spec fn fm_yaml(md: Seq<char>) -> Seq<char> {
    or_empty(split_fm(md).0)
}

pub open spec fn summary_title(md: Seq<char>) -> Seq<char> {
    trim(or_empty(yaml_value(fm_yaml(md), "title"@)))
}

pub open spec fn summary_abstract(md: Seq<char>) -> Seq<char> {
    trim(or_empty(yaml_value(fm_yaml(md), "abstract"@)))
}

/// The first `SUMMARY_BODY_CHARS` characters of the body.
pub open spec fn summary_excerpt(md: Seq<char>) -> Seq<char> {
    let b = split_fm(md).1;
    if b.len() <= SUMMARY_BODY_CHARS {
        b
    } else {
        b.take(SUMMARY_BODY_CHARS as int)
    }
}

/// Title, abstract and body excerpt are all blank.
pub open spec fn nothing_to_summarise(md: Seq<char>) -> bool {
    summary_title(md).len() == 0 && summary_abstract(md).len() == 0 && trim(
        summary_excerpt(md),
    ).len() == 0
}

/// Reads what a summary is asked from out of a paper's markdown, or
/// refuses when there is nothing to summarise.
pub fn summary_request(document: &str) -> (r: Result<SummaryRequest, String>)
    ensures
        match r {
            Ok(q) => {
                &&& !nothing_to_summarise(document@)
                &&& q.title@ == summary_title(document@)
                &&& q.abstract_text@ == summary_abstract(document@)
                &&& q.body_excerpt@ == summary_excerpt(document@)
            },
            Err(e) => nothing_to_summarise(document@) && e@ == NOTHING_TO_SUMMARISE@,
        },
{
    let (yaml_opt, body) = split_frontmatter(document);
    let empty = "";
    proof {
        reveal_strlit("");
    }
    let yaml = match yaml_opt {
        Some(y) => y,
        None => empty,
    };
    assert(yaml@ == fm_yaml(document@));
    let title = match yaml_scalar(yaml, "title") {
        Some(t) => crate::text::trim_str(t),
        None => crate::text::trim_str(empty),
    };
    let abstract_text = match yaml_scalar(yaml, "abstract") {
        Some(t) => crate::text::trim_str(t),
        None => crate::text::trim_str(empty),
    };
    let b = chars_of(body);
    let n = if b.len() <= SUMMARY_BODY_CHARS {
        b.len()
    } else {
        SUMMARY_BODY_CHARS
    };
    let ex = crate::text::slice_chars(b.as_slice(), 0, n);
    assert(ex@ =~= summary_excerpt(document@));
    let t = crate::text::trim_chars(ex.as_slice(), CharClass::Whitespace);
    if title.as_str().is_empty() && abstract_text.as_str().is_empty() && t.len() == 0 {
        return Err(NOTHING_TO_SUMMARISE.to_owned());
    }
    let body_excerpt = string_of(ex.as_slice());
    Ok(SummaryRequest { title, abstract_text, body_excerpt })
}

/// The prompt that asks for a summary.
pub open spec fn summary_prompt_text(
    title: Seq<char>,
    abstract_text: Seq<char>,
    body_excerpt: Seq<char>,
) -> Seq<char> {
    SUMMARY_INSTRUCTIONS@ + title + "\n\nAbstract: "@ + abstract_text + "\n\nBody excerpt:\n"@
        + body_excerpt
}

/// Builds the prompt that asks for a summary.
pub fn summary_prompt(q: &SummaryRequest) -> (p: String)
    ensures
        p@ == summary_prompt_text(q.title@, q.abstract_text@, q.body_excerpt@),
{
    let mut v = chars_of(SUMMARY_INSTRUCTIONS);
    let t = chars_of(q.title.as_str());
    extend(&mut v, t.as_slice());
    let a_head = chars_of("\n\nAbstract: ");
    extend(&mut v, a_head.as_slice());
    let a = chars_of(q.abstract_text.as_str());
    extend(&mut v, a.as_slice());
    let b_head = chars_of("\n\nBody excerpt:\n");
    extend(&mut v, b_head.as_slice());
    let b = chars_of(q.body_excerpt.as_str());
    extend(&mut v, b.as_slice());
    string_of(v.as_slice())
}

/// The summary in the model's reply: the reply trimmed, refused when blank.
pub fn summary_reply(text: &str) -> (r: Result<SummaryResult, String>)
    ensures
        match r {
            Ok(s) => trim(text@).len() > 0 && s.summary@ == trim(text@),
            Err(e) => trim(text@).len() == 0 && e@ == EMPTY_SUMMARY@,
        },
{
    let t = crate::text::trim_str(text);
    if t.as_str().is_empty() {
        return Err(EMPTY_SUMMARY.to_owned());
    }
    Ok(SummaryResult { summary: t })
}

/// The summary in a reply: the text of its first part, trimmed; refused
/// when blank or missing.
pub fn summary_from_response(resp: &crate::gemini::GeminiResponse) -> (r: Result<SummaryResult, String>)
    ensures
        match r {
            Ok(s) => trim(crate::gemini::reply_text(*resp)).len() > 0 && s.summary@ == trim(
                crate::gemini::reply_text(*resp),
            ),
            Err(e) => trim(crate::gemini::reply_text(*resp)).len() == 0 && e@ == EMPTY_SUMMARY@,
        },
{
    match crate::gemini::extract_ns_text(resp) {
        Some(t) => summary_reply(t.as_str()),
        None => {
            proof {
                reveal_strlit("");
            }
            summary_reply("")
        },
    }
}

// ── Reading back what was written ─────────────────────────────────────────

/// `s` holds no `\n---`.
pub(crate) open spec fn no_close(s: Seq<char>) -> bool {
    forall|m: int| !occurs_at(s, fm_close(), m)
}

/// Each piece followed by `\n`.
spec fn joined(ps: Seq<Seq<char>>) -> Seq<char>
    decreases ps.len(),
{
    if ps.len() == 0 {
        seq![]
    } else {
        ps[0] + nl() + joined(ps.drop_first())
    }
}

spec fn piece(l: Seq<char>, new_line: Seq<char>) -> Seq<char> {
    if is_summary_line(l) {
        new_line
    } else {
        l
    }
}

spec fn pieces(ls: Seq<Seq<char>>, new_line: Seq<char>) -> Seq<Seq<char>> {
    ls.map_values(|l: Seq<char>| piece(l, new_line))
}

/// The first occurrence at or after `i` is the witness `j`.
proof fn lemma_find_at(s: Seq<char>, p: Seq<char>, i: int, j: int)
    requires
        0 <= i <= j,
        occurs_at(s, p, j),
        forall|m: int| i <= m < j ==> !occurs_at(s, p, m),
    ensures
        find_from(s, p, i) == Some(j),
    decreases j - i,
{
    if i < j {
        lemma_find_at(s, p, i + 1, j);
    }
}

/// No occurrence at or after `i`.
proof fn lemma_find_none(s: Seq<char>, p: Seq<char>, i: int)
    requires
        0 <= i,
        forall|m: int| i <= m ==> !occurs_at(s, p, m),
    ensures
        find_from(s, p, i) is None,
    decreases s.len() + 1 - i,
{
    if i + p.len() <= s.len() {
        lemma_find_none(s, p, i + 1);
    }
}

/// Skipping a stretch without occurrences does not change the search.
proof fn lemma_find_skip_none(s: Seq<char>, p: Seq<char>, i: int, j: int)
    requires
        0 <= i <= j,
        forall|m: int| i <= m < j ==> !occurs_at(s, p, m),
    ensures
        find_from(s, p, i) == find_from(s, p, j),
    decreases j - i,
{
    if i < j {
        lemma_find_skip_none(s, p, i + 1, j);
    }
}

proof fn lemma_lines_cons(a: Seq<char>, x: Seq<char>)
    requires
        one_line(a),
    ensures
        lines(a + nl() + x) == seq![crate::text::strip_cr(a)] + lines(x),
{
    let s = a + nl() + x;
    assert(s.subrange(a.len() as int, a.len() as int + 1) =~= nl());
    assert forall|m: int| 0 <= m < a.len() implies !occurs_at(s, nl(), m) by {
        if occurs_at(s, nl(), m) {
            assert(s.subrange(m, m + 1)[0] == s[m]);
            assert(s[m] == a[m]);
        }
    }
    lemma_find_at(s, nl(), 0, a.len() as int);
    assert(s.take(a.len() as int) =~= a);
    assert(s.skip(a.len() as int + 1) =~= x);
}

proof fn lemma_joined_push(ps: Seq<Seq<char>>, x: Seq<char>)
    ensures
        joined(ps.push(x)) == joined(ps) + x + nl(),
    decreases ps.len(),
{
    if ps.len() == 0 {
        assert(ps.push(x).drop_first() =~= Seq::<Seq<char>>::empty());
        assert(joined(Seq::<Seq<char>>::empty()) == Seq::<char>::empty());
        assert(joined(ps.push(x)) =~= x + nl());
    } else {
        assert(ps.push(x).drop_first() =~= ps.drop_first().push(x));
        lemma_joined_push(ps.drop_first(), x);
        assert(ps[0] + nl() + (joined(ps.drop_first()) + x + nl()) =~= (ps[0] + nl() + joined(
            ps.drop_first(),
        )) + x + nl());
    }
}

proof fn lemma_rebuilt_joined(ls: Seq<Seq<char>>, new_line: Seq<char>)
    ensures
        rebuilt_lines(ls, new_line) == joined(pieces(ls, new_line)),
    decreases ls.len(),
{
    if ls.len() > 0 {
        lemma_rebuilt_joined(ls.drop_last(), new_line);
        assert(pieces(ls, new_line) =~= pieces(ls.drop_last(), new_line).push(
            piece(ls.last(), new_line),
        ));
        lemma_joined_push(pieces(ls.drop_last(), new_line), piece(ls.last(), new_line));
    } else {
        assert(pieces(ls, new_line) =~= Seq::<Seq<char>>::empty());
    }
}

/// Without `\n---` in a text, no line but the first starts with `---`.
pub(crate) proof fn lemma_later_lines_open(s: Seq<char>)
    requires
        no_close(s),
    ensures
        forall|j: int| 1 <= j < lines(s).len() ==> !starts_with(#[trigger] lines(s)[j], fm_open()),
    decreases s.len(),
{
    if s.len() > 0 {
        crate::text::lemma_find_from(s, nl(), 0);
        match find(s, nl()) {
            Some(i) => {
                let t = s.skip(i + 1);
                assert forall|m: int| !occurs_at(t, fm_close(), m) by {
                    if occurs_at(t, fm_close(), m) {
                        assert(t.subrange(m, m + 4) =~= s.subrange(m + i + 1, m + i + 5));
                        assert(occurs_at(s, fm_close(), m + i + 1));
                    }
                }
                lemma_later_lines_open(t);
                assert forall|j: int| 1 <= j < lines(s).len() implies !starts_with(
                    #[trigger] lines(s)[j],
                    fm_open(),
                ) by {
                    assert(lines(s)[j] == lines(t)[j - 1]);
                    if j == 1 && starts_with(lines(t)[0], fm_open()) {
                        crate::text::lemma_first_line_prefix(t);
                        let l0 = lines(t)[0];
                        assert(t.take(l0.len() as int) == l0);
                        assert(s.subrange(i as int, i + 1)[0] == '\n');
                        assert(l0.subrange(0, 3)[0] == '-');
                        assert(l0.subrange(0, 3)[1] == '-');
                        assert(l0.subrange(0, 3)[2] == '-');
                        assert(t[0] == l0[0] && t[1] == l0[1] && t[2] == l0[2]);
                        assert(s.subrange(i as int, i + 4) =~= fm_close());
                        assert(occurs_at(s, fm_close(), i as int));
                    }
                }
            },
            None => {},
        }
    }
}

/// A frontmatter block holds no `\n---`.
proof fn lemma_yaml_no_close(md: Seq<char>)
    requires
        split_fm(md).0 is Some,
    ensures
        no_close(split_fm(md).0->0),
{
    match strip_prefix(trim_start_by(md, CharClass::Whitespace), fm_open()) {
        Some(a) => {
            let after = drop_newline(a);
            crate::text::lemma_find_from(after, fm_close(), 0);
            match find(after, fm_close()) {
                Some(end) => {
                    let y = after.take(end);
                    assert(split_fm(md).0 == Some(y));
                    assert forall|m: int| !occurs_at(y, fm_close(), m) by {
                        if occurs_at(y, fm_close(), m) {
                            assert(y.subrange(m, m + 4) =~= after.subrange(m, m + 4));
                            assert(occurs_at(after, fm_close(), m));
                        }
                    }
                },
                None => {},
            }
        },
        None => {},
    }
}

/// Dropping a final `\r` keeps a line that holds no summary so.
proof fn lemma_strip_cr_summary(l: Seq<char>)
    requires
        !is_summary_line(l),
    ensures
        !is_summary_line(crate::text::strip_cr(l)),
{
    reveal_strlit("summary:");
    let c = crate::text::strip_cr(l);
    if c != l && is_summary_line(c) {
        let k = crate::text::lead_len(c, CharClass::Whitespace);
        crate::text::lemma_lead_len_bound(c, CharClass::Whitespace);
        let tc = c.skip(k as int);
        assert(tc.subrange(0, 8)[0] == 's');
        assert(c[k as int] == 's');
        assert forall|j: int| 0 <= j < k implies crate::text::in_class(
            CharClass::Whitespace,
            #[trigger] l[j],
        ) by {
            assert(l[j] == c[j]);
        }
        assert(l[k as int] == c[k as int]);
        crate::text::lemma_lead_len(l, CharClass::Whitespace, k as int);
        let tl = l.skip(k as int);
        assert(tl.subrange(0, 8) =~= tc.subrange(0, 8));
    }
}

/// The escaped text is one line without double quotes: every character is
/// a space or not whitespace at all, and none is `"`.
pub proof fn lemma_escape_single_line(s: Seq<char>)
    ensures
        forall|i: int|
            0 <= i < escape_yaml(s).len() ==> (#[trigger] escape_yaml(s)[i] == ' '
                || !crate::text::is_ws(escape_yaml(s)[i])) && escape_yaml(s)[i] != '"',
        forall|i: int|
            0 <= i < escape_yaml(s).len() ==> #[trigger] escape_yaml(s)[i] != '\n'
                && escape_yaml(s)[i] != '\r',
{
    let x = replace_char(replace_char(s, '\r', ' '), '\n', ' ');
    lemma_words_nonws(x);
    lemma_join_spaced(crate::text::words(x));
}

proof fn lemma_words_nonws(s: Seq<char>)
    ensures
        forall|j: int, k: int|
            0 <= j < crate::text::words(s).len() && 0 <= k < crate::text::words(s)[j].len()
                ==> !crate::text::is_ws(#[trigger] crate::text::words(s)[j][k]),
    decreases s.len(),
{
    if s.len() > 0 {
        if crate::text::is_ws(s[0]) {
            lemma_words_nonws(s.drop_first());
            assert(crate::text::words(s) == crate::text::words(s.drop_first()));
        } else {
            let n = crate::text::lead_len(s, CharClass::NonWhitespace);
            crate::text::lemma_lead_len_bound(s, CharClass::NonWhitespace);
            lemma_words_nonws(s.skip(n as int));
            let ws = crate::text::words(s);
            assert forall|j: int, k: int|
                0 <= j < ws.len() && 0 <= k < ws[j].len() implies !crate::text::is_ws(
                #[trigger] ws[j][k],
            ) by {
                if j == 0 {
                    assert(ws[0] == s.take(n as int));
                    assert(ws[0][k] == s[k]);
                } else {
                    assert(ws[j] == crate::text::words(s.skip(n as int))[j - 1]);
                }
            }
        }
    }
}

proof fn lemma_join_spaced(ws: Seq<Seq<char>>)
    requires
        forall|j: int, k: int|
            0 <= j < ws.len() && 0 <= k < ws[j].len() ==> !crate::text::is_ws(#[trigger] ws[j][k]),
    ensures
        forall|i: int|
            0 <= i < crate::text::join(ws, seq![' ']).len() ==> (#[trigger] crate::text::join(
                ws,
                seq![' '],
            )[i] == ' ' || !crate::text::is_ws(crate::text::join(ws, seq![' '])[i])),
    decreases ws.len(),
{
    if ws.len() > 1 {
        let rest = ws.drop_first();
        assert forall|j: int, k: int|
            0 <= j < rest.len() && 0 <= k < rest[j].len() implies !crate::text::is_ws(
            #[trigger] rest[j][k],
        ) by {
            assert(rest[j] == ws[j + 1]);
        }
        lemma_join_spaced(rest);
        let jn = crate::text::join(ws, seq![' ']);
        let w0 = ws[0];
        assert forall|i: int| 0 <= i < jn.len() implies (#[trigger] jn[i] == ' '
            || !crate::text::is_ws(jn[i])) by {
            if i < w0.len() {
                assert(jn[i] == w0[i]);
            } else if i == w0.len() {
            } else {
                assert(jn[i] == crate::text::join(rest, seq![' '])[i - w0.len() - 1]);
            }
        }
    } else if ws.len() == 1 {
        assert forall|i: int| 0 <= i < ws[0].len() implies !crate::text::is_ws(#[trigger] ws[0][i]) by {
        }
    }
}

/// In the pieces joined and followed by a text that starts with `---`, the
/// first `\n---` is the last piece's line end.
proof fn lemma_find_joined(ps: Seq<Seq<char>>, t: Seq<char>)
    requires
        ps.len() > 0,
        forall|i: int| 0 <= i < ps.len() ==> one_line(#[trigger] ps[i]),
        forall|i: int| 1 <= i < ps.len() ==> !starts_with(#[trigger] ps[i], fm_open()),
        starts_with(t, fm_open()),
    ensures
        joined(ps).len() > 0,
        find(joined(ps) + t, fm_close()) == Some(joined(ps).len() - 1),
    decreases ps.len(),
{
    let p0 = ps[0];
    let rest = ps.drop_first();
    let k = p0.len() as int;
    let u = joined(rest) + t;
    let s = joined(ps) + t;
    assert(s =~= p0 + nl() + u);
    assert forall|m: int| 0 <= m < k implies !occurs_at(s, fm_close(), m) by {
        if occurs_at(s, fm_close(), m) {
            assert(s.subrange(m, m + 4)[0] == s[m]);
            assert(s[m] == p0[m]);
        }
    }
    assert(s[k] == '\n');
    if rest.len() == 0 {
        assert(joined(rest) == Seq::<char>::empty());
        assert(u =~= t);
        assert(s.subrange(k, k + 4) =~= fm_close()) by {
            assert(t.subrange(0, 3) =~= fm_open());
            assert(s.subrange(k, k + 4)[1] == t[0]);
            assert(s.subrange(k, k + 4)[2] == t[1]);
            assert(s.subrange(k, k + 4)[3] == t[2]);
        }
        lemma_find_at(s, fm_close(), 0, k);
    } else {
        assert forall|i: int| 0 <= i < rest.len() implies one_line(#[trigger] rest[i]) by {
            assert(rest[i] == ps[i + 1]);
        }
        assert forall|i: int| 1 <= i < rest.len() implies !starts_with(#[trigger] rest[i], fm_open()) by {
            assert(rest[i] == ps[i + 1]);
        }
        lemma_find_joined(rest, t);
        let p1 = rest[0];
        assert(!starts_with(p1, fm_open())) by {
            assert(p1 == ps[1]);
        }
        assert(u =~= p1 + nl() + (joined(rest.drop_first()) + t));
        assert(!occurs_at(s, fm_close(), k)) by {
            if occurs_at(s, fm_close(), k) {
                assert(s.subrange(k, k + 4)[1] == u[0]);
                assert(s.subrange(k, k + 4)[2] == u[1]);
                assert(s.subrange(k, k + 4)[3] == u[2]);
                if p1.len() >= 3 {
                    assert(p1.subrange(0, 3) =~= fm_open());
                } else {
                    assert(u[p1.len() as int] == '\n');
                }
            }
        }
        crate::text::lemma_find_from_skip(s, fm_close(), k + 1, 0);
        assert(s.skip(k + 1) =~= u);
        lemma_find_skip_none(s, fm_close(), 0, k + 1);
    }
}

/// A document that opens with `---\n`, the pieces and `---\n` has the
/// pieces, less the last line end, as its frontmatter.
proof fn lemma_split_joined(ps: Seq<Seq<char>>, b: Seq<char>)
    requires
        ps.len() > 0,
        forall|i: int| 0 <= i < ps.len() ==> one_line(#[trigger] ps[i]),
        forall|i: int| 1 <= i < ps.len() ==> !starts_with(#[trigger] ps[i], fm_open()),
    ensures
        joined(ps).len() > 0,
        split_fm("---\n"@ + joined(ps) + "---\n"@ + b).0 == Some(joined(ps).drop_last()),
        split_fm("---\n"@ + joined(ps) + "---\n"@ + b).1 == b,
{
    reveal_strlit("---\n");
    let j = joined(ps);
    let t = "---\n"@ + b;
    assert(t.subrange(0, 3) =~= fm_open());
    lemma_find_joined(ps, t);
    let out = "---\n"@ + j + "---\n"@ + b;
    crate::text::lemma_lead_len(out, CharClass::Whitespace, 0);
    assert(trim_start_by(out, CharClass::Whitespace) =~= out);
    assert(out.subrange(0, 3) =~= fm_open());
    let a = out.skip(3);
    assert(a[0] == '\n');
    assert(a.drop_first() =~= j + t);
    assert((j + t).take(j.len() - 1) =~= j.drop_last());
    assert((j + t).skip(j.len() - 1 + 4) =~= nl() + b);
    assert((nl() + b).drop_first() =~= b);
}

/// Reading the scalar from the joined pieces reads it from the pieces.
proof fn lemma_scalar_joined(ps: Seq<Seq<char>>)
    requires
        ps.len() > 0,
        forall|i: int| 0 <= i < ps.len() ==> one_line(#[trigger] ps[i]),
        forall|i: int|
            0 <= i < ps.len() && is_summary_line(#[trigger] ps[i]) ==> crate::text::strip_cr(ps[i])
                == ps[i],
        forall|i: int|
            0 <= i < ps.len() && !is_summary_line(#[trigger] ps[i]) ==> !is_summary_line(
                crate::text::strip_cr(ps[i]),
            ),
    ensures
        scalar_in(lines(joined(ps).drop_last()), "summary:"@) == scalar_in(ps, "summary:"@),
    decreases ps.len(),
{
    let p0 = ps[0];
    let rest = ps.drop_first();
    if rest.len() == 0 {
        assert(joined(rest) == Seq::<char>::empty());
        assert(joined(ps).drop_last() =~= p0);
        assert(scalar_in(rest, "summary:"@) == None::<Seq<char>>);
        assert(ps =~= seq![p0]);
        if p0.len() > 0 {
            lemma_lines_single(p0);
            assert(lines(joined(ps).drop_last()) == ps);
        } else {
            reveal_strlit("summary:");
            assert(lines(p0) == Seq::<Seq<char>>::empty());
            assert(trim_start_by(p0, CharClass::Whitespace) =~= p0);
        }
    } else {
        assert forall|i: int| 0 <= i < rest.len() implies one_line(#[trigger] rest[i]) by {
            assert(rest[i] == ps[i + 1]);
        }
        assert forall|i: int|
            0 <= i < rest.len() && is_summary_line(#[trigger] rest[i]) implies crate::text::strip_cr(
            rest[i],
        ) == rest[i] by {
            assert(rest[i] == ps[i + 1]);
        }
        assert forall|i: int|
            0 <= i < rest.len() && !is_summary_line(#[trigger] rest[i]) implies !is_summary_line(
            crate::text::strip_cr(rest[i]),
        ) by {
            assert(rest[i] == ps[i + 1]);
        }
        lemma_scalar_joined(rest);
        lemma_joined_len(rest);
        assert(joined(ps).drop_last() =~= p0 + nl() + joined(rest).drop_last());
        lemma_lines_cons(p0, joined(rest).drop_last());
        let ls = lines(joined(ps).drop_last());
        assert(ls[0] == crate::text::strip_cr(p0));
        assert(ls.drop_first() =~= lines(joined(rest).drop_last()));
        if is_summary_line(p0) {
            assert(ls[0] == p0);
        } else {
            assert(!is_summary_line(ls[0]));
            assert(scalar_in(ls, "summary:"@) == scalar_in(ls.drop_first(), "summary:"@));
            assert(scalar_in(ps, "summary:"@) == scalar_in(rest, "summary:"@));
        }
    }
}

proof fn lemma_joined_len(ps: Seq<Seq<char>>)
    requires
        ps.len() > 0,
    ensures
        joined(ps).len() > 0,
{
}

/// The facts about the summary line that reading it back needs.
proof fn lemma_summary_line(summary: Seq<char>)
    ensures
        one_line(summary_line(summary)),
        summary_line(summary).len() > 0,
        !starts_with(summary_line(summary), fm_open()),
        is_summary_line(summary_line(summary)),
        crate::text::strip_cr(summary_line(summary)) == summary_line(summary),
        scalar_in(seq![summary_line(summary)], "summary:"@) == Some(escape_yaml(summary)),
{
    reveal_strlit("summary: \"");
    reveal_strlit("summary:");
    let e = escape_yaml(summary);
    let l = summary_line(summary);
    lemma_escape_single_line(summary);
    assert forall|i: int| 0 <= i < l.len() implies l[i] != '\n' by {
        if 10 <= i < 10 + e.len() {
            assert(l[i] == e[i - 10]);
        }
    }
    assert(l[0] == 's');
    crate::text::lemma_lead_len(l, CharClass::Whitespace, 0);
    assert(trim_start_by(l, CharClass::Whitespace) =~= l);
    assert(l.subrange(0, 8) =~= "summary:"@);
    if starts_with(l, fm_open()) {
        assert(l.subrange(0, 3)[0] == '-');
    }
    let rest = l.skip(8);
    assert(rest =~= seq![' ', '"'] + e + seq!['"']);
    crate::text::lemma_lead_len(rest, CharClass::Whitespace, 1);
    let r1 = rest.skip(1);
    assert(r1 =~= seq!['"'] + e + seq!['"']);
    crate::text::lemma_trail_len(r1, CharClass::Whitespace, 0);
    assert(trim(rest) =~= r1);
    assert(unquote(r1) =~= e);
    assert(seq![l].drop_first() =~= Seq::<Seq<char>>::empty());
}

/// Over pieces where every summary line is the new one, the scalar is the
/// new one's value when some piece holds a summary, and nothing otherwise.
proof fn lemma_scalar_pieces(ps: Seq<Seq<char>>, summary: Seq<char>)
    requires
        forall|i: int|
            0 <= i < ps.len() && is_summary_line(#[trigger] ps[i]) ==> ps[i] == summary_line(summary),
    ensures
        scalar_in(ps, "summary:"@) == (if exists|i: int| 0 <= i < ps.len() && #[trigger] is_summary_line(
            ps[i],
        ) {
            Some(escape_yaml(summary))
        } else {
            None
        }),
    decreases ps.len(),
{
    if ps.len() > 0 {
        let rest = ps.drop_first();
        assert forall|i: int|
            0 <= i < rest.len() && is_summary_line(#[trigger] rest[i]) implies rest[i]
                == summary_line(summary) by {
            assert(rest[i] == ps[i + 1]);
        }
        lemma_scalar_pieces(rest, summary);
        if is_summary_line(ps[0]) {
            lemma_summary_line(summary);
            assert(seq![summary_line(summary)][0] == ps[0]);
        } else {
            if exists|i: int| 0 <= i < ps.len() && #[trigger] is_summary_line(ps[i]) {
                let i = choose|i: int| 0 <= i < ps.len() && #[trigger] is_summary_line(ps[i]);
                assert(rest[i - 1] == ps[i]);
            }
            if exists|i: int| 0 <= i < rest.len() && #[trigger] is_summary_line(rest[i]) {
                let i = choose|i: int| 0 <= i < rest.len() && #[trigger] is_summary_line(rest[i]);
                assert(ps[i + 1] == rest[i]);
            }
        }
    }
}

/// What `upsert_summary` writes: `---\n`, pieces each followed by `\n`,
/// `---\n`, and a body that opens with `\n`.  The pieces are the
/// frontmatter lines with every summary line replaced (and the summary
/// line added when there was none), or the summary line alone when the
/// document had no frontmatter.
proof fn lemma_upsert_shape(md: Seq<char>, summary: Seq<char>) -> (r: (Seq<Seq<char>>, Seq<char>))
    ensures
        upserted(md, summary) == "---\n"@ + joined(r.0) + "---\n"@ + r.1,
        r.0.len() > 0,
        starts_with(r.1, nl()),
        has_summary_line(r.0),
        forall|i: int|
            0 <= i < r.0.len() ==> {
                &&& one_line(#[trigger] r.0[i])
                &&& (i >= 1 ==> !starts_with(r.0[i], fm_open()))
                &&& (is_summary_line(r.0[i]) ==> r.0[i] == summary_line(summary))
                &&& (is_summary_line(r.0[i]) ==> crate::text::strip_cr(r.0[i]) == r.0[i])
                &&& (!is_summary_line(r.0[i]) ==> !is_summary_line(crate::text::strip_cr(r.0[i])))
            },
        match split_fm(md) {
            (Some(yaml), body) => {
                &&& r.0 == (if has_summary_line(lines(yaml)) {
                    pieces(lines(yaml), summary_line(summary))
                } else {
                    pieces(lines(yaml), summary_line(summary)).push(summary_line(summary))
                })
                &&& r.1 == (if starts_with(body, nl()) {
                    body
                } else {
                    nl() + body
                })
            },
            (None, _) => r.0 == seq![summary_line(summary)] && r.1 == nl() + trim_start_by(
                md,
                CharClass::Whitespace,
            ),
        },
{
    reveal_strlit("---\n");
    reveal_strlit("\n---\n\n");
    let nl_ = summary_line(summary);
    lemma_summary_line(summary);
    let out = upserted(md, summary);
    let ps: Seq<Seq<char>>;
    let b: Seq<char>;
    match split_fm(md) {
        (Some(yaml), body) => {
            let ls = lines(yaml);
            lemma_yaml_no_close(md);
            lemma_later_lines_open(yaml);
            crate::text::lemma_lines_one_line(yaml);
            let ps0 = pieces(ls, nl_);
            lemma_rebuilt_joined(ls, nl_);
            b = if starts_with(body, nl()) {
                body
            } else {
                nl() + body
            };
            if has_summary_line(ls) {
                ps = ps0;
            } else {
                ps = ps0.push(nl_);
                lemma_joined_push(ps0, nl_);
            }
            assert(rebuilt_yaml(yaml, nl_) == joined(ps));
            assert(out == "---\n"@ + joined(ps) + "---\n"@ + b);
            assert forall|i: int| 0 <= i < ps.len() implies {
                &&& one_line(#[trigger] ps[i])
                &&& (i >= 1 ==> !starts_with(ps[i], fm_open()))
                &&& (is_summary_line(ps[i]) ==> ps[i] == nl_)
                &&& (is_summary_line(ps[i]) ==> crate::text::strip_cr(ps[i]) == ps[i])
                &&& (!is_summary_line(ps[i]) ==> !is_summary_line(crate::text::strip_cr(ps[i])))
            } by {
                if i < ls.len() {
                    assert(ps[i] == piece(ls[i], nl_));
                    if !is_summary_line(ls[i]) {
                        lemma_strip_cr_summary(ls[i]);
                    }
                }
            }
            if has_summary_line(ls) {
                let i = choose|i: int| 0 <= i < ls.len() && #[trigger] is_summary_line(ls[i]);
                assert(ps[i] == nl_);
                assert(is_summary_line(ps[i]));
            } else {
                assert(ps[ps.len() - 1] == nl_);
            }
        },
        (None, _) => {
            ps = seq![nl_];
            b = nl() + trim_start_by(md, CharClass::Whitespace);
            assert(seq![nl_].drop_first() =~= Seq::<Seq<char>>::empty());
            assert(joined(Seq::<Seq<char>>::empty()) == Seq::<char>::empty());
            assert(joined(ps) =~= nl_ + nl());
            assert(out =~= "---\n"@ + joined(ps) + "---\n"@ + b);
            assert(is_summary_line(ps[0]));
        },
    }
    assert(b.subrange(0, 1) =~= nl());
    (ps, b)
}

/// Reading the summary back from a document that `upsert_summary` wrote
/// gives the escaped summary: the document has a frontmatter block, and the
/// `summary` scalar of that block is exactly the text that was written.
pub proof fn lemma_upsert_then_read(md: Seq<char>, summary: Seq<char>)
    ensures
        split_fm(upserted(md, summary)).0 is Some,
        yaml_value(fm_yaml(upserted(md, summary)), "summary"@) == Some(escape_yaml(summary)),
{
    reveal_strlit("summary");
    reveal_strlit("summary:");
    assert("summary"@.push(':') =~= "summary:"@);
    let (ps, b) = lemma_upsert_shape(md, summary);
    lemma_split_joined(ps, b);
    lemma_scalar_joined(ps);
    lemma_scalar_pieces(ps, summary);
}

/// Splitting the joined pieces, less the last line end, gives the pieces
/// back when none ends with `\r` and the last is not empty.
proof fn lemma_lines_joined(ps: Seq<Seq<char>>)
    requires
        ps.len() > 0,
        forall|i: int|
            0 <= i < ps.len() ==> one_line(#[trigger] ps[i]) && crate::text::strip_cr(ps[i]) == ps[i],
        ps.last().len() > 0,
    ensures
        lines(joined(ps).drop_last()) == ps,
    decreases ps.len(),
{
    let p0 = ps[0];
    let rest = ps.drop_first();
    if rest.len() == 0 {
        assert(joined(rest) == Seq::<char>::empty());
        assert(joined(ps).drop_last() =~= p0);
        assert(p0 == ps.last());
        lemma_lines_single(p0);
        assert(ps =~= seq![p0]);
    } else {
        assert forall|i: int| 0 <= i < rest.len() implies one_line(#[trigger] rest[i])
            && crate::text::strip_cr(rest[i]) == rest[i] by {
            assert(rest[i] == ps[i + 1]);
        }
        assert(rest.last() == ps.last());
        lemma_lines_joined(rest);
        lemma_joined_len(rest);
        assert(joined(ps).drop_last() =~= p0 + nl() + joined(rest).drop_last());
        lemma_lines_cons(p0, joined(rest).drop_last());
        assert(ps =~= seq![p0] + rest);
    }
}

/// The frontmatter lines of a document (none without frontmatter).
pub open spec fn fm_lines(md: Seq<char>) -> Seq<Seq<char>> {
    match split_fm(md).0 {
        Some(yaml) => lines(yaml),
        None => seq![],
    }
}

/// Law: summarising again replaces the summary written before.  Writing
/// `s1` and then `s2` gives exactly what writing `s2` alone gives: the
/// line holding `s1` is the one replaced, and no second summary line
/// appears.  Re-reading the written frontmatter drops a `\r` that ends a
/// kept line and a blank last line, so neither may be there.
pub proof fn lemma_upsert_twice(md: Seq<char>, s1: Seq<char>, s2: Seq<char>)
    requires
        forall|j: int|
            0 <= j < fm_lines(md).len() && !is_summary_line(#[trigger] fm_lines(md)[j]) ==> !ends_cr(
                fm_lines(md)[j],
            ),
        has_summary_line(fm_lines(md)) ==> fm_lines(md).last().len() > 0,
    ensures
        upserted(upserted(md, s1), s2) == upserted(md, s2),
{
    reveal_strlit("---\n");
    reveal_strlit("\n---\n\n");
    let l1 = summary_line(s1);
    let l2 = summary_line(s2);
    lemma_summary_line(s1);
    lemma_summary_line(s2);
    let (ps, b) = lemma_upsert_shape(md, s1);
    lemma_split_joined(ps, b);
    let out1 = upserted(md, s1);
    assert(split_fm(out1) == (Some(joined(ps).drop_last()), b));
    let y1 = joined(ps).drop_last();
    match split_fm(md) {
        (Some(yaml), body) => {
            let ls = lines(yaml);
            assert(fm_lines(md) == ls);
            assert forall|i: int| 0 <= i < ps.len() implies one_line(#[trigger] ps[i])
                && crate::text::strip_cr(ps[i]) == ps[i] by {
                if i < ls.len() && !is_summary_line(ls[i]) {
                    assert(ps[i] == ls[i]);
                }
            }
            if has_summary_line(ls) {
                assert(ps.last() == piece(ls.last(), l1));
            }
            lemma_lines_joined(ps);
            lemma_rebuilt_joined(ps, l2);
            lemma_rebuilt_joined(ls, l2);
            if has_summary_line(ls) {
                assert(pieces(ps, l2) =~= pieces(ls, l2));
            } else {
                assert(pieces(ls, l1) =~= ls);
                assert(pieces(ls, l2) =~= ls);
                assert(pieces(ps, l2) =~= ls.push(l2));
                lemma_joined_push(ls, l2);
            }
            assert(rebuilt_yaml(y1, l2) == rebuilt_yaml(yaml, l2));
        },
        (None, _) => {
            lemma_lines_joined(ps);
            lemma_rebuilt_joined(ps, l2);
            assert(pieces(ps, l2) =~= seq![l2]);
            assert(seq![l2].drop_first() =~= Seq::<Seq<char>>::empty());
            assert(joined(Seq::<Seq<char>>::empty()) == Seq::<char>::empty());
            assert(joined(seq![l2]) =~= l2 + nl());
            assert(upserted(out1, s2) =~= upserted(md, s2));
        },
    }
}

} // verus!

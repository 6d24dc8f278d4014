//! Abstract lookup in public scholarly-metadata services: what is asked of
//! Crossref, Semantic Scholar and OpenAlex, and how their answers become a
//! clean single-line abstract.
//!
//! Lookup order for a DOI: Crossref, then Semantic Scholar, then OpenAlex;
//! the first non-empty abstract wins.  A title is looked up at Semantic
//! Scholar only.  The HTTP exchange itself is done by the caller.
use vstd::prelude::*;

use crate::sort::{key_order, lemma_sort_map, sort_by, sort_pairs};
use crate::text::{
    chars_of, collapse_whitespace, collapse_ws, extend, join, join_chars, string_of, trim, trim_str,
    views,
};

verus! {

// ── Tag stripping ──────────────────────────────────────────────────────────

/// Whether a tag is open after reading `s`: the last angle bracket in `s`
/// is `<`.
pub open spec fn tag_open_after(s: Seq<char>) -> bool
    decreases s.len(),
{
    if s.len() == 0 {
        false
    } else if s.last() == '<' {
        true
    } else if s.last() == '>' {
        false
    } else {
        tag_open_after(s.drop_last())
    }
}

/// Text with everything between `<` and `>` removed; each angle bracket
/// becomes one space so that the words around a tag stay apart.
pub open spec fn strip_tags(s: Seq<char>) -> Seq<char>
    decreases s.len(),
{
    if s.len() == 0 {
        seq![]
    } else {
        let p = s.drop_last();
        let c = s.last();
        strip_tags(p) + if c == '<' || c == '>' {
            seq![' ']
        } else if tag_open_after(p) {
            Seq::<char>::empty()
        } else {
            seq![c]
        }
    }
}

/// Strip JATS / HTML tags without a full HTML parser.
pub fn strip_html_tags(s: &str) -> (r: String)
    ensures
        r@ == strip_tags(s@),
{
    let v = chars_of(s);
    let mut out: Vec<char> = Vec::new();
    let mut in_tag = false;
    let mut i: usize = 0;
    while i < v.len()
        invariant
            i <= v.len(),
            out@ == strip_tags(v@.take(i as int)),
            in_tag == tag_open_after(v@.take(i as int)),
        decreases v.len() - i,
    {
        let c = v[i];
        proof {
            let t = v@.take(i + 1);
            assert(t.drop_last() =~= v@.take(i as int));
            assert(t.last() == c);
        }
        if c == '<' {
            in_tag = true;
            out.push(' ');
        } else if c == '>' {
            in_tag = false;
            out.push(' ');
        } else if !in_tag {
            out.push(c);
        }
        proof {
            let t = v@.take(i + 1);
            if c == '<' || c == '>' {
                assert(out@ =~= strip_tags(t.drop_last()) + seq![' ']);
            } else if tag_open_after(t.drop_last()) {
                assert(out@ =~= strip_tags(t.drop_last()) + Seq::<char>::empty());
            } else {
                assert(out@ =~= strip_tags(t.drop_last()) + seq![c]);
            }
        }
        i += 1;
    }
    assert(v@.take(v.len() as int) =~= v@);
    string_of(out.as_slice())
}

/// Law: the stripped text holds no angle bracket.
pub proof fn lemma_strip_tags_no_brackets(s: Seq<char>)
    ensures
        !strip_tags(s).contains('<'),
        !strip_tags(s).contains('>'),
    decreases s.len(),
{
    if s.len() > 0 {
        lemma_strip_tags_no_brackets(s.drop_last());
        let p = s.drop_last();
        let c = s.last();
        let piece = if c == '<' || c == '>' {
            seq![' ']
        } else if tag_open_after(p) {
            Seq::<char>::empty()
        } else {
            seq![c]
        };
        assert forall|i: int| 0 <= i < strip_tags(s).len() implies strip_tags(s)[i] != '<'
            && strip_tags(s)[i] != '>' by {
            if i >= strip_tags(p).len() {
                assert(strip_tags(s)[i] == piece[i - strip_tags(p).len()]);
            } else {
                assert(strip_tags(s)[i] == strip_tags(p)[i]);
            }
        }
    }
}

/// Law: text without angle brackets passes through unchanged.
pub proof fn lemma_strip_tags_plain(s: Seq<char>)
    requires
        !s.contains('<'),
        !s.contains('>'),
    ensures
        strip_tags(s) == s,
        !tag_open_after(s),
    decreases s.len(),
{
    if s.len() > 0 {
        let p = s.drop_last();
        assert(!p.contains('<') && !p.contains('>')) by {
            if p.contains('<') {
                let k = choose|k: int| 0 <= k < p.len() && p[k] == '<';
                assert(s[k] == '<');
            }
            if p.contains('>') {
                let k = choose|k: int| 0 <= k < p.len() && p[k] == '>';
                assert(s[k] == '>');
            }
        }
        lemma_strip_tags_plain(p);
        assert(s.last() != '<' && s.last() != '>') by {
            assert(s[s.len() - 1] == s.last());
        }
        assert(strip_tags(s) =~= p.push(s.last()));
        assert(p.push(s.last()) =~= s);
    }
}

// ── Whitespace ─────────────────────────────────────────────────────────────

/// Collapse runs of whitespace into single spaces and trim.
pub fn normalise_whitespace(s: &str) -> (r: String)
    ensures
        r@ == collapse_ws(s@),
{
    let v = chars_of(s);
    let out = collapse_whitespace(v.as_slice());
    string_of(out.as_slice())
}

// ── Percent-encoding ───────────────────────────────────────────────────────

/// Bytes kept as they are inside a DOI path: `A-Za-z0-9-._~/:`.
pub open spec fn url_safe(b: u8) -> bool {
    (65 <= b <= 90) || (97 <= b <= 122) || (48 <= b <= 57) || b == 45 || b == 95 || b == 46
        || b == 126 || b == 47 || b == 58
}

/// Upper-case hexadecimal digit for `n < 16`.
pub open spec fn hex_digit(n: u8) -> char {
    if n < 10 {
        (48 + n) as char
    } else {
        (55 + n) as char
    }
}

/// One byte of a URL path segment: itself if safe, else `%XX`.
pub open spec fn encode_byte(b: u8) -> Seq<char> {
    if url_safe(b) {
        seq![b as char]
    } else {
        seq!['%', hex_digit(b / 16), hex_digit(b % 16)]
    }
}

pub open spec fn url_encode(bytes: Seq<u8>) -> Seq<char>
    decreases bytes.len(),
{
    if bytes.len() == 0 {
        seq![]
    } else {
        url_encode(bytes.drop_last()) + encode_byte(bytes.last())
    }
}

fn hex_char(n: u8) -> (c: char)
    requires
        n < 16,
    ensures
        c == hex_digit(n),
{
    if n < 10 {
        (48 + n) as char
    } else {
        (55 + n) as char
    }
}

/// Percent-encode a string (its UTF-8 bytes) for use inside a URL path
/// segment.
pub fn url_encode_path(s: &str) -> (r: String)
    ensures
        r@ == url_encode(vstd::utf8::encode_utf8(s@)),
{
    let bytes = s.as_bytes();
    let mut out: Vec<char> = Vec::new();
    let mut i: usize = 0;
    while i < bytes.len()
        invariant
            i <= bytes.len(),
            bytes@ == vstd::utf8::encode_utf8(s@),
            out@ == url_encode(bytes@.take(i as int)),
        decreases bytes.len() - i,
    {
        let b = bytes[i];
        proof {
            let t = bytes@.take(i + 1);
            assert(t.drop_last() =~= bytes@.take(i as int));
            assert(t.last() == b);
        }
        if (65 <= b && b <= 90) || (97 <= b && b <= 122) || (48 <= b && b <= 57) || b == 45 || b
            == 95 || b == 46 || b == 126 || b == 47 || b == 58 {
            out.push(b as char);
            assert(out@ =~= url_encode(bytes@.take(i as int)) + seq![b as char]);
        } else {
            out.push('%');
            out.push(hex_char(b / 16));
            out.push(hex_char(b % 16));
            assert(out@ =~= url_encode(bytes@.take(i as int)) + seq![
                '%',
                hex_digit(b / 16),
                hex_digit(b % 16),
            ]);
        }
        i += 1;
    }
    assert(bytes@.take(bytes.len() as int) =~= bytes@);
    string_of(out.as_slice())
}

/// Law: a string made of path-safe ASCII characters is its own encoding.
pub proof fn lemma_url_encode_safe(bytes: Seq<u8>)
    requires
        forall|i: int| 0 <= i < bytes.len() ==> url_safe(#[trigger] bytes[i]),
    ensures
        url_encode(bytes) == bytes.map_values(|b: u8| b as char),
    decreases bytes.len(),
{
    if bytes.len() > 0 {
        let p = bytes.drop_last();
        assert forall|i: int| 0 <= i < p.len() implies url_safe(#[trigger] p[i]) by {
            assert(p[i] == bytes[i]);
        }
        lemma_url_encode_safe(p);
        assert(url_safe(bytes[bytes.len() - 1]));
        assert(bytes.map_values(|b: u8| b as char) =~= p.map_values(|b: u8| b as char).push(
            bytes.last() as char,
        ));
    }
}

// ── OpenAlex inverted index ────────────────────────────────────────────────

/// One entry of an OpenAlex `abstract_inverted_index`: a word and the JSON
/// value listing its positions.  `positions` is `None` when that value is
/// not an array; an element is `None` when it is not an unsigned integer.
pub struct IndexEntry {
    pub word: String,
    pub positions: Option<Vec<Option<u64>>>,
}

/// The `(position, word)` pairs of one entry, in the order given.
pub open spec fn entry_pairs(word: Seq<char>, ps: Seq<Option<u64>>) -> Seq<(u64, Seq<char>)>
    decreases ps.len(),
{
    if ps.len() == 0 {
        seq![]
    } else {
        entry_pairs(word, ps.drop_last()) + match ps.last() {
            Some(p) => seq![(p, word)],
            None => Seq::<(u64, Seq<char>)>::empty(),
        }
    }
}

pub open spec fn entry_view(e: IndexEntry) -> (Seq<char>, Option<Seq<Option<u64>>>) {
    (
        e.word@,
        match e.positions {
            Some(v) => Some(v@),
            None => None,
        },
    )
}

/// All `(position, word)` pairs, entry by entry in map order.
pub open spec fn index_pairs(es: Seq<(Seq<char>, Option<Seq<Option<u64>>>)>) -> Seq<
    (u64, Seq<char>),
>
    decreases es.len(),
{
    if es.len() == 0 {
        seq![]
    } else {
        index_pairs(es.drop_last()) + match es.last().1 {
            Some(ps) => entry_pairs(es.last().0, ps),
            None => Seq::<(u64, Seq<char>)>::empty(),
        }
    }
}

/// The words of the pairs, stably sorted by position, joined by spaces.
pub open spec fn reconstructed(es: Seq<(Seq<char>, Option<Seq<Option<u64>>>)>) -> Seq<char> {
    join(
        sort_by(index_pairs(es), |a: (u64, Seq<char>), b: (u64, Seq<char>)| a.0 <= b.0).map_values(
            |p: (u64, Seq<char>)| p.1,
        ),
        seq![' '],
    )
}

/// Reconstruct word order from an OpenAlex inverted index.
pub fn reconstruct_inverted_index(inverted: &Vec<IndexEntry>) -> (r: String)
    ensures
        r@ == reconstructed(inverted@.map_values(|e: IndexEntry| entry_view(e))),
{
    let ghost es = inverted@.map_values(|e: IndexEntry| entry_view(e));
    let mut pairs: Vec<(u64, Vec<char>)> = Vec::new();
    let mut i: usize = 0;
    while i < inverted.len()
        invariant
            i <= inverted.len(),
            es == inverted@.map_values(|e: IndexEntry| entry_view(e)),
            pairs@.map_values(|p: (u64, Vec<char>)| (p.0, p.1@)) == index_pairs(es.take(i as int)),
        decreases inverted.len() - i,
    {
        let e = &inverted[i];
        proof {
            assert(es.take(i + 1).drop_last() =~= es.take(i as int));
            assert(es.take(i + 1).last() == entry_view(*e));
        }
        let ghost before = pairs@.map_values(|p: (u64, Vec<char>)| (p.0, p.1@));
        match &e.positions {
            Some(ps) => {
                let w = chars_of(e.word.as_str());
                let mut j: usize = 0;
                while j < ps.len()
                    invariant
                        j <= ps.len(),
                        w@ == e.word@,
                        pairs@.map_values(|p: (u64, Vec<char>)| (p.0, p.1@)) == before
                            + entry_pairs(w@, ps@.take(j as int)),
                    decreases ps.len() - j,
                {
                    proof {
                        assert(ps@.take(j + 1).drop_last() =~= ps@.take(j as int));
                        assert(ps@.take(j + 1).last() == ps@[j as int]);
                    }
                    match ps[j] {
                        Some(p) => {
                            let ghost old_pairs = pairs@;
                            pairs.push((p, w.clone()));
                            assert(pairs@.map_values(|p: (u64, Vec<char>)| (p.0, p.1@))
                                =~= old_pairs.map_values(|p: (u64, Vec<char>)| (p.0, p.1@))
                                + seq![(p, w@)]);
                        },
                        None => {
                            assert(entry_pairs(w@, ps@.take(j + 1)) =~= entry_pairs(
                                w@,
                                ps@.take(j as int),
                            ) + Seq::<(u64, Seq<char>)>::empty());
                        },
                    }
                    j += 1;
                }
                assert(ps@.take(ps.len() as int) =~= ps@);
            },
            None => {
                assert(index_pairs(es.take(i + 1)) =~= index_pairs(es.take(i as int)) + Seq::<
                    (u64, Seq<char>),
                >::empty());
            },
        }
        i += 1;
    }
    assert(es.take(inverted.len() as int) =~= es);
    let ghost pv = pairs@;
    let sorted = sort_pairs(pairs);
    let mut ws: Vec<Vec<char>> = Vec::new();
    let mut k: usize = 0;
    while k < sorted.len()
        invariant
            k <= sorted.len(),
            views(ws@) == sorted@.take(k as int).map_values(|p: (u64, Vec<char>)| p.1@),
        decreases sorted.len() - k,
    {
        let ghost prev = ws@;
        let w = sorted[k].1.clone();
        assert(w@ == sorted@[k as int].1@);
        ws.push(w);
        assert(views(ws@) =~= views(prev).push(w@));
        assert(sorted@.take(k + 1).map_values(|p: (u64, Vec<char>)| p.1@) =~= sorted@.take(
            k as int,
        ).map_values(|p: (u64, Vec<char>)| p.1@).push(sorted@[k as int].1@));
        k += 1;
    }
    let sp: [char; 1] = [' '];
    assert(sp@ =~= seq![' ']);
    let out = join_chars(&ws, sp.as_slice());
    proof {
        assert(sorted@.take(sorted.len() as int) =~= sorted@);
        let f1 = |p: (u64, Vec<char>)| (p.0, p.1@);
        let le2 = |a: (u64, Seq<char>), b: (u64, Seq<char>)| a.0 <= b.0;
        lemma_sort_map(pv, f1, key_order::<u64, Vec<char>>(), le2);
        assert(sorted@.map_values(|p: (u64, Vec<char>)| p.1@) =~= sort_by(pv.map_values(f1), le2).map_values(
            |p: (u64, Seq<char>)| p.1,
        ));
    }
    string_of(out.as_slice())
}

// ── Requests and answers ───────────────────────────────────────────────────

/// The DOI or title to look up: the argument trimmed, or `None` when
/// nothing is left (then no service is asked at all).
pub fn lookup_term(raw: &str) -> (r: Option<String>)
    ensures
        match r {
            Some(t) => t@ == trim(raw@) && t@.len() > 0,
            None => trim(raw@).len() == 0,
        },
{
    let t = trim_str(raw);
    if t.as_str().is_empty() {
        None
    } else {
        Some(t)
    }
}

/// A metadata service asked for an abstract by DOI, in the order asked.
#[derive(Clone, Copy, PartialEq, Eq, Structural)]
pub enum DoiBackend {
    Crossref,
    SemanticScholar,
    OpenAlex,
}

/// The URL prefix of each service; the percent-encoded DOI follows it.
pub open spec fn backend_prefix(b: DoiBackend) -> Seq<char> {
    match b {
        DoiBackend::Crossref => "https://api.crossref.org/works/"@,
        DoiBackend::SemanticScholar => "https://api.semanticscholar.org/graph/v1/paper/DOI:"@,
        DoiBackend::OpenAlex => "https://api.openalex.org/works/https://doi.org/"@,
    }
}

/// The suffix after the encoded DOI.
pub open spec fn backend_suffix(b: DoiBackend) -> Seq<char> {
    match b {
        DoiBackend::SemanticScholar => "?fields=abstract"@,
        _ => ""@,
    }
}

/// The URL that asks `backend` for the abstract of `doi`.
pub fn backend_url(backend: DoiBackend, doi: &str) -> (r: String)
    ensures
        r@ == backend_prefix(backend) + url_encode(vstd::utf8::encode_utf8(doi@))
            + backend_suffix(backend),
{
    let (prefix, suffix) = match backend {
        DoiBackend::Crossref => ("https://api.crossref.org/works/", ""),
        DoiBackend::SemanticScholar => (
            "https://api.semanticscholar.org/graph/v1/paper/DOI:",
            "?fields=abstract",
        ),
        DoiBackend::OpenAlex => ("https://api.openalex.org/works/https://doi.org/", ""),
    };
    let mut v = chars_of(prefix);
    let enc = chars_of(url_encode_path(doi).as_str());
    extend(&mut v, enc.as_slice());
    let suf = chars_of(suffix);
    extend(&mut v, suf.as_slice());
    string_of(v.as_slice())
}

/// The DOI services in the order they are asked.
pub fn doi_backends() -> (r: Vec<DoiBackend>)
    ensures
        r@ == seq![DoiBackend::Crossref, DoiBackend::SemanticScholar, DoiBackend::OpenAlex],
{
    let mut r = Vec::new();
    r.push(DoiBackend::Crossref);
    r.push(DoiBackend::SemanticScholar);
    r.push(DoiBackend::OpenAlex);
    assert(r@ =~= seq![DoiBackend::Crossref, DoiBackend::SemanticScholar, DoiBackend::OpenAlex]);
    r
}

/// A usable abstract: the text with whitespace collapsed, if any is left.
pub open spec fn usable(c: Seq<char>) -> Option<Seq<char>> {
    if c.len() == 0 {
        None
    } else {
        Some(c)
    }
}

pub open spec fn opt_view(r: Option<String>) -> Option<Seq<char>> {
    match r {
        Some(s) => Some(s@),
        None => None,
    }
}

/// Clean a raw abstract.  Crossref sends JATS markup, whose tags are
/// stripped first (`markup == true`); the other services send text.
pub fn clean_abstract(raw: &str, markup: bool) -> (r: Option<String>)
    ensures
        opt_view(r) == usable(
            collapse_ws(
                if markup {
                    strip_tags(raw@)
                } else {
                    raw@
                },
            ),
        ),
{
    let cleaned = if markup {
        let s = strip_html_tags(raw);
        normalise_whitespace(s.as_str())
    } else {
        normalise_whitespace(raw)
    };
    if cleaned.as_str().is_empty() {
        None
    } else {
        Some(cleaned)
    }
}

/// The abstract an OpenAlex inverted index spells, if it is not blank.
pub fn clean_inverted_abstract(inverted: &Vec<IndexEntry>) -> (r: Option<String>)
    ensures
        opt_view(r) == usable(
            collapse_ws(reconstructed(inverted@.map_values(|e: IndexEntry| entry_view(e)))),
        ),
{
    let text = reconstruct_inverted_index(inverted);
    let cleaned = normalise_whitespace(text.as_str());
    if cleaned.as_str().is_empty() {
        None
    } else {
        Some(cleaned)
    }
}

} // verus!

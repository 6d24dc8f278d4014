//! Importing PDFs as markdown papers: the slug a paper is filed under,
//! which PDFs and Zotero items still wait for import, the `zotero_key`
//! written into an imported paper's frontmatter, and the categories that
//! already exist.  Reading folders, calling Gemini and writing files are
//! the caller's.
use vstd::prelude::*;

use crate::frontmatter::{last_keyed, last_keyed_of, simple_yaml_lines, simple_yaml_lines_of};
use crate::gemini::{opt_string, string_views};
use crate::paths::{join, join_path, path_file_stem};
use crate::sort::{sort_by, text_order};
use crate::summarize::{fm_close, fm_open, lemma_later_lines_open, no_close};
use crate::text::{
    chars_of, extend, find, find_chars, is_ascii_alnum, is_ascii_alphanumeric, join as join_text,
    join_chars, lines, lines_of, starts_with, str_lowercase, string_of, to_lowercase, trim,
    trim_by, trim_chars, trim_start_by, trim_start_chars, views, has_prefix, CharClass,
    ends_cr, lead_len, lemma_find_first_newline, lemma_find_from, lemma_lines_of_join,
    lemma_lines_one_line, lemma_lines_single, nl, occurs_at, one_line, all_ascii, all_chars,
    ascii_lower, is_ascii_lower_char, trail_len,
};

verus! {

/// The Zotero collection that holds papers still to be classified.
pub const DEFAULT_UNCLASSIFIED_COLLECTION: &'static str = "Unclassified";

/// How many markdown characters go to classification.
pub const CLASSIFY_EXCERPT_CHARS: usize = 2000;

// ── Types ─────────────────────────────────────────────────────────────────

/// A PDF found in a folder, not yet imported.
#[derive(Debug, Clone)]
pub struct PdfEntry {
    pub path: String,
    /// The file name without its extension.
    pub stem: String,
    pub size_bytes: u64,
}

/// A markdown file written by an import.
#[derive(Debug, Clone)]
pub struct ImportResult {
    pub markdown_path: String,
    pub slug: String,
}

/// A Zotero item waiting for import.
#[derive(Debug, Clone)]
pub struct ZoteroPdfImportEntry {
    pub item_key: String,
    pub attachment_key: String,
    pub title: String,
    pub slug: String,
    /// The item's collection, when it is not the unclassified one; it is
    /// used as the category and Gemini is skipped.
    pub collection_name: Option<String>,
}

// ── Slugs ─────────────────────────────────────────────────────────────────

/// ASCII letters and digits kept, every other run of characters one `-`,
/// none at the start while `dash` holds.
pub open spec fn slug_chars(s: Seq<char>, dash: bool) -> Seq<char>
    decreases s.len(),
{
    if s.len() == 0 {
        seq![]
    } else if is_ascii_alnum(s[0]) {
        seq![s[0]] + slug_chars(s.drop_first(), false)
    } else if !dash {
        seq!['-'] + slug_chars(s.drop_first(), true)
    } else {
        slug_chars(s.drop_first(), true)
    }
}

/// The slug of a file stem: trimmed, lower-cased, reduced to ASCII letters,
/// digits and single dashes, with no dash at either end.
pub open spec fn slug_text(stem: Seq<char>) -> Seq<char> {
    trim_by(slug_chars(str_lowercase(trim(stem)), true), CharClass::Dash)
}

/// The slug of an ASCII stem, whose lower-casing is ASCII's.
pub open spec fn slug_ascii(stem: Seq<char>) -> Seq<char> {
    trim_by(slug_chars(ascii_lower(trim(stem)), true), CharClass::Dash)
}

/// Converts a file stem into a lower-case kebab-case slug.
pub fn slugify(stem: &str) -> (r: String)
    ensures
        r@ == slug_text(stem@),
        all_ascii(stem@) ==> r@ == slug_ascii(stem@),
{
    let t = crate::text::trim_str(stem);
    proof {
        if all_ascii(stem@) {
            crate::text::lemma_trim_by_chars(stem@, CharClass::Whitespace, |c: char| crate::text::is_ascii_char(c));
        }
    }
    let lower = to_lowercase(t.as_str());
    slug_of_lowercase(lower.as_str())
}

/// The slug of an already lower-cased stem: ASCII letters and digits
/// kept, every other run of characters one `-`, no dash at either end.
pub fn slug_of_lowercase(lower: &str) -> (r: String)
    ensures
        r@ == trim_by(slug_chars(lower@, true), CharClass::Dash),
{
    let l = chars_of(lower);
    let mut out: Vec<char> = Vec::new();
    let mut dash = true;
    let mut i: usize = 0;
    assert(l@.skip(0) =~= l@);
    while i < l.len()
        invariant
            i <= l.len(),
            slug_chars(l@, true) == out@ + slug_chars(l@.skip(i as int), dash),
        decreases l.len() - i,
    {
        let c = l[i];
        proof {
            assert(l@.skip(i as int)[0] == c);
            assert(l@.skip(i as int).drop_first() =~= l@.skip(i + 1));
        }
        if is_ascii_alphanumeric(c) {
            let ghost prev = out@;
            out.push(c);
            dash = false;
            assert(prev + (seq![c] + slug_chars(l@.skip(i + 1), false)) =~= out@ + slug_chars(
                l@.skip(i + 1),
                false,
            ));
        } else if !dash {
            let ghost prev = out@;
            out.push('-');
            dash = true;
            assert(prev + (seq!['-'] + slug_chars(l@.skip(i + 1), true)) =~= out@ + slug_chars(
                l@.skip(i + 1),
                true,
            ));
        }
        i += 1;
    }
    assert(l@.skip(i as int) =~= Seq::<char>::empty());
    assert(out@ + Seq::<char>::empty() =~= out@);
    let r = trim_chars(out.as_slice(), CharClass::Dash);
    string_of(r.as_slice())
}

/// What `slug_chars` yields: ASCII letters, digits and dashes, never two
/// dashes in a row, and no dash first while `dash` holds.
proof fn lemma_slug_chars_shape(s: Seq<char>, dash: bool)
    ensures
        forall|i: int|
            0 <= i < slug_chars(s, dash).len() ==> is_ascii_alnum(#[trigger] slug_chars(s, dash)[i])
                || slug_chars(s, dash)[i] == '-',
        forall|i: int|
            0 <= i < slug_chars(s, dash).len() - 1 && #[trigger] slug_chars(s, dash)[i] == '-'
                ==> slug_chars(s, dash)[i + 1] != '-',
        dash && slug_chars(s, dash).len() > 0 ==> slug_chars(s, dash)[0] != '-',
        !dash && slug_chars(s, dash).len() > 0 && slug_chars(s, dash)[0] == '-' ==> slug_chars(
            s,
            dash,
        ).len() == 1 || slug_chars(s, dash)[1] != '-',
    decreases s.len(),
{
    if s.len() > 0 {
        let t = s.drop_first();
        if is_ascii_alnum(s[0]) {
            lemma_slug_chars_shape(t, false);
            let r = slug_chars(s, dash);
            let q = slug_chars(t, false);
            assert forall|i: int| 1 <= i < r.len() implies r[i] == q[i - 1] by {}
        } else if !dash {
            lemma_slug_chars_shape(t, true);
            let r = slug_chars(s, dash);
            let q = slug_chars(t, true);
            assert forall|i: int| 1 <= i < r.len() implies r[i] == q[i - 1] by {}
        } else {
            lemma_slug_chars_shape(t, true);
        }
    }
}

/// `slug_chars` keeps a property that the dash and every character of its
/// input have.
proof fn lemma_slug_chars_keep(s: Seq<char>, dash: bool, p: spec_fn(char) -> bool)
    requires
        all_chars(s, p),
        p('-'),
    ensures
        all_chars(slug_chars(s, dash), p),
    decreases s.len(),
{
    if s.len() > 0 {
        let t = s.drop_first();
        assert(all_chars(t, p)) by {
            assert forall|i: int| 0 <= i < t.len() implies p(#[trigger] t[i]) by {
                assert(t[i] == s[i + 1]);
            }
        }
        lemma_slug_chars_keep(t, false, p);
        lemma_slug_chars_keep(t, true, p);
        let r = slug_chars(s, dash);
        if is_ascii_alnum(s[0]) {
            assert(p(s[0]));
            assert forall|i: int| 0 <= i < r.len() implies p(#[trigger] r[i]) by {
                if i > 0 {
                    assert(r[i] == slug_chars(t, false)[i - 1]);
                }
            }
        } else if !dash {
            assert forall|i: int| 0 <= i < r.len() implies p(#[trigger] r[i]) by {
                if i > 0 {
                    assert(r[i] == slug_chars(t, true)[i - 1]);
                }
            }
        }
    }
}

/// Kebab text is its own `slug_chars`: letters, digits and single dashes,
/// with no dash first while `dash` holds.
proof fn lemma_slug_chars_fixed(s: Seq<char>, dash: bool)
    requires
        forall|i: int| 0 <= i < s.len() ==> is_ascii_alnum(#[trigger] s[i]) || s[i] == '-',
        forall|i: int| 0 <= i < s.len() - 1 && #[trigger] s[i] == '-' ==> s[i + 1] != '-',
        dash && s.len() > 0 ==> s[0] != '-',
    ensures
        slug_chars(s, dash) == s,
    decreases s.len(),
{
    if s.len() > 0 {
        let t = s.drop_first();
        assert forall|i: int| 0 <= i < t.len() implies is_ascii_alnum(#[trigger] t[i]) || t[i] == '-' by {
            assert(t[i] == s[i + 1]);
        }
        assert forall|i: int| 0 <= i < t.len() - 1 && #[trigger] t[i] == '-' implies t[i + 1] != '-' by {
            assert(t[i] == s[i + 1]);
            assert(t[i + 1] == s[i + 2]);
        }
        if is_ascii_alnum(s[0]) {
            lemma_slug_chars_fixed(t, false);
        } else {
            assert(s[0] == '-');
            assert(t.len() > 0 ==> t[0] == s[1]);
            lemma_slug_chars_fixed(t, true);
        }
        assert(slug_chars(s, dash) =~= s);
    }
}

/// The slug of lower-cased text is kebab-case.
proof fn lemma_slug_of_kebab(l: Seq<char>)
    ensures
        forall|i: int|
            0 <= i < trim_by(slug_chars(l, true), CharClass::Dash).len() ==> is_ascii_alnum(
                #[trigger] trim_by(slug_chars(l, true), CharClass::Dash)[i],
            ) || trim_by(slug_chars(l, true), CharClass::Dash)[i] == '-',
        forall|i: int|
            0 <= i < trim_by(slug_chars(l, true), CharClass::Dash).len() - 1
                && #[trigger] trim_by(slug_chars(l, true), CharClass::Dash)[i] == '-' ==> trim_by(
                slug_chars(l, true),
                CharClass::Dash,
            )[i + 1] != '-',
        trim_by(slug_chars(l, true), CharClass::Dash).len() > 0 ==> trim_by(
            slug_chars(l, true),
            CharClass::Dash,
        )[0] != '-' && trim_by(slug_chars(l, true), CharClass::Dash).last() != '-',
{
    let s = slug_chars(l, true);
    lemma_slug_chars_shape(l, true);
    let a = crate::text::lead_len(s, CharClass::Dash);
    crate::text::lemma_lead_len_bound(s, CharClass::Dash);
    let u = s.skip(a as int);
    let b = crate::text::trail_len(u, CharClass::Dash);
    crate::text::lemma_trail_len_bound(u, CharClass::Dash);
    let r = trim_by(s, CharClass::Dash);
    assert(r =~= s.subrange(a as int, s.len() - b));
    assert forall|i: int| 0 <= i < r.len() implies is_ascii_alnum(#[trigger] r[i]) || r[i] == '-' by {
        assert(r[i] == s[a + i]);
    }
    assert forall|i: int| 0 <= i < r.len() - 1 && #[trigger] r[i] == '-' implies r[i + 1] != '-' by {
        assert(r[i] == s[a + i]);
        assert(r[i + 1] == s[a + i + 1]);
    }
    if r.len() > 0 {
        assert(r[0] == s[a as int]);
        assert(r.last() == u[u.len() - b - 1]);
    }
}

/// Law: the slug of an ASCII stem is lower-case kebab-case (only `a`-`z`,
/// digits and single dashes, none at either end), and slugging it again
/// gives it back.
pub proof fn lemma_slug_lower_idempotent(stem: Seq<char>)
    requires
        all_ascii(stem),
    ensures
        all_chars(slug_ascii(stem), |c: char| is_ascii_lower_char(c)),
        forall|i: int|
            0 <= i < slug_ascii(stem).len() ==> is_ascii_alnum(#[trigger] slug_ascii(stem)[i])
                || slug_ascii(stem)[i] == '-',
        forall|i: int|
            0 <= i < slug_ascii(stem).len() - 1 && #[trigger] slug_ascii(stem)[i] == '-'
                ==> slug_ascii(stem)[i + 1] != '-',
        slug_ascii(stem).len() > 0 ==> slug_ascii(stem)[0] != '-' && slug_ascii(stem).last() != '-',
        all_ascii(slug_ascii(stem)),
        slug_ascii(slug_ascii(stem)) == slug_ascii(stem),
{
    let lo = |c: char| is_ascii_lower_char(c);
    let l = ascii_lower(trim(stem));
    crate::text::lemma_trim_by_chars(stem, CharClass::Whitespace, |c: char| crate::text::is_ascii_char(c));
    crate::text::lemma_ascii_lower_is_lower(trim(stem));
    lemma_slug_chars_keep(l, true, lo);
    crate::text::lemma_trim_by_chars(slug_chars(l, true), CharClass::Dash, lo);
    lemma_slug_of_kebab(l);
    let g = slug_ascii(stem);
    assert(g == trim_by(slug_chars(l, true), CharClass::Dash));
    assert(all_ascii(g)) by {
        assert forall|i: int| 0 <= i < g.len() implies crate::text::is_ascii_char(#[trigger] g[i]) by {
            assert(lo(g[i]));
        }
    }
    // Slugging `g` again changes nothing.
    assert(lead_len(g, CharClass::Whitespace) == 0);
    assert(trail_len(g, CharClass::Whitespace) == 0);
    assert(trim(g) =~= g);
    crate::text::lemma_ascii_lower_fixed(g);
    lemma_slug_chars_fixed(g, true);
    assert(lead_len(g, CharClass::Dash) == 0);
    assert(trail_len(g, CharClass::Dash) == 0);
    assert(trim_by(g, CharClass::Dash) =~= g);
}

/// A slug is kebab-case: only ASCII letters, digits and dashes, no dash at
/// either end and never two in a row.
pub proof fn lemma_slug_is_kebab(stem: Seq<char>)
    ensures
        forall|i: int|
            0 <= i < slug_text(stem).len() ==> is_ascii_alnum(#[trigger] slug_text(stem)[i])
                || slug_text(stem)[i] == '-',
        forall|i: int|
            0 <= i < slug_text(stem).len() - 1 && #[trigger] slug_text(stem)[i] == '-'
                ==> slug_text(stem)[i + 1] != '-',
        slug_text(stem).len() > 0 ==> slug_text(stem)[0] != '-' && slug_text(stem).last() != '-',
{
    lemma_slug_of_kebab(str_lowercase(trim(stem)));
}

// ── Which PDFs are new ────────────────────────────────────────────────────

/// A PDF file found while walking the PDF folder.
#[derive(Debug, Clone)]
pub struct PdfCandidate {
    pub path: String,
    pub stem: String,
    pub size_bytes: u64,
}

/// The stems of the papers already in the wiki, lower-cased.
pub open spec fn known_stems(stems: Seq<String>) -> Seq<Seq<char>> {
    stems.map_values(|s: String| str_lowercase(s@))
}

/// A candidate whose slug is not among the known stems.
pub open spec fn is_new_pdf(known: Seq<Seq<char>>) -> spec_fn(PdfCandidate) -> bool {
    |c: PdfCandidate| !known.contains(slug_text(c.stem@))
}

/// The candidates whose slug is not among the known stems, in the order
/// they were found.
pub open spec fn new_pdfs(cands: Seq<PdfCandidate>, known: Seq<Seq<char>>) -> Seq<PdfCandidate> {
    cands.filter(is_new_pdf(known))
}

pub open spec fn entry_of(c: PdfCandidate) -> PdfEntry {
    PdfEntry { path: c.path, stem: c.stem, size_bytes: c.size_bytes }
}

fn lowercase_all(v: &Vec<String>) -> (r: Vec<String>)
    ensures
        string_views(r@) == known_stems(v@),
{
    let mut r: Vec<String> = Vec::new();
    let mut i: usize = 0;
    while i < v.len()
        invariant
            i <= v.len(),
            string_views(r@) == known_stems(v@.take(i as int)),
        decreases v.len() - i,
    {
        let ghost prev = r@;
        let l = to_lowercase(v[i].as_str());
        r.push(l);
        assert(v@.take(i + 1) =~= v@.take(i as int).push(v@[i as int]));
        assert(string_views(r@) =~= string_views(prev).push(str_lowercase(v@[i as int]@)));
        assert(known_stems(v@.take(i + 1)) =~= known_stems(v@.take(i as int)).push(
            str_lowercase(v@[i as int]@),
        ));
        i += 1;
    }
    assert(v@.take(v.len() as int) =~= v@);
    r
}

fn contains_text(v: &Vec<String>, x: &String) -> (b: bool)
    ensures
        b == string_views(v@).contains(x@),
{
    let ghost sv = string_views(v@);
    let mut i: usize = 0;
    while i < v.len()
        invariant
            i <= v.len(),
            sv == string_views(v@),
            forall|j: int| 0 <= j < i ==> sv[j] != x@,
        decreases v.len() - i,
    {
        if v[i] == *x {
            assert(sv[i as int] == x@);
            return true;
        }
        i += 1;
    }
    proof {
        if sv.contains(x@) {
            let j = choose|j: int| 0 <= j < sv.len() && sv[j] == x@;
        }
    }
    false
}

/// The PDFs that are not imported yet (their slug is no known stem),
/// sorted by their lower-cased stems.
pub fn unprocessed_pdfs(cands: Vec<PdfCandidate>, existing_stems: &Vec<String>) -> (r: Vec<PdfEntry>)
    ensures
        r@ == sort_by(
            Seq::new(
                new_pdfs(cands@, known_stems(existing_stems@)).len(),
                |i: int|
                    (
                        str_lowercase(new_pdfs(cands@, known_stems(existing_stems@))[i].stem@),
                        entry_of(new_pdfs(cands@, known_stems(existing_stems@))[i]),
                    ),
            ),
            text_order(false),
        ).map_values(|p: (Seq<char>, PdfEntry)| p.1),
        forall|i: int|
            0 <= i < r@.len() ==> !known_stems(existing_stems@).contains(slug_text(#[trigger] r@[i].stem@)),
        forall|c: PdfCandidate|
            #[trigger] cands@.contains(c) && !known_stems(existing_stems@).contains(slug_text(c.stem@))
                ==> r@.contains(entry_of(c)),
{
    let ghost cands0 = cands@;
    let known = lowercase_all(existing_stems);
    let ghost kv = known_stems(existing_stems@);
    let ghost pred = is_new_pdf(kv);
    let ghost all = cands@;
    let mut keys: Vec<Vec<char>> = Vec::new();
    let mut kept: Vec<PdfEntry> = Vec::new();
    let mut rest = cands;
    assert(all.len() == rest.len());
    let mut i: usize = 0;
    while rest.len() > 0
        invariant
            rest@ == all.skip(i as int),
            i <= all.len(),
            all.len() <= usize::MAX,
            pred == is_new_pdf(kv),
            string_views(known@) == kv,
            kept@.len() == keys@.len(),
            kept@ == all.take(i as int).filter(pred).map_values(|c: PdfCandidate| entry_of(c)),
            forall|j: int| 0 <= j < keys@.len() ==> (#[trigger] keys@[j])@ == str_lowercase(kept@[j].stem@),
        decreases rest@.len(),
    {
        let c = rest.remove(0);
        proof {
            assert(c == all[i as int]);
            assert(all.take(i + 1) =~= all.take(i as int).push(c));
            all.take(i as int).lemma_filter_push(c, pred);
            assert(rest@ =~= all.skip(i + 1));
        }
        let slug = slugify(c.stem.as_str());
        if !contains_text(&known, &slug) {
            let l = to_lowercase(c.stem.as_str());
            keys.push(chars_of(l.as_str()));
            let ghost prev = kept@;
            kept.push(PdfEntry { path: c.path, stem: c.stem, size_bytes: c.size_bytes });
            assert(kept@ =~= all.take(i + 1).filter(pred).map_values(|c: PdfCandidate| entry_of(c)));
        } else {
            assert(all.take(i + 1).filter(pred) == all.take(i as int).filter(pred));
        }
        i += 1;
    }
    proof {
        assert(i == all.len());
        assert(all.take(i as int) =~= all);
        assert(new_pdfs(all, kv) == all.filter(pred));
    }
    let ghost kp = kept@;
    let r = crate::sort::sort_by_text_keys(keys, kept, false);
    proof {
        let np = new_pdfs(all, kv);
        assert(Seq::new(kp.len(), |j: int| (keys@[j]@, kp[j])) =~= Seq::new(
            np.len(),
            |j: int| (str_lowercase(np[j].stem@), entry_of(np[j])),
        ));
        lemma_pdf_listing(cands0, kv);
        assert(r@ == pdf_listing(cands0, kv));
        let l = pdf_listing(cands0, kv);
        assert forall|i: int| 0 <= i < r@.len() implies !kv.contains(slug_text(#[trigger] r@[i].stem@)) by {
            assert(r@[i] == l[i]);
            assert(!kv.contains(slug_text(l[i].stem@)));
        }
    }
    r
}

/// The PDFs listed for import, as `unprocessed_pdfs` gives them.
pub open spec fn pdf_listing(cands: Seq<PdfCandidate>, known: Seq<Seq<char>>) -> Seq<PdfEntry> {
    sort_by(
        Seq::new(
            new_pdfs(cands, known).len(),
            |i: int| (str_lowercase(new_pdfs(cands, known)[i].stem@), entry_of(new_pdfs(cands, known)[i])),
        ),
        text_order(false),
    ).map_values(|p: (Seq<char>, PdfEntry)| p.1)
}

/// Law: a PDF is listed exactly when the slug of its stem is not among the
/// known (lower-cased) markdown stems: every listed entry is one of the
/// candidates, with such a slug, and every candidate with such a slug is
/// listed.
pub proof fn lemma_pdf_listing(cands: Seq<PdfCandidate>, known: Seq<Seq<char>>)
    ensures
        forall|i: int|
            0 <= i < pdf_listing(cands, known).len() ==> !known.contains(
                slug_text(#[trigger] pdf_listing(cands, known)[i].stem@),
            ) && exists|c: PdfCandidate| cands.contains(c) && entry_of(c) == pdf_listing(cands, known)[i],
        forall|c: PdfCandidate|
            #[trigger] cands.contains(c) && !known.contains(slug_text(c.stem@)) ==> pdf_listing(
                cands,
                known,
            ).contains(entry_of(c)),
{
    broadcast use vstd::seq_lib::group_filter_ensures;

    let f = new_pdfs(cands, known);
    let pred = is_new_pdf(known);
    let s = Seq::new(f.len(), |i: int| (str_lowercase(f[i].stem@), entry_of(f[i])));
    let snd = |p: (Seq<char>, PdfEntry)| p.1;
    crate::sort::lemma_sort_map_contains(s, text_order(false), snd);
    let r = pdf_listing(cands, known);
    assert(s.map_values(snd) =~= f.map_values(|c: PdfCandidate| entry_of(c)));
    assert forall|i: int| 0 <= i < r.len() implies !known.contains(slug_text(#[trigger] r[i].stem@))
        && exists|c: PdfCandidate| cands.contains(c) && entry_of(c) == r[i] by {
        assert(r.contains(r[i]));
        assert(s.map_values(snd).contains(r[i]));
        let j = choose|j: int| 0 <= j < s.map_values(snd).len() && s.map_values(snd)[j] == r[i];
        let c = f[j];
        assert(entry_of(c) == r[i]);
        cands.lemma_filter_pred(pred, j);
        assert(f.contains(c));
        cands.lemma_filter_contains_rev(pred, c);
    }
    assert forall|c: PdfCandidate|
        #[trigger] cands.contains(c) && !known.contains(slug_text(c.stem@)) implies r.contains(
        entry_of(c),
    ) by {
        let k = choose|k: int| 0 <= k < cands.len() && cands[k] == c;
        cands.lemma_filter_contains(pred, k);
        let j = choose|j: int| 0 <= j < f.len() && f[j] == c;
        assert(s.map_values(snd)[j] == entry_of(c));
        assert(s.map_values(snd).contains(entry_of(c)));
    }
}

/// The refusal of a stem whose slug is empty: `PDF filename "<stem>"
/// produced an empty slug`, the stem written as `Debug` writes it.
pub fn import_slug(stem: &str) -> (r: Result<String, String>)
    ensures
        match r {
            Ok(s) => slug_text(stem@).len() > 0 && s@ == slug_text(stem@),
            Err(e) => slug_text(stem@).len() == 0 && e@ == "PDF filename "@ + crate::gemini::str_debug(
                stem@,
            ) + " produced an empty slug"@,
        },
{
    let slug = slugify(stem);
    if slug.as_str().is_empty() {
        let mut v = chars_of("PDF filename ");
        let d = crate::gemini::debug_quoted(stem);
        let dv = chars_of(d.as_str());
        extend(&mut v, dv.as_slice());
        let t = chars_of(" produced an empty slug");
        extend(&mut v, t.as_slice());
        return Err(string_of(v.as_slice()));
    }
    Ok(slug)
}

/// `content/papers/unclassified/{slug}.md`.
pub open spec fn markdown_path_text(content_root: Seq<char>, slug: Seq<char>) -> Seq<char> {
    join_path(crate::organizer::unclassified_text(content_root), slug + ".md"@)
}

pub fn markdown_path(content_root: &str, slug: &str) -> (r: String)
    ensures
        r@ == markdown_path_text(content_root@, slug@),
{
    let cfg = crate::organizer::OrganizerConfig::new(content_root.to_owned());
    let dir = cfg.unclassified_dir();
    let mut name = chars_of(slug);
    let ext = chars_of(".md");
    extend(&mut name, ext.as_slice());
    let n = string_of(name.as_slice());
    join(dir.as_str(), n.as_str())
}

// ── Fields written into the frontmatter ───────────────────────────────────

/// A frontmatter line that holds the field `name`.
pub open spec fn is_field_line(l: Seq<char>, name: Seq<char>) -> bool {
    starts_with(trim_start_by(l, CharClass::Whitespace), name.push(':'))
}

pub open spec fn not_field_line(name: Seq<char>) -> spec_fn(Seq<char>) -> bool {
    |l: Seq<char>| !is_field_line(l, name)
}

/// `name: value`.
pub open spec fn field_line(name: Seq<char>, value: Seq<char>) -> Seq<char> {
    name + seq![':', ' '] + value
}

/// The markdown with `name: value` as the last frontmatter line and any
/// earlier line of that field dropped; unchanged without a frontmatter
/// block that opens with `---\n` and closes with `\n---`.
pub open spec fn injected_field(md: Seq<char>, name: Seq<char>, value: Seq<char>) -> Seq<char> {
    if !starts_with(md, "---\n"@) {
        md
    } else {
        let after = md.skip(4);
        match find(after, "\n---"@) {
            None => md,
            Some(c) => "---\n"@ + join_text(
                lines(after.take(c)).filter(not_field_line(name)),
                seq!['\n'],
            ) + seq!['\n'] + field_line(name, value) + after.skip(c),
        }
    }
}

/// The markdown with `zotero_key: <key>` written into its frontmatter.
pub open spec fn injected(md: Seq<char>, key: Seq<char>) -> Seq<char> {
    injected_field(md, "zotero_key"@, key)
}

/// Writes `name: value` into the frontmatter, replacing any earlier line of
/// that field.
pub fn inject_field(markdown: &str, name: &str, value: &str) -> (r: String)
    ensures
        r@ == injected_field(markdown@, name@, value@),
{
    proof {
        reveal_strlit("---\n");
    }
    let m = chars_of(markdown);
    let open = chars_of("---\n");
    if !has_prefix(m.as_slice(), open.as_slice()) {
        return markdown.to_owned();
    }
    let after = crate::text::slice_chars(m.as_slice(), 4, m.len());
    assert(after@ =~= markdown@.skip(4));
    let close = chars_of("\n---");
    let c = match find_chars(after.as_slice(), close.as_slice()) {
        None => return markdown.to_owned(),
        Some(c) => c,
    };
    proof {
        crate::text::lemma_find_from(after@, close@, 0);
    }
    let fm = crate::text::slice_chars(after.as_slice(), 0, c);
    assert(fm@ =~= after@.take(c as int));
    let ls = lines_of(fm.as_slice());
    let mut key = chars_of(name);
    key.push(':');
    let ghost lv = views(ls@);
    let ghost pred = not_field_line(name@);
    let mut cleaned: Vec<Vec<char>> = Vec::new();
    let mut i: usize = 0;
    while i < ls.len()
        invariant
            i <= ls.len(),
            lv == views(ls@),
            key@ == name@.push(':'),
            pred == not_field_line(name@),
            views(cleaned@) == lv.take(i as int).filter(pred),
        decreases ls.len() - i,
    {
        proof {
            assert(lv.take(i + 1) =~= lv.take(i as int).push(ls@[i as int]@));
            lv.take(i as int).lemma_filter_push(ls@[i as int]@, pred);
        }
        let t = trim_start_chars(ls[i].as_slice(), CharClass::Whitespace);
        if !has_prefix(t.as_slice(), key.as_slice()) {
            let ghost prev = views(cleaned@);
            cleaned.push(ls[i].clone());
            assert(views(cleaned@) =~= prev.push(ls@[i as int]@));
        }
        i += 1;
    }
    assert(lv.take(ls.len() as int) =~= lv);
    let sep: [char; 1] = ['\n'];
    assert(sep@ =~= seq!['\n']);
    let mut out = chars_of("---\n");
    let j = join_chars(&cleaned, sep.as_slice());
    extend(&mut out, j.as_slice());
    out.push('\n');
    let nm = chars_of(name);
    extend(&mut out, nm.as_slice());
    out.push(':');
    out.push(' ');
    let k = chars_of(value);
    extend(&mut out, k.as_slice());
    let rest = crate::text::slice_chars(after.as_slice(), c, after.len());
    assert(rest@ =~= after@.skip(c as int));
    extend(&mut out, rest.as_slice());
    string_of(out.as_slice())
}

/// Writes the Zotero key into the frontmatter, replacing any earlier one.
pub fn inject_zotero_key(markdown: &str, item_key: &str) -> (r: String)
    ensures
        r@ == injected(markdown@, item_key@),
{
    inject_field(markdown, "zotero_key", item_key)
}

/// The frontmatter lines that writing the field `name` keeps (none
/// without a frontmatter block).
pub open spec fn kept_lines(md: Seq<char>, name: Seq<char>) -> Seq<Seq<char>> {
    if !starts_with(md, "---\n"@) {
        seq![]
    } else {
        match find(md.skip(4), "\n---"@) {
            None => seq![],
            Some(c) => lines(md.skip(4).take(c)).filter(not_field_line(name)),
        }
    }
}

/// From the second on, no line opens with `---`.
pub open spec fn later_lines_plain(ls: Seq<Seq<char>>) -> bool {
    forall|j: int| 1 <= j < ls.len() ==> !starts_with(#[trigger] ls[j], fm_open())
}

/// Filtering keeps lines one-line and keeps later lines plain.
proof fn lemma_filter_keeps(ls: Seq<Seq<char>>, f: spec_fn(Seq<char>) -> bool)
    requires
        later_lines_plain(ls),
        forall|j: int| 0 <= j < ls.len() ==> one_line(#[trigger] ls[j]),
    ensures
        later_lines_plain(ls.filter(f)),
        forall|j: int| 0 <= j < ls.filter(f).len() ==> one_line(#[trigger] ls.filter(f)[j]),
        forall|j: int| 0 <= j < ls.filter(f).len() ==> f(#[trigger] ls.filter(f)[j]),
    decreases ls.len(),
{
    if ls.len() > 0 {
        let init = ls.drop_last();
        let x = ls.last();
        lemma_filter_keeps(init, f);
        init.lemma_filter_push(x, f);
        init.lemma_filter_len(f);
        assert(init.push(x) =~= ls);
        if f(x) {
            let fi = init.filter(f);
            assert(ls.filter(f) == fi.push(x));
            if fi.len() > 0 {
                assert(!starts_with(ls[ls.len() - 1], fm_open()));
            }
            assert forall|j: int| 1 <= j < ls.filter(f).len() implies !starts_with(
                #[trigger] ls.filter(f)[j],
                fm_open(),
            ) by {
                if j < fi.len() {
                    assert(ls.filter(f)[j] == fi[j]);
                }
            }
            assert forall|j: int| 0 <= j < ls.filter(f).len() implies one_line(
                #[trigger] ls.filter(f)[j],
            ) && f(ls.filter(f)[j]) by {
                if j < fi.len() {
                    assert(ls.filter(f)[j] == fi[j]);
                } else {
                    assert(one_line(ls[ls.len() - 1]));
                }
            }
        }
    }
}

/// Filtering by a predicate that holds of every element changes nothing.
proof fn lemma_filter_all(s: Seq<Seq<char>>, f: spec_fn(Seq<char>) -> bool)
    requires
        forall|j: int| 0 <= j < s.len() ==> f(#[trigger] s[j]),
    ensures
        s.filter(f) == s,
    decreases s.len(),
{
    if s.len() > 0 {
        lemma_filter_all(s.drop_last(), f);
        s.drop_last().lemma_filter_push(s.last(), f);
        assert(s.drop_last().push(s.last()) =~= s);
    }
}

/// Joining one-line pieces, none but the first opening with `---`, gives a
/// text without `\n---`.
proof fn lemma_join_no_close(ls: Seq<Seq<char>>)
    requires
        later_lines_plain(ls),
        forall|j: int| 0 <= j < ls.len() ==> one_line(#[trigger] ls[j]),
    ensures
        no_close(join_text(ls, nl())),
    decreases ls.len(),
{
    let s = join_text(ls, nl());
    if ls.len() == 1 {
        assert forall|m: int| !occurs_at(s, fm_close(), m) by {
            if occurs_at(s, fm_close(), m) {
                assert(s.subrange(m, m + 4)[0] == s[m]);
                assert(one_line(ls[0]));
            }
        }
    } else if ls.len() > 1 {
        let a = ls[0];
        let rest = ls.drop_first();
        let r = join_text(rest, nl());
        assert forall|j: int| 1 <= j < rest.len() implies !starts_with(#[trigger] rest[j], fm_open()) by {
            assert(rest[j] == ls[j + 1]);
        }
        assert forall|j: int| 0 <= j < rest.len() implies one_line(#[trigger] rest[j]) by {
            assert(rest[j] == ls[j + 1]);
        }
        lemma_join_no_close(rest);
        assert(s == a + nl() + r);
        let k = a.len() as int;
        assert(one_line(a));
        assert forall|m: int| !occurs_at(s, fm_close(), m) by {
            if occurs_at(s, fm_close(), m) {
                let w = s.subrange(m, m + 4);
                assert(w =~= fm_close());
                assert(w[0] == s[m]);
                if m < k {
                    assert(s[m] == a[m]);
                } else if m == k {
                    let b = rest[0];
                    assert(b == ls[1]);
                    assert(w[1] == r[0] && w[2] == r[1] && w[3] == r[2]);
                    if rest.len() == 1 {
                        assert(r == b);
                    } else {
                        assert(r == b + nl() + join_text(rest.drop_first(), nl()));
                    }
                    if b.len() >= 3 {
                        assert(r[0] == b[0] && r[1] == b[1] && r[2] == b[2]);
                        assert(b.subrange(0, 3) =~= fm_open());
                    } else {
                        assert(r[b.len() as int] == '\n');
                    }
                } else {
                    assert(r.subrange(m - k - 1, m - k + 3) =~= w);
                    assert(occurs_at(r, fm_close(), m - k - 1));
                }
            }
        }
    }
}

/// After an injection the first `\n---` is the block's closing one.
proof fn lemma_find_after_injection(j: Seq<char>, x: Seq<char>, t: Seq<char>)
    requires
        no_close(j),
        one_line(x),
        x.len() > 0,
        x[0] != '-',
        occurs_at(t, fm_close(), 0),
    ensures
        find(j + nl() + x + t, fm_close()) == Some((j.len() + 1 + x.len()) as int),
{
    let s = j + nl() + x + t;
    let c = (j.len() + 1 + x.len()) as int;
    lemma_find_from(s, fm_close(), 0);
    assert(s.subrange(c, c + 4) =~= t.subrange(0, 4));
    assert(occurs_at(s, fm_close(), c));
    match find(s, fm_close()) {
        Some(i) => {
            if i < c {
                let w = s.subrange(i, i + 4);
                assert(w =~= fm_close());
                assert(w[0] == s[i]);
                assert(s[j.len() as int] == '\n');
                if i < j.len() {
                    if i + 4 <= j.len() {
                        assert(j.subrange(i, i + 4) =~= w);
                        assert(occurs_at(j, fm_close(), i));
                    } else {
                        assert(w[j.len() - i] == s[j.len() as int]);
                    }
                } else if i == j.len() {
                    assert(w[1] == s[i + 1]);
                    assert(s[i + 1] == x[0]);
                } else {
                    assert(s[i] == x[i - j.len() - 1]);
                }
            }
        },
        None => {},
    }
}

/// A name a field can be written under: not empty, one line, and not
/// opening with whitespace or `-`.
pub open spec fn field_name_ok(name: Seq<char>) -> bool {
    &&& name.len() > 0
    &&& name[0] != '-'
    &&& !crate::text::is_ws(name[0])
    &&& one_line(name)
}

/// The line an injection writes is a one-line line of its field.
proof fn lemma_field_line(name: Seq<char>, value: Seq<char>)
    requires
        field_name_ok(name),
        one_line(value),
    ensures
        field_line(name, value).len() > 0,
        field_line(name, value)[0] != '-',
        one_line(field_line(name, value)),
        !not_field_line(name)(field_line(name, value)),
{
    let x = field_line(name, value);
    let n = name.len() as int;
    assert forall|m: int| 0 <= m < x.len() implies x[m] != '\n' by {
        if m < n {
            assert(x[m] == name[m]);
        } else if m >= n + 2 {
            assert(x[m] == value[m - n - 2]);
        }
    }
    assert(x[0] == name[0]);
    crate::text::lemma_lead_len(x, CharClass::Whitespace, 0);
    assert(x.skip(0) =~= x);
    assert(x.subrange(0, n + 1) =~= name.push(':'));
}

/// Splitting kept lines joined and followed by a line of the field, and
/// dropping the field's lines, joins back to the same text.
proof fn lemma_kept_again(kept: Seq<Seq<char>>, x: Seq<char>, name: Seq<char>)
    requires
        forall|j: int|
            0 <= j < kept.len() ==> one_line(#[trigger] kept[j]) && !ends_cr(kept[j])
                && not_field_line(name)(kept[j]),
        x.len() > 0,
        one_line(x),
        !not_field_line(name)(x),
    ensures
        join_text(lines(join_text(kept, nl()) + nl() + x).filter(not_field_line(name)), nl())
            == join_text(kept, nl()),
{
    let jn = join_text(kept, nl());
    let ls2 = lines(jn + nl() + x);
    if kept.len() == 0 {
        let e = seq![Seq::<char>::empty()];
        lemma_find_first_newline(Seq::<char>::empty(), x);
        assert(jn + nl() + x =~= Seq::<char>::empty() + nl() + x);
        assert((jn + nl() + x).take(0) =~= Seq::<char>::empty());
        assert((jn + nl() + x).skip(1) =~= x);
        lemma_lines_single(x);
        assert(ls2 =~= e.push(x));
        e.lemma_filter_push(x, not_field_line(name));
        assert(lead_len(Seq::<char>::empty(), CharClass::Whitespace) == 0);
        assert(!is_field_line(e[0], name));
        assert(not_field_line(name)(e[0]));
        lemma_filter_all(e, not_field_line(name));
        assert(ls2.filter(not_field_line(name)) == e);
    } else {
        lemma_lines_of_join(kept, x);
        kept.lemma_filter_push(x, not_field_line(name));
        lemma_filter_all(kept, not_field_line(name));
        assert(ls2.filter(not_field_line(name)) == kept);
    }
}

/// Law: writing the same field twice gives what writing it once gives
/// (for the Zotero key, `name` is `zotero_key`; for the tags, `tags`).
/// The earlier line of the field is dropped and the same one written again,
/// so the value must be a single line; and splitting the written
/// frontmatter again would drop a `\r` that ends a kept line, so none may.
pub proof fn lemma_inject_idempotent(md: Seq<char>, name: Seq<char>, value: Seq<char>)
    requires
        field_name_ok(name),
        one_line(value),
        forall|j: int|
            0 <= j < kept_lines(md, name).len() ==> !ends_cr(#[trigger] kept_lines(md, name)[j]),
    ensures
        injected_field(injected_field(md, name, value), name, value) == injected_field(md, name, value),
{
    reveal_strlit("---\n");
    reveal_strlit("\n---");
    assert("\n---"@ == fm_close());
    if starts_with(md, "---\n"@) {
        let after = md.skip(4);
        lemma_find_from(after, "\n---"@, 0);
        match find(after, "\n---"@) {
            None => {},
            Some(c) => {
                let fm = after.take(c);
                assert forall|m: int| !occurs_at(fm, fm_close(), m) by {
                    if occurs_at(fm, "\n---"@, m) {
                        assert(after.subrange(m, m + 4) =~= fm.subrange(m, m + 4));
                        assert(occurs_at(after, "\n---"@, m));
                    }
                }
                let ls = lines(fm);
                lemma_lines_one_line(fm);
                lemma_later_lines_open(fm);
                let kept = ls.filter(not_field_line(name));
                assert(kept == kept_lines(md, name));
                lemma_filter_keeps(ls, not_field_line(name));
                let jn = join_text(kept, nl());
                lemma_join_no_close(kept);
                let x = field_line(name, value);
                lemma_field_line(name, value);
                let t = after.skip(c);
                assert(t.subrange(0, 4) =~= after.subrange(c, c + 4));
                let r = injected_field(md, name, value);
                assert(seq!['\n'] == nl());
                assert(r =~= "---\n"@ + jn + nl() + x + t);
                assert(r.subrange(0, 4) =~= "---\n"@);
                let after2 = r.skip(4);
                assert(after2 =~= jn + nl() + x + t);
                lemma_find_after_injection(jn, x, t);
                let c2 = (jn.len() + 1 + x.len()) as int;
                assert(after2.take(c2) =~= jn + nl() + x);
                assert(after2.skip(c2) =~= t);
                lemma_kept_again(kept, x, name);
                assert(injected_field(r, name, value) =~= r);
            },
        }
    }
}

// ── Which Zotero items are new ────────────────────────────────────────────

/// The text a Zotero entry's slug comes from: the attachment's file stem
/// (its file name when it has none), else the item's title.
pub open spec fn slug_source(e: crate::zotero::ZoteroPdfEntry) -> Seq<char> {
    match e.filename {
        Some(f) => match path_file_stem(f@) {
            Some(s) => s,
            None => f@,
        },
        None => e.title@,
    }
}

/// A collection that is the unclassified one does not count as a category.
pub open spec fn category_of_collection(name: Option<Seq<char>>) -> Option<Seq<char>> {
    match name {
        Some(n) => if str_lowercase(n) == "unclassified"@ {
            None
        } else {
            Some(n)
        },
        None => None,
    }
}

/// The entry waits for import: its slug is not empty and not a known stem.
pub open spec fn waits_for_import(e: crate::zotero::ZoteroPdfEntry, known: Seq<Seq<char>>) -> bool {
    slug_text(slug_source(e)).len() > 0 && !known.contains(slug_text(slug_source(e)))
}

pub open spec fn import_entry_view(e: ZoteroPdfImportEntry) -> (Seq<char>, Seq<char>, Seq<char>, Seq<char>, Option<Seq<char>>) {
    (e.item_key@, e.attachment_key@, e.title@, e.slug@, opt_string(e.collection_name))
}

pub open spec fn import_view_of(e: crate::zotero::ZoteroPdfEntry) -> (Seq<char>, Seq<char>, Seq<char>, Seq<char>, Option<Seq<char>>) {
    (
        e.item_key@,
        e.attachment_key@,
        e.title@,
        slug_text(slug_source(e)),
        category_of_collection(opt_string(e.collection_name)),
    )
}

pub open spec fn waiting_pred(known: Seq<Seq<char>>) -> spec_fn(crate::zotero::ZoteroPdfEntry) -> bool {
    |e: crate::zotero::ZoteroPdfEntry| waits_for_import(e, known)
}

/// The Zotero entries that are not imported yet, as import candidates.
pub open spec fn new_imports(raw: Seq<crate::zotero::ZoteroPdfEntry>, known: Seq<Seq<char>>) -> Seq<crate::zotero::ZoteroPdfEntry> {
    raw.filter(waiting_pred(known))
}

/// The Zotero entries not imported yet, as import candidates, sorted by
/// their lower-cased titles.
pub fn dedup_zotero_entries(raw: Vec<crate::zotero::ZoteroPdfEntry>, existing_stems: &Vec<String>) -> (r: Vec<ZoteroPdfImportEntry>)
    ensures
        r@.map_values(|e: ZoteroPdfImportEntry| import_entry_view(e)) == sort_by(
            Seq::new(
                new_imports(raw@, known_stems(existing_stems@)).len(),
                |i: int|
                    (
                        str_lowercase(new_imports(raw@, known_stems(existing_stems@))[i].title@),
                        import_view_of(new_imports(raw@, known_stems(existing_stems@))[i]),
                    ),
            ),
            text_order(false),
        ).map_values(|p: (Seq<char>, (Seq<char>, Seq<char>, Seq<char>, Seq<char>, Option<Seq<char>>))| p.1),
        forall|i: int|
            0 <= i < r@.len() ==> (#[trigger] r@[i]).slug@.len() > 0 && !known_stems(existing_stems@).contains(
                r@[i].slug@,
            ),
        forall|e: crate::zotero::ZoteroPdfEntry|
            #[trigger] raw@.contains(e) && slug_text(slug_source(e)).len() > 0 && !known_stems(
                existing_stems@,
            ).contains(slug_text(slug_source(e))) ==> r@.map_values(
                |x: ZoteroPdfImportEntry| import_entry_view(x),
            ).contains(import_view_of(e)),
{
    let ghost raw0 = raw@;
    let known = lowercase_all(existing_stems);
    let ghost kv = known_stems(existing_stems@);
    let ghost pred = waiting_pred(kv);
    let ghost all = raw@;
    let mut keys: Vec<Vec<char>> = Vec::new();
    let mut kept: Vec<ZoteroPdfImportEntry> = Vec::new();
    let mut rest = raw;
    assert(all.len() == rest.len());
    let mut i: usize = 0;
    while rest.len() > 0
        invariant
            rest@ == all.skip(i as int),
            i <= all.len(),
            all.len() <= usize::MAX,
            pred == waiting_pred(kv),
            string_views(known@) == kv,
            kept@.len() == keys@.len(),
            kept@.map_values(|e: ZoteroPdfImportEntry| import_entry_view(e)) == all.take(i as int).filter(
                pred,
            ).map_values(|e: crate::zotero::ZoteroPdfEntry| import_view_of(e)),
            forall|j: int| 0 <= j < keys@.len() ==> (#[trigger] keys@[j])@ == str_lowercase(kept@[j].title@),
        decreases rest@.len(),
    {
        let e = rest.remove(0);
        proof {
            assert(e == all[i as int]);
            assert(all.take(i + 1) =~= all.take(i as int).push(e));
            all.take(i as int).lemma_filter_push(e, pred);
            assert(rest@ =~= all.skip(i + 1));
        }
        let source = match &e.filename {
            Some(f) => match crate::paths::file_stem(f.as_str()) {
                Some(s) => s,
                None => f.clone(),
            },
            None => e.title.clone(),
        };
        let slug = slugify(source.as_str());
        if !slug.as_str().is_empty() && !contains_text(&known, &slug) {
            let collection_name = match e.collection_name {
                Some(n) => {
                    let l = to_lowercase(n.as_str());
                    if l == "unclassified".to_owned() {
                        None
                    } else {
                        Some(n)
                    }
                },
                None => None,
            };
            let l = to_lowercase(e.title.as_str());
            keys.push(chars_of(l.as_str()));
            let ghost prev = kept@;
            let ghost ev = e;
            let item = ZoteroPdfImportEntry {
                item_key: e.item_key,
                attachment_key: e.attachment_key,
                title: e.title,
                slug,
                collection_name,
            };
            assert(source@ == slug_source(ev));
            assert(pred(ev));
            assert(import_entry_view(item) == import_view_of(ev));
            kept.push(item);
            assert(kept@.map_values(|e: ZoteroPdfImportEntry| import_entry_view(e)) =~= prev.map_values(
                |e: ZoteroPdfImportEntry| import_entry_view(e),
            ).push(import_view_of(ev)));
            assert(kept@.map_values(|e: ZoteroPdfImportEntry| import_entry_view(e)) =~= all.take(
                i + 1,
            ).filter(pred).map_values(|e: crate::zotero::ZoteroPdfEntry| import_view_of(e)));
        } else {
            assert(all.take(i + 1).filter(pred) == all.take(i as int).filter(pred));
        }
        i += 1;
    }
    proof {
        assert(all.take(i as int) =~= all);
    }
    let ghost kp = kept@;
    let r = crate::sort::sort_by_text_keys(keys, kept, false);
    proof {
        let np = new_imports(all, kv);
        let f = |e: ZoteroPdfImportEntry| import_entry_view(e);
        assert(kp.map_values(f) == np.map_values(|e: crate::zotero::ZoteroPdfEntry| import_view_of(e)));
        assert forall|j: int| 0 <= j < kp.len() implies f(#[trigger] kp[j]) == import_view_of(np[j]) && keys@[j]@ == str_lowercase(np[j].title@) by {
            assert(kp.map_values(f)[j] == np.map_values(|e: crate::zotero::ZoteroPdfEntry| import_view_of(e))[j]);
        }
        let tagged = Seq::new(kp.len(), |j: int| (keys@[j]@, kp[j]));
        let le2 = text_order::<(Seq<char>, Seq<char>, Seq<char>, Seq<char>, Option<Seq<char>>)>(false);
        let h = |p: (Seq<char>, ZoteroPdfImportEntry)| (p.0, f(p.1));
        assert forall|a: (Seq<char>, ZoteroPdfImportEntry), b: (Seq<char>, ZoteroPdfImportEntry)|
            tagged.contains(a) && tagged.contains(b) implies (text_order::<ZoteroPdfImportEntry>(false))(a, b) == le2(h(a), h(b)) by {}
        crate::sort::lemma_sort_map(tagged, h, text_order::<ZoteroPdfImportEntry>(false), le2);
        assert(tagged.map_values(h) =~= Seq::new(
            np.len(),
            |j: int| (str_lowercase(np[j].title@), import_view_of(np[j])),
        ));
        assert(r@.map_values(f) =~= crate::sort::sort_by(tagged, text_order::<ZoteroPdfImportEntry>(false)).map_values(
            |p: (Seq<char>, ZoteroPdfImportEntry)| p.1,
        ).map_values(f));
        assert(crate::sort::sort_by(tagged, text_order::<ZoteroPdfImportEntry>(false)).map_values(
            |p: (Seq<char>, ZoteroPdfImportEntry)| p.1,
        ).map_values(f) =~= crate::sort::sort_by(tagged, text_order::<ZoteroPdfImportEntry>(false)).map_values(h).map_values(
            |p: (Seq<char>, (Seq<char>, Seq<char>, Seq<char>, Seq<char>, Option<Seq<char>>))| p.1,
        ));
    }
    proof {
        lemma_import_listing(raw0, kv);
        let v = r@.map_values(|x: ZoteroPdfImportEntry| import_entry_view(x));
        assert(v == import_listing(raw0, kv));
        assert forall|k: int| 0 <= k < r@.len() implies (#[trigger] r@[k]).slug@.len() > 0
            && !kv.contains(r@[k].slug@) by {
            assert(v[k] == import_entry_view(r@[k]));
            assert(v[k].3.len() > 0 && !kv.contains(v[k].3));
        }
    }
    r
}

/// The import candidates as `dedup_zotero_entries` lists them, by view.
pub open spec fn import_listing(raw: Seq<crate::zotero::ZoteroPdfEntry>, known: Seq<Seq<char>>) -> Seq<
    (Seq<char>, Seq<char>, Seq<char>, Seq<char>, Option<Seq<char>>),
> {
    sort_by(
        Seq::new(
            new_imports(raw, known).len(),
            |i: int| (str_lowercase(new_imports(raw, known)[i].title@), import_view_of(new_imports(raw, known)[i])),
        ),
        text_order(false),
    ).map_values(|p: (Seq<char>, (Seq<char>, Seq<char>, Seq<char>, Seq<char>, Option<Seq<char>>))| p.1)
}

/// Law: a Zotero entry is offered for import exactly when its slug is not
/// empty and not among the known (lower-cased) markdown stems: every
/// offered entry is one of the given ones and carries such a slug, and
/// every given entry with such a slug is offered.
pub proof fn lemma_import_listing(raw: Seq<crate::zotero::ZoteroPdfEntry>, known: Seq<Seq<char>>)
    ensures
        forall|i: int|
            0 <= i < import_listing(raw, known).len() ==> (#[trigger] import_listing(raw, known)[i]).3.len() > 0
                && !known.contains(import_listing(raw, known)[i].3) && exists|e: crate::zotero::ZoteroPdfEntry|
                raw.contains(e) && import_view_of(e) == import_listing(raw, known)[i],
        forall|e: crate::zotero::ZoteroPdfEntry|
            #[trigger] raw.contains(e) && slug_text(slug_source(e)).len() > 0 && !known.contains(
                slug_text(slug_source(e)),
            ) ==> import_listing(raw, known).contains(import_view_of(e)),
{
    broadcast use vstd::seq_lib::group_filter_ensures;

    let f = new_imports(raw, known);
    let pred = waiting_pred(known);
    let s = Seq::new(f.len(), |i: int| (str_lowercase(f[i].title@), import_view_of(f[i])));
    let snd = |p: (Seq<char>, (Seq<char>, Seq<char>, Seq<char>, Seq<char>, Option<Seq<char>>))| p.1;
    crate::sort::lemma_sort_map_contains(s, text_order(false), snd);
    let r = import_listing(raw, known);
    assert(s.map_values(snd) =~= f.map_values(|e: crate::zotero::ZoteroPdfEntry| import_view_of(e)));
    assert forall|i: int| 0 <= i < r.len() implies (#[trigger] r[i]).3.len() > 0 && !known.contains(r[i].3)
        && exists|e: crate::zotero::ZoteroPdfEntry| raw.contains(e) && import_view_of(e) == r[i] by {
        assert(r.contains(r[i]));
        assert(s.map_values(snd).contains(r[i]));
        let j = choose|j: int| 0 <= j < s.map_values(snd).len() && s.map_values(snd)[j] == r[i];
        let e = f[j];
        assert(import_view_of(e) == r[i]);
        raw.lemma_filter_pred(pred, j);
        assert(f.contains(e));
        raw.lemma_filter_contains_rev(pred, e);
    }
    assert forall|e: crate::zotero::ZoteroPdfEntry|
        #[trigger] raw.contains(e) && slug_text(slug_source(e)).len() > 0 && !known.contains(
            slug_text(slug_source(e)),
        ) implies r.contains(import_view_of(e)) by {
        let k = choose|k: int| 0 <= k < raw.len() && raw[k] == e;
        raw.lemma_filter_contains(pred, k);
        let j = choose|j: int| 0 <= j < f.len() && f[j] == e;
        assert(s.map_values(snd)[j] == import_view_of(e));
        assert(s.map_values(snd).contains(import_view_of(e)));
    }
}

// ── Existing categories ───────────────────────────────────────────────────

/// A folder under `papers/` that is a category: not hidden and not
/// `unclassified`.
pub open spec fn category_entry(name: Seq<char>, is_dir: bool) -> bool {
    is_dir && !starts_with(name, "."@) && name != "unclassified"@
}

pub open spec fn category_pred() -> spec_fn((String, bool)) -> bool {
    |e: (String, bool)| category_entry(e.0@, e.1)
}

/// The category folders, sorted by name.
pub fn existing_categories(entries: &Vec<(String, bool)>) -> (r: Vec<String>)
    ensures
        string_views(r@) == sort_by(
            entries@.filter(category_pred()).map_values(
                |e: (String, bool)| (e.0@, e.0@),
            ),
            text_order(false),
        ).map_values(|p: (Seq<char>, Seq<char>)| p.1),
{
    let ghost pred = category_pred();
    let dot = chars_of(".");
    let unc = "unclassified".to_owned();
    let mut keys: Vec<Vec<char>> = Vec::new();
    let mut names: Vec<String> = Vec::new();
    let mut i: usize = 0;
    while i < entries.len()
        invariant
            i <= entries.len(),
            dot@ == "."@,
            unc@ == "unclassified"@,
            pred == category_pred(),
            keys@.len() == names@.len(),
            names@.map_values(|n: String| (n@, n@)) == entries@.take(i as int).filter(pred).map_values(
                |e: (String, bool)| (e.0@, e.0@),
            ),
            forall|j: int| 0 <= j < keys@.len() ==> (#[trigger] keys@[j])@ == names@[j]@,
        decreases entries.len() - i,
    {
        proof {
            assert(entries@.take(i + 1) =~= entries@.take(i as int).push(entries@[i as int]));
            entries@.take(i as int).lemma_filter_push(entries@[i as int], pred);
        }
        let (name, is_dir) = (&entries[i].0, entries[i].1);
        let n = chars_of(name.as_str());
        if is_dir && !has_prefix(n.as_slice(), dot.as_slice()) && !(*name == unc) {
            keys.push(n);
            let ghost prev = names@;
            assert(pred(entries@[i as int]));
            names.push(name.clone());
            assert(names@.map_values(|n: String| (n@, n@)) =~= prev.map_values(|n: String| (n@, n@)).push(
                (entries@[i as int].0@, entries@[i as int].0@),
            ));
            assert(names@.map_values(|n: String| (n@, n@)) =~= entries@.take(i + 1).filter(pred).map_values(
                |e: (String, bool)| (e.0@, e.0@),
            ));
        }
        i += 1;
    }
    assert(entries@.take(entries.len() as int) =~= entries@);
    let ghost nv = names@;
    let r = crate::sort::sort_by_text_keys(keys, names, false);
    proof {
        let h = |p: (Seq<char>, String)| (p.0, p.1@);
        let tagged = Seq::new(nv.len(), |j: int| (keys@[j]@, nv[j]));
        let le2 = text_order::<Seq<char>>(false);
        assert forall|a: (Seq<char>, String), b: (Seq<char>, String)|
            tagged.contains(a) && tagged.contains(b) implies (text_order::<String>(false))(a, b) == le2(h(a), h(b)) by {}
        crate::sort::lemma_sort_map(tagged, h, text_order::<String>(false), le2);
        assert(tagged.map_values(h) =~= nv.map_values(|n: String| (n@, n@)));
        assert(string_views(r@) =~= crate::sort::sort_by(tagged, text_order::<String>(false)).map_values(h).map_values(
            |p: (Seq<char>, Seq<char>)| p.1,
        ));
    }
    r
}

// ── Frontmatter reading and names ─────────────────────────────────────────

/// Reads `title` and `abstract` from the frontmatter: the last line that
/// carries each, empty when there is none.
pub fn extract_title_and_abstract(markdown: &str) -> (r: (String, String))
    ensures
        r.0@ == last_keyed(simple_yaml_lines(markdown@), "title:"@),
        r.1@ == last_keyed(simple_yaml_lines(markdown@), "abstract:"@),
{
    let c = chars_of(markdown);
    let ls = simple_yaml_lines_of(c.as_slice());
    let tk = chars_of("title:");
    let ak = chars_of("abstract:");
    let t = last_keyed_of(&ls, tk.as_slice());
    let a = last_keyed_of(&ls, ak.as_slice());
    (string_of(t.as_slice()), string_of(a.as_slice()))
}

/// The collection a listing of unclassified items reads: the one given,
/// trimmed, or the default one when none is given or it is blank.
pub fn unclassified_collection(collection: Option<&str>) -> (r: String)
    ensures
        r@ == (match collection {
            Some(c) if trim(c@).len() > 0 => trim(c@),
            _ => DEFAULT_UNCLASSIFIED_COLLECTION@,
        }),
{
    match collection {
        Some(c) => {
            let t = crate::text::trim_str(c);
            if t.as_str().is_empty() {
                DEFAULT_UNCLASSIFIED_COLLECTION.to_owned()
            } else {
                t
            }
        },
        None => DEFAULT_UNCLASSIFIED_COLLECTION.to_owned(),
    }
}

/// The slug of an imported Zotero item: from its title (the key when it
/// has none), or from the key when that slug is empty.
pub fn zotero_slug(title: Option<&str>, item_key: &str) -> (r: String)
    ensures
        r@ == (if slug_text(
            match title {
                Some(t) => t@,
                None => item_key@,
            },
        ).len() > 0 {
            slug_text(
                match title {
                    Some(t) => t@,
                    None => item_key@,
                },
            )
        } else {
            slug_text(item_key@)
        }),
{
    let t = match title {
        Some(t) => t,
        None => item_key,
    };
    let s = slugify(t);
    if s.as_str().is_empty() {
        slugify(item_key)
    } else {
        s
    }
}

/// The title classification is given: the one in the frontmatter, or the
/// item's title when that is empty.
pub fn classify_title(extracted: String, title: String) -> (r: String)
    ensures
        r@ == (if extracted@.len() == 0 {
            title@
        } else {
            extracted@
        }),
{
    if extracted.as_str().is_empty() {
        title
    } else {
        extracted
    }
}

// ── Orders ────────────────────────────────────────────────────────────────

/// Law: the PDFs still to import come sorted by their lower-cased stems.
pub proof fn lemma_unprocessed_sorted(cands: Seq<PdfCandidate>, existing_stems: Seq<String>)
    ensures
        crate::sort::ordered_by(
            crate::sort::sorted_values(
                Seq::new(
                    new_pdfs(cands, known_stems(existing_stems)).len(),
                    |i: int|
                        (
                            str_lowercase(new_pdfs(cands, known_stems(existing_stems))[i].stem@),
                            entry_of(new_pdfs(cands, known_stems(existing_stems))[i]),
                        ),
                ),
                false,
            ),
            false,
            |e: PdfEntry| str_lowercase(e.stem@),
        ),
{
    let np = new_pdfs(cands, known_stems(existing_stems));
    crate::sort::lemma_sorted_values(
        Seq::new(np.len(), |i: int| (str_lowercase(np[i].stem@), entry_of(np[i]))),
        false,
        |e: PdfEntry| str_lowercase(e.stem@),
    );
}

/// Law: the Zotero items still to import come sorted by their lower-cased
/// titles.
pub proof fn lemma_new_imports_sorted(raw: Seq<crate::zotero::ZoteroPdfEntry>, existing_stems: Seq<String>)
    ensures
        crate::sort::ordered_by(
            crate::sort::sorted_values(
                Seq::new(
                    new_imports(raw, known_stems(existing_stems)).len(),
                    |i: int|
                        (
                            str_lowercase(new_imports(raw, known_stems(existing_stems))[i].title@),
                            import_view_of(new_imports(raw, known_stems(existing_stems))[i]),
                        ),
                ),
                false,
            ),
            false,
            |v: (Seq<char>, Seq<char>, Seq<char>, Seq<char>, Option<Seq<char>>)| str_lowercase(v.2),
        ),
{
    let ni = new_imports(raw, known_stems(existing_stems));
    crate::sort::lemma_sorted_values(
        Seq::new(ni.len(), |i: int| (str_lowercase(ni[i].title@), import_view_of(ni[i]))),
        false,
        |v: (Seq<char>, Seq<char>, Seq<char>, Seq<char>, Option<Seq<char>>)| str_lowercase(v.2),
    );
}

/// Law: the existing categories come sorted by name.
pub proof fn lemma_existing_categories_sorted(entries: Seq<(String, bool)>)
    ensures
        crate::sort::ordered_by(
            crate::sort::sorted_values(
                entries.filter(category_pred()).map_values(|e: (String, bool)| (e.0@, e.0@)),
                false,
            ),
            false,
            |n: Seq<char>| n,
        ),
{
    crate::sort::lemma_sorted_values(
        entries.filter(category_pred()).map_values(|e: (String, bool)| (e.0@, e.0@)),
        false,
        |n: Seq<char>| n,
    );
}

} // verus!

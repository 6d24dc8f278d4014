//! The content folder as the wiki shows it: category cards, the category
//! tree, paper lists and the raw frontmatter of each paper.
//!
//! The folder is read by the caller; these functions decide what is shown
//! from what was read.  Nothing here writes to disk.
use vstd::prelude::*;

use crate::clock::{earlier, is_earlier, opt_string_view, rfc3339_of, utc_rfc3339, FileTime};
use crate::sort::{lemma_sorted_values, ordered_by, sort_by, sort_by_text_keys, sorted_values, text_order};
use crate::text::{
    chars_of, ends_with, find, find_chars, has_prefix, has_suffix, slice_chars, starts_with,
    string_of, strip_prefix, strip_prefix_chars, extend,
};

verus! {

// ── Public types ───────────────────────────────────────────────────────────

/// One category card shown on the dashboard.
#[derive(Debug, Clone)]
pub struct CategoryInfo {
    /// Lower-case kebab-case folder name (matches the Zotero collection name).
    pub name: String,
    pub paper_count: u32,
    /// Latest paper mtime as RFC 3339, or `None` if the category is empty.
    pub latest_paper_date: Option<String>,
}

/// One node in the nested category tree.
#[derive(Debug)]
pub struct CategoryNode {
    /// Just this folder's name, e.g. `"deep-learning"`.
    pub name: String,
    /// Path relative to `content/papers/` with `/` separators.
    pub path: String,
    /// Papers directly in this folder.
    pub paper_count: u32,
    /// Papers in this folder plus all descendants.
    pub total_paper_count: u32,
    pub latest_paper_date: Option<String>,
    /// Immediate child categories, sorted by name.
    pub children: Vec<CategoryNode>,
}

/// Lightweight paper descriptor used for list views: the raw YAML block,
/// not the body.
#[derive(Debug, Clone)]
pub struct PaperFrontmatter {
    pub slug: String,
    pub category: String,
    /// Raw YAML between the leading and trailing `---` (empty if none).
    pub frontmatter: String,
    /// RFC 3339 mtime, used as a stand-in for "created at".
    pub created_at: String,
}

/// Full paper payload for the single-paper view.
#[derive(Debug, Clone)]
pub struct PaperFile {
    pub slug: String,
    pub category: String,
    /// Entire markdown file including frontmatter.
    pub content: String,
    pub created_at: String,
}

/// A file in `content/papers/unclassified/` waiting to be organised.
#[derive(Debug, Clone)]
pub struct UnclassifiedPaper {
    /// Absolute filesystem path.
    pub path: String,
    pub name: String,
    pub created_at: String,
}

/// A file as listed by the caller: its name and, when readable, its mtime.
#[derive(Debug, Clone)]
pub struct FileScan {
    pub name: String,
    pub mtime: Option<FileTime>,
}

/// A directory entry under `content/papers/` as listed by the caller; for a
/// directory, `files` are its direct entries (empty when unreadable).
#[derive(Debug, Clone)]
pub struct DirScan {
    pub name: String,
    pub is_dir: bool,
    pub files: Vec<FileScan>,
}

// ── Frontmatter block ─────────────────────────────────────────────────────

/// The raw text inside the leading `---` … `---` block: after `---` and one
/// line break (`\r\n` or `\n`), up to the first `\n---`.  Empty when the
/// text does not start with `---` or the block is not closed.
pub open spec fn frontmatter_block(content: Seq<char>) -> Seq<char> {
    match strip_prefix(content, "---"@) {
        None => seq![],
        Some(rest) => {
            let body = match strip_prefix(rest, "\r\n"@) {
                Some(x) => x,
                None => match strip_prefix(rest, "\n"@) {
                    Some(x) => x,
                    None => rest,
                },
            };
            match find(body, "\n---"@) {
                Some(end) => body.take(end),
                None => seq![],
            }
        },
    }
}

/// Extract the raw text inside the leading `---` … `---` YAML block.
pub fn extract_frontmatter_block(content: &str) -> (r: String)
    ensures
        r@ == frontmatter_block(content@),
{
    let c = chars_of(content);
    let open = chars_of("---");
    let rest = match strip_prefix_chars(c.as_slice(), open.as_slice()) {
        None => {
            return String::new();
        },
        Some(rest) => rest,
    };
    let crlf = chars_of("\r\n");
    let lf = chars_of("\n");
    let body = match strip_prefix_chars(rest.as_slice(), crlf.as_slice()) {
        Some(x) => x,
        None => match strip_prefix_chars(rest.as_slice(), lf.as_slice()) {
            Some(x) => x,
            None => rest,
        },
    };
    let close = chars_of("\n---");
    match find_chars(body.as_slice(), close.as_slice()) {
        Some(end) => {
            proof {
                crate::text::lemma_find_from(body@, close@, 0);
            }
            let v = slice_chars(body.as_slice(), 0, end);
            assert(v@ =~= body@.take(end as int));
            string_of(v.as_slice())
        },
        None => String::new(),
    }
}

// ── Names ──────────────────────────────────────────────────────────────────

/// A folder directly under `content/papers/` that is a user category: not
/// hidden, and neither `unclassified` nor `.staging`.
pub open spec fn user_category(name: Seq<char>) -> bool {
    &&& !starts_with(name, "."@)
    &&& name != "unclassified"@
    &&& name != ".staging"@
}

pub fn is_user_category(name: &str) -> (b: bool)
    ensures
        b == user_category(name@),
{
    let n = chars_of(name);
    let dot = chars_of(".");
    let uncl = chars_of("unclassified");
    let staging = chars_of(".staging");
    !has_prefix(n.as_slice(), dot.as_slice()) && !crate::text::chars_eq(
        n.as_slice(),
        uncl.as_slice(),
    ) && !crate::text::chars_eq(n.as_slice(), staging.as_slice())
}

/// A markdown paper file: ends with `.md` and is not hidden.
pub open spec fn paper_file_name(name: Seq<char>) -> bool {
    ends_with(name, ".md"@) && !starts_with(name, "."@)
}

pub fn is_paper_file_name(name: &str) -> (b: bool)
    ensures
        b == paper_file_name(name@),
{
    let n = chars_of(name);
    let md = chars_of(".md");
    let dot = chars_of(".");
    has_suffix(n.as_slice(), md.as_slice()) && !has_prefix(n.as_slice(), dot.as_slice())
}

/// `name.trim_end_matches(".md")`: every trailing `.md` removed.
pub open spec fn trim_md(name: Seq<char>) -> Seq<char>
    decreases name.len(),
{
    if ends_with(name, ".md"@) && ".md"@.len() > 0 {
        trim_md(name.take(name.len() - ".md"@.len()))
    } else {
        name
    }
}

/// The slug of a paper file: its name without the `.md` extension.
pub fn slug_of(name: &str) -> (r: String)
    ensures
        r@ == trim_md(name@),
{
    let mut n = chars_of(name);
    let md = chars_of(".md");
    while md.len() > 0 && has_suffix(n.as_slice(), md.as_slice())
        invariant
            trim_md(name@) == trim_md(n@),
            md@ == ".md"@,
        decreases n@.len(),
    {
        let m = slice_chars(n.as_slice(), 0, n.len() - md.len());
        assert(m@ =~= n@.take(n@.len() - md@.len()));
        n = m;
    }
    string_of(n.as_slice())
}

// ── Times ──────────────────────────────────────────────────────────────────

/// `created_at` of a file: its mtime in RFC 3339, or empty when unknown.
pub open spec fn created_at_text(m: Option<FileTime>) -> Seq<char> {
    match m {
        Some(t) => match utc_rfc3339(t.secs, t.nanos) {
            Some(s) => s,
            None => seq![],
        },
        None => seq![],
    }
}

pub fn created_at_of(m: Option<FileTime>) -> (r: String)
    ensures
        r@ == created_at_text(m),
{
    match m {
        Some(t) => match rfc3339_of(t) {
            Some(s) => s,
            None => String::new(),
        },
        None => String::new(),
    }
}

/// The latest mtime among the paper files of `files` (the first such
/// maximum), if any has one.
pub open spec fn latest_paper_time(files: Seq<(Seq<char>, Option<FileTime>)>) -> Option<FileTime>
    decreases files.len(),
{
    if files.len() == 0 {
        None
    } else {
        let before = latest_paper_time(files.drop_last());
        let f = files.last();
        if paper_file_name(f.0) && f.1 is Some && (before is None || earlier(
            before->0,
            f.1->0,
        )) {
            f.1
        } else {
            before
        }
    }
}

/// How many of `files` are paper files.
pub open spec fn paper_count(files: Seq<(Seq<char>, Option<FileTime>)>) -> nat
    decreases files.len(),
{
    if files.len() == 0 {
        0
    } else {
        paper_count(files.drop_last()) + if paper_file_name(files.last().0) {
            1nat
        } else {
            0nat
        }
    }
}

pub open spec fn file_views(files: Seq<FileScan>) -> Seq<(Seq<char>, Option<FileTime>)> {
    files.map_values(|f: FileScan| (f.name@, f.mtime))
}

proof fn lemma_paper_count_bound(files: Seq<(Seq<char>, Option<FileTime>)>)
    ensures
        paper_count(files) <= files.len(),
    decreases files.len(),
{
    if files.len() > 0 {
        lemma_paper_count_bound(files.drop_last());
    }
}

/// Counts the paper files of a folder and finds their latest mtime.
pub fn scan_papers(files: &Vec<FileScan>) -> (r: (u32, Option<FileTime>))
    requires
        files.len() <= u32::MAX,
    ensures
        r.0 == paper_count(file_views(files@)),
        r.0 == file_views(files@).filter(|f: (Seq<char>, Option<FileTime>)| paper_file_name(f.0)).len(),
        r.1 == latest_paper_time(file_views(files@)),
        r.1 is None <==> forall|i: int|
            0 <= i < files@.len() ==> !(paper_file_name(files@[i].name@) && (#[trigger] files@[i]).mtime is Some),
        r.1 matches Some(t) ==> exists|i: int|
            0 <= i < files@.len() && paper_file_name(files@[i].name@) && (#[trigger] files@[i]).mtime == Some(t),
        r.1 matches Some(t) ==> forall|i: int|
            0 <= i < files@.len() && paper_file_name(files@[i].name@) && (#[trigger] files@[i]).mtime is Some
                ==> !earlier(t, files@[i].mtime->0),
{
    let ghost fv = file_views(files@);
    let mut count: u32 = 0;
    let mut latest: Option<FileTime> = None;
    let mut i: usize = 0;
    while i < files.len()
        invariant
            i <= files.len() <= u32::MAX,
            fv == file_views(files@),
            count == paper_count(fv.take(i as int)),
            latest == latest_paper_time(fv.take(i as int)),
        decreases files.len() - i,
    {
        proof {
            assert(fv.take(i + 1).drop_last() =~= fv.take(i as int));
            assert(fv.take(i + 1).last() == (files@[i as int].name@, files@[i as int].mtime));
            lemma_paper_count_bound(fv.take(i as int));
        }
        let f = &files[i];
        if is_paper_file_name(f.name.as_str()) {
            count = count + 1;
            match f.mtime {
                Some(t) => {
                    let newer = match latest {
                        Some(l) => is_earlier(l, t),
                        None => true,
                    };
                    if newer {
                        latest = Some(t);
                    }
                },
                None => {},
            }
        }
        i += 1;
    }
    assert(fv.take(files.len() as int) =~= fv);
    proof {
        lemma_paper_count(fv);
        lemma_latest_paper_time(fv);
        if latest is None {
            assert forall|i: int| 0 <= i < files@.len() implies !(paper_file_name(files@[i].name@)
                && (#[trigger] files@[i]).mtime is Some) by {
                assert(fv[i] == (files@[i].name@, files@[i].mtime));
            }
        } else {
            let k = choose|k: int| 0 <= k < fv.len() && paper_file_name(fv[k].0) && fv[k].1 == latest;
            assert(fv[k] == (files@[k].name@, files@[k].mtime));
            assert forall|i: int| 0 <= i < files@.len() && paper_file_name(files@[i].name@)
                && (#[trigger] files@[i]).mtime is Some implies !earlier(latest->0, files@[i].mtime->0) by {
                assert(fv[i] == (files@[i].name@, files@[i].mtime));
            }
        }
    }
    (count, latest)
}

/// Law: a folder's latest paper time is the mtime of one of its paper
/// files, and no paper file has a later one; it is absent exactly when no
/// paper file has an mtime.
pub proof fn lemma_latest_paper_time(files: Seq<(Seq<char>, Option<FileTime>)>)
    ensures
        latest_paper_time(files) is None <==> forall|i: int|
            0 <= i < files.len() ==> !(paper_file_name((#[trigger] files[i]).0) && files[i].1 is Some),
        latest_paper_time(files) matches Some(t) ==> exists|i: int|
            0 <= i < files.len() && paper_file_name((#[trigger] files[i]).0) && files[i].1 == Some(t),
        latest_paper_time(files) matches Some(t) ==> forall|i: int|
            0 <= i < files.len() && paper_file_name((#[trigger] files[i]).0) && files[i].1 is Some
                ==> !earlier(t, files[i].1->0),
    decreases files.len(),
{
    if files.len() > 0 {
        let p = files.drop_last();
        lemma_latest_paper_time(p);
        let n = files.len() - 1;
        assert forall|i: int| 0 <= i < n implies #[trigger] files[i] == p[i] by {}
        let before = latest_paper_time(p);
        if before is Some {
            let k = choose|k: int| 0 <= k < p.len() && paper_file_name(p[k].0) && p[k].1 == before;
            assert(files[k] == p[k]);
        }
    }
}

/// The dashboard card of a category folder.
pub open spec fn category_card(d: DirScan) -> (Seq<char>, nat, Option<Seq<char>>) {
    (
        d.name@,
        paper_count(file_views(d.files@)),
        match latest_paper_time(file_views(d.files@)) {
            Some(t) => utc_rfc3339(t.secs, t.nanos),
            None => None,
        },
    )
}

pub open spec fn card_view(c: CategoryInfo) -> (Seq<char>, nat, Option<Seq<char>>) {
    (c.name@, c.paper_count as nat, opt_string_view(c.latest_paper_date))
}

/// The folders of `entries` shown as categories.
pub open spec fn shown_categories(entries: Seq<DirScan>) -> Seq<DirScan> {
    entries.filter(|d: DirScan| user_category(d.name@) && d.is_dir)
}

/// The category cards for the entries of `content/papers/`: every user
/// category folder with its paper count and latest paper date, sorted by
/// name.
pub fn categories_from_scan(entries: Vec<DirScan>) -> (r: Vec<CategoryInfo>)
    requires
        forall|i: int| 0 <= i < entries.len() ==> (#[trigger] entries@[i]).files.len() <= u32::MAX,
    ensures
        r@.map_values(|c: CategoryInfo| card_view(c)) == sort_by(
            shown_categories(entries@).map_values(|d: DirScan| (d.name@, category_card(d))),
            text_order(false),
        ).map_values(|p: (Seq<char>, (Seq<char>, nat, Option<Seq<char>>))| p.1),
{
    let ghost shown = shown_categories(entries@);
    let mut keys: Vec<Vec<char>> = Vec::new();
    let mut cards: Vec<CategoryInfo> = Vec::new();
    let mut i: usize = 0;
    while i < entries.len()
        invariant
            i <= entries.len(),
            forall|j: int| 0 <= j < entries.len() ==> (#[trigger] entries@[j]).files.len() <= u32::MAX,
            keys.len() == cards.len(),
            Seq::new(cards@.len(), |j: int| (keys@[j]@, card_view(cards@[j]))) == shown_categories(
                entries@.take(i as int),
            ).map_values(|d: DirScan| (d.name@, category_card(d))),
        decreases entries.len() - i,
    {
        let d = &entries[i];
        let ghost before = Seq::new(cards@.len(), |j: int| (keys@[j]@, card_view(cards@[j])));
        proof {
            let t = entries@.take(i + 1);
            assert(t.drop_last() =~= entries@.take(i as int));
            assert(t.last() == *d);
            let pred = |d: DirScan| user_category(d.name@) && d.is_dir;
            assert(t =~= t.drop_last().push(t.last()));
            t.drop_last().lemma_filter_push(t.last(), pred);
        }
        if is_user_category(d.name.as_str()) && d.is_dir {
            let (count, latest) = scan_papers(&d.files);
            let latest_iso = match latest {
                Some(t) => rfc3339_of(t),
                None => None,
            };
            keys.push(chars_of(d.name.as_str()));
            cards.push(CategoryInfo { name: d.name.clone(), paper_count: count, latest_paper_date: latest_iso });
            proof {
                assert(Seq::new(cards@.len(), |j: int| (keys@[j]@, card_view(cards@[j]))) =~= before.push(
                    (d.name@, category_card(*d)),
                ));
            }
        } else {
            proof {
                assert(Seq::new(cards@.len(), |j: int| (keys@[j]@, card_view(cards@[j]))) =~= before);
            }
        }
        i += 1;
    }
    assert(entries@.take(entries.len() as int) =~= entries@);
    let ghost tagged = Seq::new(cards@.len(), |j: int| (keys@[j]@, cards@[j]));
    let sorted = sort_by_text_keys(keys, cards, false);
    proof {
        let f = |p: (Seq<char>, CategoryInfo)| (p.0, card_view(p.1));
        crate::sort::lemma_sort_map(tagged, f, text_order(false), text_order(false));
        assert(tagged.map_values(f) =~= shown.map_values(|d: DirScan| (d.name@, category_card(d))));
        assert(sorted@.map_values(|c: CategoryInfo| card_view(c)) =~= crate::sort::sort_by(
            tagged,
            text_order(false),
        ).map_values(f).map_values(|p: (Seq<char>, (Seq<char>, nat, Option<Seq<char>>))| p.1));
    }
    sorted
}

// ── Paper lists ───────────────────────────────────────────────────────────

pub open spec fn paper_view(p: PaperFrontmatter) -> (Seq<char>, Seq<char>, Seq<char>, Seq<char>) {
    (p.slug@, p.category@, p.frontmatter@, p.created_at@)
}

/// The list entry of a paper file named `file_name` in `category`, whose
/// text is `raw` and whose mtime is `mtime`.
pub fn paper_frontmatter(file_name: &str, category: &str, raw: &str, mtime: Option<FileTime>) -> (r:
    PaperFrontmatter)
    ensures
        paper_view(r) == (
            trim_md(file_name@),
            category@,
            frontmatter_block(raw@),
            created_at_text(mtime),
        ),
{
    PaperFrontmatter {
        slug: slug_of(file_name),
        category: category.to_owned(),
        frontmatter: extract_frontmatter_block(raw),
        created_at: created_at_of(mtime),
    }
}

/// Papers with the newest `created_at` first (text order, as the strings
/// are compared); papers with equal dates keep their order.
pub open spec fn newest_first(ps: Seq<PaperFrontmatter>) -> Seq<PaperFrontmatter> {
    sort_by(ps.map_values(|p: PaperFrontmatter| (p.created_at@, p)), text_order(true)).map_values(
        |q: (Seq<char>, PaperFrontmatter)| q.1,
    )
}

pub fn papers_newest_first(papers: Vec<PaperFrontmatter>) -> (r: Vec<PaperFrontmatter>)
    ensures
        r@ == newest_first(papers@),
{
    let ghost ps = papers@;
    let mut keys: Vec<Vec<char>> = Vec::new();
    let mut i: usize = 0;
    while i < papers.len()
        invariant
            i <= papers.len(),
            keys.len() == i,
            forall|j: int| 0 <= j < i ==> (#[trigger] keys@[j])@ == papers@[j].created_at@,
        decreases papers.len() - i,
    {
        keys.push(chars_of(papers[i].created_at.as_str()));
        i += 1;
    }
    let r = sort_by_text_keys(keys, papers, true);
    assert(Seq::new(ps.len(), |j: int| (keys@[j]@, ps[j])) =~= ps.map_values(
        |p: PaperFrontmatter| (p.created_at@, p),
    ));
    r
}

/// The `limit` most recent papers (newest first).
pub fn recent_papers(papers: Vec<PaperFrontmatter>, limit: usize) -> (r: Vec<PaperFrontmatter>)
    ensures
        r@ == newest_first(papers@).take(
            if limit < papers@.len() {
                limit as int
            } else {
                papers@.len() as int
            },
        ),
{
    let mut all = papers_newest_first(papers);
    proof {
        crate::sort::lemma_sort_len(
            papers@.map_values(|p: PaperFrontmatter| (p.created_at@, p)),
            text_order(true),
        );
    }
    all.truncate(limit);
    all
}

/// The top-level segment of a relative folder path: the text before the
/// first `/`.
pub open spec fn top_segment(rel: Seq<char>) -> Seq<char> {
    match find(rel, "/"@) {
        Some(i) => rel.take(i),
        None => rel,
    }
}

/// A folder, given relative to `content/papers/`, holds papers of a user
/// category: it is not `papers/` itself and its top-level folder is a user
/// category.
pub open spec fn category_folder(rel: Seq<char>) -> bool {
    user_category(top_segment(rel)) && rel.len() > 0
}

pub fn is_category_folder(rel: &str) -> (b: bool)
    ensures
        b == category_folder(rel@),
{
    let r = chars_of(rel);
    let slash = chars_of("/");
    let top = match find_chars(r.as_slice(), slash.as_slice()) {
        Some(i) => {
            proof {
                crate::text::lemma_find_from(r@, slash@, 0);
            }
            let t = slice_chars(r.as_slice(), 0, i);
            assert(t@ =~= r@.take(i as int));
            t
        },
        None => r.clone(),
    };
    let top_s = string_of(top.as_slice());
    is_user_category(top_s.as_str()) && r.len() > 0
}

/// The first folder among `folders` (in the order they were found) that is
/// a category folder.
pub open spec fn first_category_folder(folders: Seq<Seq<char>>) -> Option<Seq<char>>
    decreases folders.len(),
{
    if folders.len() == 0 {
        None
    } else if category_folder(folders[0]) {
        Some(folders[0])
    } else {
        first_category_folder(folders.drop_first())
    }
}

/// Resolve a slug to the category path that holds it.  `folders` are the
/// folders (relative to `content/papers/`) in which a file `<slug>.md` was
/// found, in the order found.
pub fn find_category_of(folders: &Vec<String>, slug: &str) -> (r: Result<String, String>)
    ensures
        match r {
            Ok(c) => first_category_folder(folders@.map_values(|f: String| f@)) == Some(c@),
            Err(e) => first_category_folder(folders@.map_values(|f: String| f@)) is None && e@
                == "Paper not found: "@ + slug@,
        },
{
    let ghost fs = folders@.map_values(|f: String| f@);
    let mut i: usize = 0;
    assert(fs.skip(0) =~= fs);
    while i < folders.len()
        invariant
            i <= folders.len(),
            fs == folders@.map_values(|f: String| f@),
            first_category_folder(fs) == first_category_folder(fs.skip(i as int)),
        decreases folders.len() - i,
    {
        proof {
            assert(fs.skip(i as int)[0] == folders@[i as int]@);
            assert(fs.skip(i as int).drop_first() =~= fs.skip(i + 1));
        }
        if is_category_folder(folders[i].as_str()) {
            return Ok(folders[i].clone());
        }
        i += 1;
    }
    assert(fs.skip(folders.len() as int) =~= Seq::<Seq<char>>::empty());
    let mut msg = chars_of("Paper not found: ");
    let s = chars_of(slug);
    extend(&mut msg, s.as_slice());
    Err(string_of(msg.as_slice()))
}

/// A file of `unclassified/` as listed by the caller.
#[derive(Debug, Clone)]
pub struct UnclassifiedScan {
    /// Absolute path of the file.
    pub path: String,
    pub file: FileScan,
}

pub open spec fn unclassified_view(u: UnclassifiedPaper) -> (Seq<char>, Seq<char>, Seq<char>) {
    (u.path@, u.name@, u.created_at@)
}

pub open spec fn scan_is_paper(f: UnclassifiedScan) -> bool {
    paper_file_name(f.file.name@)
}

pub open spec fn scan_entry(f: UnclassifiedScan) -> (Seq<char>, (Seq<char>, Seq<char>, Seq<char>)) {
    (f.file.name@, (f.path@, f.file.name@, created_at_text(f.file.mtime)))
}

/// The files awaiting organisation: the paper files of `unclassified/`,
/// sorted by name.
pub fn unclassified_from_scan(files: Vec<UnclassifiedScan>) -> (r: Vec<UnclassifiedPaper>)
    ensures
        r@.map_values(|u: UnclassifiedPaper| unclassified_view(u)) == sort_by(
            files@.filter(|f: UnclassifiedScan| scan_is_paper(f)).map_values(
                |f: UnclassifiedScan| scan_entry(f),
            ),
            text_order(false),
        ).map_values(|p: (Seq<char>, (Seq<char>, Seq<char>, Seq<char>))| p.1),
{
    let mut keys: Vec<Vec<char>> = Vec::new();
    let mut items: Vec<UnclassifiedPaper> = Vec::new();
    let mut i: usize = 0;
    while i < files.len()
        invariant
            i <= files.len(),
            keys.len() == items.len(),
            Seq::new(items@.len(), |j: int| (keys@[j]@, unclassified_view(items@[j]))) == files@.take(
                i as int,
            ).filter(|f: UnclassifiedScan| scan_is_paper(f)).map_values(|f: UnclassifiedScan| scan_entry(f)),
        decreases files.len() - i,
    {
        let f = &files[i];
        let ghost before = Seq::new(items@.len(), |j: int| (keys@[j]@, unclassified_view(items@[j])));
        proof {
            let t = files@.take(i + 1);
            assert(t =~= files@.take(i as int).push(*f));
            files@.take(i as int).lemma_filter_push(*f, |f: UnclassifiedScan| scan_is_paper(f));
        }
        if is_paper_file_name(f.file.name.as_str()) {
            let key = chars_of(f.file.name.as_str());
            let item = UnclassifiedPaper {
                path: f.path.clone(),
                name: f.file.name.clone(),
                created_at: created_at_of(f.file.mtime),
            };
            assert(key@ == f.file.name@);
            assert(item.path@ == f.path@);
            assert(item.name@ == f.file.name@);
            assert(item.created_at@ == created_at_text(f.file.mtime));
            assert((key@, unclassified_view(item)) == scan_entry(*f));
            keys.push(key);
            items.push(item);
            proof {
                assert(Seq::new(items@.len(), |j: int| (keys@[j]@, unclassified_view(items@[j])))
                    =~= before.push(scan_entry(*f)));
            }
        } else {
            proof {
                assert(Seq::new(items@.len(), |j: int| (keys@[j]@, unclassified_view(items@[j])))
                    =~= before);
            }
        }
        i += 1;
    }
    assert(files@.take(files.len() as int) =~= files@);
    let ghost tagged = Seq::new(items@.len(), |j: int| (keys@[j]@, items@[j]));
    let sorted = sort_by_text_keys(keys, items, false);
    proof {
        let h = |p: (Seq<char>, UnclassifiedPaper)| (p.0, unclassified_view(p.1));
        crate::sort::lemma_sort_map(tagged, h, text_order(false), text_order(false));
        assert(tagged.map_values(h) =~= files@.filter(|f: UnclassifiedScan| scan_is_paper(f)).map_values(|f: UnclassifiedScan| scan_entry(f)));
        assert(sorted@.map_values(|u: UnclassifiedPaper| unclassified_view(u)) =~= sort_by(
            tagged,
            text_order(false),
        ).map_values(h).map_values(|p: (Seq<char>, (Seq<char>, Seq<char>, Seq<char>))| p.1));
    }
    sorted
}

/// The backlinks JSON, or `{}` when `meta/backlinks.json` does not exist.
pub fn backlinks_or_empty(stored: Option<String>) -> (r: String)
    ensures
        r@ == match stored {
            Some(s) => s@,
            None => "{}"@,
        },
{
    match stored {
        Some(s) => s,
        None => "{}".to_owned(),
    }
}

// ── Category tree ─────────────────────────────────────────────────────────

/// A directory under `content/papers/` as the caller read it, with its
/// direct entries and, for a directory, its subdirectories.
#[derive(Debug)]
pub struct DirTree {
    pub name: String,
    pub is_dir: bool,
    /// The directory's direct entries (empty when unreadable).
    pub files: Vec<FileScan>,
    /// The directory's subdirectories, as read (empty when unreadable).
    pub children: Vec<DirTree>,
}

/// What a tree node shows.
pub struct NodeView {
    pub name: Seq<char>,
    pub path: Seq<char>,
    pub paper_count: nat,
    pub total: nat,
    pub latest: Option<Seq<char>>,
    pub children: Seq<NodeView>,
}

pub open spec fn node_view(n: CategoryNode) -> NodeView
    decreases n,
{
    NodeView {
        name: n.name@,
        path: n.path@,
        paper_count: n.paper_count as nat,
        total: n.total_paper_count as nat,
        latest: opt_string_view(n.latest_paper_date),
        children: nodes_view(n.children@),
    }
}

pub open spec fn nodes_view(ns: Seq<CategoryNode>) -> Seq<NodeView>
    decreases ns,
{
    if ns.len() == 0 {
        seq![]
    } else {
        nodes_view(ns.drop_last()).push(node_view(ns.last()))
    }
}

proof fn lemma_nodes_view_map(ns: Seq<CategoryNode>)
    ensures
        nodes_view(ns) == ns.map_values(|n: CategoryNode| node_view(n)),
    decreases ns.len(),
{
    if ns.len() > 0 {
        lemma_nodes_view_map(ns.drop_last());
        assert(ns.map_values(|n: CategoryNode| node_view(n)) =~= ns.drop_last().map_values(
            |n: CategoryNode| node_view(n),
        ).push(node_view(ns.last())));
    } else {
        assert(ns.map_values(|n: CategoryNode| node_view(n)) =~= Seq::<NodeView>::empty());
    }
}

/// `max` of two strings.
pub open spec fn str_max(a: Seq<char>, b: Seq<char>) -> Seq<char> {
    if crate::sort::text_le(a, b) {
        b
    } else {
        a
    }
}

/// The later of two optional dates (as strings compare).
pub open spec fn later(x: Option<Seq<char>>, y: Option<Seq<char>>) -> Option<Seq<char>> {
    match (x, y) {
        (Some(a), Some(b)) => Some(str_max(a, b)),
        (Some(a), None) => Some(a),
        (None, b) => b,
    }
}

pub open spec fn latest_of(ns: Seq<NodeView>) -> Option<Seq<char>>
    decreases ns.len(),
{
    if ns.len() == 0 {
        None
    } else {
        later(latest_of(ns.drop_last()), ns.last().latest)
    }
}

pub open spec fn total_of(ns: Seq<NodeView>) -> nat
    decreases ns.len(),
{
    if ns.len() == 0 {
        0
    } else {
        total_of(ns.drop_last()) + ns.last().total
    }
}

/// A directory shows as a category node.
pub open spec fn shows(d: DirTree) -> bool {
    d.is_dir && user_category(d.name@)
}

/// The path of a node below `prefix`.
pub open spec fn rel_path(prefix: Option<Seq<char>>, name: Seq<char>) -> Seq<char> {
    match prefix {
        Some(p) => p + seq!['/'] + name,
        None => name,
    }
}

/// The latest paper date of a directory's own papers.
pub open spec fn own_latest(d: DirTree) -> Option<Seq<char>> {
    match latest_paper_time(file_views(d.files@)) {
        Some(t) => utc_rfc3339(t.secs, t.nanos),
        None => None,
    }
}

pub open spec fn node_order() -> spec_fn(NodeView, NodeView) -> bool {
    |a: NodeView, b: NodeView| crate::sort::text_le(a.name, b.name)
}

/// The node of a directory: its own papers, its child categories, the
/// total over itself and all descendants, and the latest date among them.
pub open spec fn tree_node(d: DirTree, prefix: Option<Seq<char>>) -> NodeView
    decreases d, 2nat,
{
    let path = rel_path(prefix, d.name@);
    let kids = tree_nodes(d.children@, Some(path));
    let own = paper_count(file_views(d.files@));
    NodeView {
        name: d.name@,
        path: path,
        paper_count: own,
        total: own + total_of(kids),
        latest: later(own_latest(d), latest_of(kids)),
        children: kids,
    }
}

/// The nodes of the category directories among `ds`, sorted by name.
pub open spec fn tree_nodes(ds: Seq<DirTree>, prefix: Option<Seq<char>>) -> Seq<NodeView>
    decreases ds, 1nat,
{
    sort_by(shown_nodes(ds, prefix), node_order())
}

/// The nodes of the category directories among `ds`, in order.
pub open spec fn shown_nodes(ds: Seq<DirTree>, prefix: Option<Seq<char>>) -> Seq<NodeView>
    decreases ds, 0nat,
{
    if ds.len() == 0 {
        seq![]
    } else {
        let rest = shown_nodes(ds.drop_last(), prefix);
        if shows(ds.last()) {
            rest.push(tree_node(ds.last(), prefix))
        } else {
            rest
        }
    }
}

/// Every category directory's counts fit in a `u32`.
pub open spec fn tree_fits(ds: Seq<DirTree>, prefix: Option<Seq<char>>) -> bool
    decreases ds, 1nat,
{
    if ds.len() == 0 {
        true
    } else {
        tree_fits(ds.drop_last(), prefix) && dir_fits(ds.last(), prefix)
    }
}

pub open spec fn dir_fits(d: DirTree, prefix: Option<Seq<char>>) -> bool
    decreases d, 2nat,
{
    shows(d) ==> {
        &&& d.files@.len() <= u32::MAX
        &&& tree_node(d, prefix).total <= u32::MAX
        &&& tree_fits(d.children@, Some(rel_path(prefix, d.name@)))
    }
}

proof fn lemma_tree_fits_elem(ds: Seq<DirTree>, prefix: Option<Seq<char>>, i: int)
    requires
        tree_fits(ds, prefix),
        0 <= i < ds.len(),
    ensures
        dir_fits(ds[i], prefix),
    decreases ds.len(),
{
    if i < ds.len() - 1 {
        assert(ds.drop_last()[i] == ds[i]);
        lemma_tree_fits_elem(ds.drop_last(), prefix, i);
    }
}

proof fn lemma_total_prefix(ns: Seq<NodeView>, k: int)
    requires
        0 <= k <= ns.len(),
    ensures
        total_of(ns.take(k)) <= total_of(ns),
    decreases ns.len(),
{
    if k < ns.len() {
        assert(ns.drop_last().take(k) =~= ns.take(k));
        lemma_total_prefix(ns.drop_last(), k);
    } else {
        assert(ns.take(k) =~= ns);
    }
}

/// The later of two optional dates.
fn later_exec(x: Option<String>, y: Option<String>) -> (r: Option<String>)
    ensures
        opt_string_view(r) == later(opt_string_view(x), opt_string_view(y)),
        opt_string_view(r) == opt_string_view(x) || opt_string_view(r) == opt_string_view(y),
        x matches Some(a) ==> r matches Some(c) && crate::sort::text_le(a@, c@),
        y matches Some(b) ==> r matches Some(c) && crate::sort::text_le(b@, c@),
{
    proof {
        lemma_later(opt_string_view(x), opt_string_view(y));
    }
    match (x, y) {
        (Some(a), Some(b)) => {
            let ac = chars_of(a.as_str());
            let bc = chars_of(b.as_str());
            if crate::sort::text_le_exec(ac.as_slice(), bc.as_slice()) {
                Some(b)
            } else {
                Some(a)
            }
        },
        (Some(a), None) => Some(a),
        (None, b) => b,
    }
}

/// Builds the category tree from the directories read under `prefix`
/// (`None` for `content/papers/` itself).
pub fn build_category_tree(dirs: &Vec<DirTree>, prefix: Option<&str>) -> (r: Vec<CategoryNode>)
    requires
        tree_fits(dirs@, crate::summarize::opt_str(prefix)),
    ensures
        nodes_view(r@) == tree_nodes(dirs@, crate::summarize::opt_str(prefix)),
    decreases dirs@,
{
    let ghost pre = crate::summarize::opt_str(prefix);
    let mut keys: Vec<Vec<char>> = Vec::new();
    let mut nodes: Vec<CategoryNode> = Vec::new();
    let mut i: usize = 0;
    while i < dirs.len()
        invariant
            i <= dirs.len(),
            pre == crate::summarize::opt_str(prefix),
            tree_fits(dirs@, pre),
            keys@.len() == nodes@.len(),
            forall|j: int| 0 <= j < keys@.len() ==> (#[trigger] keys@[j])@ == nodes@[j].name@,
            nodes@.map_values(|n: CategoryNode| node_view(n)) == shown_nodes(dirs@.take(i as int), pre),
        decreases dirs.len() - i,
    {
        let d = &dirs[i];
        proof {
            assert(dirs@.take(i + 1).drop_last() =~= dirs@.take(i as int));
            assert(dirs@.take(i + 1).last() == dirs@[i as int]);
            lemma_tree_fits_elem(dirs@, pre, i as int);
        }
        if d.is_dir && is_user_category(d.name.as_str()) {
            let path = match prefix {
                Some(p) => {
                    let mut v = chars_of(p);
                    v.push('/');
                    let n = chars_of(d.name.as_str());
                    extend(&mut v, n.as_slice());
                    string_of(v.as_slice())
                },
                None => d.name.clone(),
            };
            assert(path@ == rel_path(pre, d.name@));
            let (count, latest) = scan_papers(&d.files);
            proof {
                assert(decreases_to!(dirs@ => dirs@[i as int].children@));
            }
            let children = build_category_tree(&d.children, Some(path.as_str()));
            let ghost kids = tree_nodes(d.children@, Some(path@));
            proof {
                lemma_nodes_view_map(children@);
            }
            let mut child_total: u32 = 0;
            let mut child_latest: Option<String> = None;
            let mut j: usize = 0;
            while j < children.len()
                invariant
                    j <= children.len(),
                    nodes_view(children@) == kids,
                    kids.len() == children@.len(),
                    forall|m: int| 0 <= m < kids.len() ==> #[trigger] kids[m] == node_view(children@[m]),
                    count as nat + total_of(kids) <= u32::MAX,
                    child_total as nat == total_of(kids.take(j as int)),
                    opt_string_view(child_latest) == latest_of(kids.take(j as int)),
                decreases children.len() - j,
            {
                proof {
                    assert(kids.take(j + 1).drop_last() =~= kids.take(j as int));
                    assert(kids.take(j + 1).last() == node_view(children@[j as int]));
                    lemma_total_prefix(kids, j + 1);
                }
                child_total = child_total + children[j].total_paper_count;
                child_latest = later_exec(child_latest, children[j].latest_paper_date.clone());
                j += 1;
            }
            assert(kids.take(children.len() as int) =~= kids);
            let own_latest_s = match latest {
                Some(t) => rfc3339_of(t),
                None => None,
            };
            let latest_paper_date = later_exec(own_latest_s, child_latest);
            keys.push(chars_of(d.name.as_str()));
            let ghost prev = nodes@.map_values(|n: CategoryNode| node_view(n));
            let node = CategoryNode {
                name: d.name.clone(),
                path,
                paper_count: count,
                total_paper_count: count + child_total,
                latest_paper_date,
                children,
            };
            assert(node_view(node) == tree_node(*d, pre));
            nodes.push(node);
            assert(nodes@.map_values(|n: CategoryNode| node_view(n)) =~= prev.push(node_view(node)));
        }
        i += 1;
    }
    assert(dirs@.take(dirs.len() as int) =~= dirs@);
    let ghost nv = nodes@;
    let r = sort_by_text_keys(keys, nodes, false);
    proof {
        let tagged = Seq::new(nv.len(), |j: int| (keys@[j]@, nv[j]));
        let f = |p: (Seq<char>, CategoryNode)| node_view(p.1);
        assert forall|a: (Seq<char>, CategoryNode), b: (Seq<char>, CategoryNode)|
            tagged.contains(a) && tagged.contains(b) implies (text_order::<CategoryNode>(false))(a, b) == (node_order())(f(a), f(b)) by {
            let x = choose|x: int| 0 <= x < tagged.len() && tagged[x] == a;
            let y = choose|y: int| 0 <= y < tagged.len() && tagged[y] == b;
        }
        crate::sort::lemma_sort_map(tagged, f, text_order::<CategoryNode>(false), node_order());
        assert(tagged.map_values(f) =~= nv.map_values(|n: CategoryNode| node_view(n)));
        lemma_nodes_view_map(r@);
        assert(r@.map_values(|n: CategoryNode| node_view(n)) =~= crate::sort::sort_by(
            tagged,
            text_order::<CategoryNode>(false),
        ).map_values(f));
    }
    r
}

// ── Orders ────────────────────────────────────────────────────────────────

/// Law: the category cards come sorted by name, one per category folder.
pub proof fn lemma_cards_sorted(entries: Seq<DirScan>)
    ensures
        ordered_by(
            sorted_values(
                shown_categories(entries).map_values(|d: DirScan| (d.name@, category_card(d))),
                false,
            ),
            false,
            |c: (Seq<char>, nat, Option<Seq<char>>)| c.0,
        ),
        sorted_values(
            shown_categories(entries).map_values(|d: DirScan| (d.name@, category_card(d))),
            false,
        ).len() == shown_categories(entries).len(),
{
    let s = shown_categories(entries).map_values(|d: DirScan| (d.name@, category_card(d)));
    lemma_sorted_values(s, false, |c: (Seq<char>, nat, Option<Seq<char>>)| c.0);
}

/// Law: paper lists come newest first (by `created_at`), with every paper
/// once.
pub proof fn lemma_newest_first_sorted(papers: Seq<PaperFrontmatter>)
    ensures
        ordered_by(newest_first(papers), true, |p: PaperFrontmatter| p.created_at@),
        newest_first(papers).len() == papers.len(),
{
    let s = papers.map_values(|p: PaperFrontmatter| (p.created_at@, p));
    lemma_sorted_values(s, true, |p: PaperFrontmatter| p.created_at@);
}

/// Law: the files awaiting organisation come sorted by name.
pub proof fn lemma_unclassified_sorted(files: Seq<UnclassifiedScan>)
    ensures
        ordered_by(
            sorted_values(
                files.filter(|f: UnclassifiedScan| scan_is_paper(f)).map_values(
                    |f: UnclassifiedScan| scan_entry(f),
                ),
                false,
            ),
            false,
            |u: (Seq<char>, Seq<char>, Seq<char>)| u.1,
        ),
{
    let s = files.filter(|f: UnclassifiedScan| scan_is_paper(f)).map_values(
        |f: UnclassifiedScan| scan_entry(f),
    );
    lemma_sorted_values(s, false, |u: (Seq<char>, Seq<char>, Seq<char>)| u.1);
}

/// Law: every level of the category tree is sorted by name.  (The
/// children of a node are themselves `tree_nodes`, so this holds at each
/// level.)
pub proof fn lemma_tree_level_sorted(ds: Seq<DirTree>, prefix: Option<Seq<char>>)
    ensures
        crate::sort::sorted_by(tree_nodes(ds, prefix), node_order()),
{
    let le = node_order();
    assert forall|a: NodeView, b: NodeView| #[trigger] le(a, b) || le(b, a) by {
        crate::sort::lemma_text_total(a.name, b.name);
    }
    assert forall|a: NodeView, b: NodeView, c: NodeView| #[trigger] le(a, b) && #[trigger] le(b, c)
        implies le(a, c) by {
        crate::sort::lemma_text_trans(a.name, b.name, c.name);
    }
    crate::sort::lemma_sort_by(shown_nodes(ds, prefix), le);
}

/// One node of the category tree, below `prefix`: a category directory
/// (neither hidden nor `unclassified`), whose path is its name below the
/// prefix, whose total is its own papers plus its children's totals, and
/// whose children are the tree one level down, below its own path.
pub open spec fn node_shaped(n: NodeView, prefix: Option<Seq<char>>) -> bool {
    &&& user_category(n.name)
    &&& n.path == rel_path(prefix, n.name)
    &&& n.total == n.paper_count + total_of(n.children)
    &&& exists|cs: Seq<DirTree>| n.children == #[trigger] tree_nodes(cs, Some(n.path))
}

proof fn lemma_shown_nodes_shaped(ds: Seq<DirTree>, prefix: Option<Seq<char>>)
    ensures
        forall|n: NodeView| #[trigger] shown_nodes(ds, prefix).contains(n) ==> node_shaped(n, prefix),
    decreases ds.len(),
{
    if ds.len() > 0 {
        lemma_shown_nodes_shaped(ds.drop_last(), prefix);
        let rest = shown_nodes(ds.drop_last(), prefix);
        if shows(ds.last()) {
            let d = ds.last();
            let t = tree_node(d, prefix);
            assert(t.children == tree_nodes(d.children@, Some(t.path)));
            assert forall|n: NodeView| #[trigger] rest.push(t).contains(n) implies node_shaped(
                n,
                prefix,
            ) by {
                if n != t {
                    let k = choose|k: int| 0 <= k < rest.push(t).len() && rest.push(t)[k] == n;
                    assert(rest[k] == n);
                    assert(rest.contains(n));
                }
            }
        }
    }
}

/// Law: every node of the category tree is a category directory (neither
/// hidden nor `unclassified`); its path is its name below its parent's
/// path, joined with `/`; its total counts its own papers and, through its
/// children, all papers below it; and its children are again such a tree,
/// below its path.
pub proof fn lemma_tree_shape(ds: Seq<DirTree>, prefix: Option<Seq<char>>)
    ensures
        forall|i: int|
            0 <= i < tree_nodes(ds, prefix).len() ==> node_shaped(
                #[trigger] tree_nodes(ds, prefix)[i],
                prefix,
            ),
{
    let le = node_order();
    assert forall|a: NodeView, b: NodeView| #[trigger] le(a, b) || le(b, a) by {
        crate::sort::lemma_text_total(a.name, b.name);
    }
    assert forall|a: NodeView, b: NodeView, c: NodeView| #[trigger] le(a, b) && #[trigger] le(b, c)
        implies le(a, c) by {
        crate::sort::lemma_text_trans(a.name, b.name, c.name);
    }
    let shown = shown_nodes(ds, prefix);
    crate::sort::lemma_sort_by(shown, le);
    lemma_shown_nodes_shaped(ds, prefix);
    let sorted = tree_nodes(ds, prefix);
    assert forall|i: int| 0 <= i < sorted.len() implies node_shaped(#[trigger] sorted[i], prefix) by {
        let n = sorted[i];
        assert(sorted.contains(n));
        vstd::seq_lib::to_multiset_contains(sorted, n);
        vstd::seq_lib::to_multiset_contains(shown, n);
        assert(shown.contains(n));
    }
}

/// Law: the recent papers are the `min(limit, n)` newest of the `n` given
/// papers, newest first, each one of the given papers and none more often
/// than it was given.
pub proof fn lemma_recent_papers(papers: Seq<PaperFrontmatter>, limit: nat)
    ensures
        ({
            let m = if limit < papers.len() {
                limit as int
            } else {
                papers.len() as int
            };
            let r = newest_first(papers).take(m);
            &&& r.len() == m
            &&& ordered_by(r, true, |p: PaperFrontmatter| p.created_at@)
            &&& forall|p: PaperFrontmatter| #[trigger] r.to_multiset().count(p) <= papers.to_multiset().count(p)
        }),
{
    let m = if limit < papers.len() {
        limit as int
    } else {
        papers.len() as int
    };
    lemma_newest_first_sorted(papers);
    let all = newest_first(papers);
    let s = papers.map_values(|p: PaperFrontmatter| (p.created_at@, p));
    let snd = |q: (Seq<char>, PaperFrontmatter)| q.1;
    crate::sort::lemma_sort_map_multiset(s, text_order(true), snd);
    assert(s.map_values(snd) =~= papers);
    crate::sort::lemma_take_multiset(all, m);
}

/// Law: the later of two optional dates is one of them, and no earlier
/// (as strings compare) than either; it is absent only when both are.
pub proof fn lemma_later(x: Option<Seq<char>>, y: Option<Seq<char>>)
    ensures
        later(x, y) == x || later(x, y) == y,
        later(x, y) is None <==> x is None && y is None,
        x matches Some(a) ==> later(x, y) matches Some(c) && crate::sort::text_le(a, c),
        y matches Some(b) ==> later(x, y) matches Some(c) && crate::sort::text_le(b, c),
{
    match (x, y) {
        (Some(a), Some(b)) => {
            crate::sort::lemma_text_total(a, a);
            crate::sort::lemma_text_total(b, b);
            crate::sort::lemma_text_total(a, b);
        },
        (Some(a), None) => {
            crate::sort::lemma_text_total(a, a);
        },
        (None, Some(b)) => {
            crate::sort::lemma_text_total(b, b);
        },
        (None, None) => {},
    }
}

/// Law: the latest date of a list of nodes is one of theirs, and no node's
/// date is later; it is absent only when no node has one.
pub proof fn lemma_latest_of(ns: Seq<NodeView>)
    ensures
        latest_of(ns) is None <==> forall|i: int| 0 <= i < ns.len() ==> (#[trigger] ns[i]).latest is None,
        latest_of(ns) matches Some(c) ==> exists|i: int| 0 <= i < ns.len() && (#[trigger] ns[i]).latest == Some(c),
        forall|i: int|
            0 <= i < ns.len() && (#[trigger] ns[i]).latest is Some ==> (latest_of(ns) matches Some(c)
                && crate::sort::text_le(ns[i].latest->0, c)),
    decreases ns.len(),
{
    if ns.len() > 0 {
        let p = ns.drop_last();
        lemma_latest_of(p);
        lemma_later(latest_of(p), ns.last().latest);
        assert forall|i: int| 0 <= i < p.len() implies #[trigger] ns[i] == p[i] by {}
        let l = latest_of(ns);
        if latest_of(p) is Some {
            let k = choose|k: int| 0 <= k < p.len() && p[k].latest == latest_of(p);
            assert(ns[k] == p[k]);
        }
        assert forall|i: int| 0 <= i < ns.len() && (#[trigger] ns[i]).latest is Some implies l matches Some(
            c,
        ) && crate::sort::text_le(ns[i].latest->0, c) by {
            if i < p.len() {
                assert(ns[i] == p[i]);
                let a = ns[i].latest->0;
                let m = latest_of(p)->0;
                let c = l->0;
                crate::sort::lemma_text_trans(a, m, c);
            }
        }
    }
}

/// Law: a node's latest date is one of its own papers' latest date and
/// its children's latest dates, and is no earlier than any of them.
pub proof fn lemma_tree_node_latest(d: DirTree, prefix: Option<Seq<char>>)
    ensures
        ({
            let n = tree_node(d, prefix);
            &&& own_latest(d) matches Some(a) ==> n.latest matches Some(c) && crate::sort::text_le(a, c)
            &&& forall|i: int|
                0 <= i < n.children.len() && (#[trigger] n.children[i]).latest is Some ==> (n.latest matches Some(
                    c,
                ) && crate::sort::text_le(n.children[i].latest->0, c))
            &&& n.latest matches Some(c) ==> own_latest(d) == Some(c) || exists|i: int|
                0 <= i < n.children.len() && (#[trigger] n.children[i]).latest == Some(c)
            &&& n.latest is None <==> own_latest(d) is None && forall|i: int|
                0 <= i < n.children.len() ==> (#[trigger] n.children[i]).latest is None
        }),
{
    let n = tree_node(d, prefix);
    let kids = n.children;
    lemma_latest_of(kids);
    lemma_later(own_latest(d), latest_of(kids));
    assert forall|i: int|
        0 <= i < kids.len() && (#[trigger] kids[i]).latest is Some implies n.latest matches Some(c)
        && crate::sort::text_le(kids[i].latest->0, c) by {
        crate::sort::lemma_text_trans(kids[i].latest->0, latest_of(kids)->0, n.latest->0);
    }
}

/// Law: the paper count of a folder is the number of its files that are
/// paper files.
pub proof fn lemma_paper_count(files: Seq<(Seq<char>, Option<FileTime>)>)
    ensures
        paper_count(files) == files.filter(|f: (Seq<char>, Option<FileTime>)| paper_file_name(f.0)).len(),
    decreases files.len(),
{
    reveal(Seq::filter);
    if files.len() > 0 {
        lemma_paper_count(files.drop_last());
    }
}

} // verus!

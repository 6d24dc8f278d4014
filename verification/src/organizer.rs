//! The organise pipeline of one paper, as a machine that the caller drives.
//!
//! 0. refuse a paper whose DOI is listed as processed already
//! 1. move `unclassified/{name}` to `.staging/{name}`
//! 2. classify with Gemini (or take a category given in advance)
//! 3. write the category as `tags` (and the abstract as `summary` when the
//!    paper has none) into the frontmatter, then move `.staging/{name}` to
//!    `{category}/{name}`
//! 4. with Zotero online and a DOI: find the item and set its collection
//! 5. with an expected PDF path: wait for ZotMoov to move the PDF
//!
//! With Zotero offline, steps 4 and 5 are queued for a later sync instead.
//! Any failure rolls back every completed step, last first, so the file
//! goes back to `unclassified/`, and is logged; a completed run is logged
//! too, and its DOI recorded as processed.
//!
//! The caller performs each command and hands back what came of it; the
//! machine decides the next command and the progress events to emit.
use vstd::prelude::*;

use crate::frontmatter::{keyed, last_keyed, last_keyed_of, simple_yaml_lines, simple_yaml_lines_of};
use crate::gemini::opt_string;
use crate::paths::{join, join_path, path_parent};
use crate::text::{chars_of, extend, string_of, views};
use crate::transaction::{rollback_of, PaperTransaction, RollbackAction, TxError, TxStep};
use crate::gemini::string_views;
use crate::pdf_import::{inject_field, injected_field};
use crate::summarize::{fm_yaml, split_frontmatter, upsert_summary, upserted, yaml_scalar, yaml_value};
use crate::text::{trim, trim_str};

verus! {

// ── Paths ─────────────────────────────────────────────────────────────────

/// The places one organise run works in, under the content root.
#[derive(Debug, Clone)]
pub struct OrganizerConfig {
    /// `content/`: the parent of `papers/` and `meta/`.
    pub content_root: String,
}

pub open spec fn papers_text(root: Seq<char>) -> Seq<char> {
    join_path(root, "papers"@)
}

pub open spec fn unclassified_text(root: Seq<char>) -> Seq<char> {
    join_path(papers_text(root), "unclassified"@)
}

pub open spec fn staging_text(root: Seq<char>) -> Seq<char> {
    join_path(papers_text(root), ".staging"@)
}

pub open spec fn category_text(root: Seq<char>, category: Seq<char>) -> Seq<char> {
    join_path(papers_text(root), category)
}

pub open spec fn queue_text(root: Seq<char>) -> Seq<char> {
    join_path(join_path(root, "meta"@), "pending-zotero-sync.json"@)
}

pub open spec fn processed_text(root: Seq<char>) -> Seq<char> {
    join_path(join_path(root, "meta"@), ".processed-dois.json"@)
}

/// `logs/organize-{date}.json`, beside the content root.
pub open spec fn log_text(root: Seq<char>, date: Seq<char>) -> Seq<char> {
    let base = match path_parent(root) {
        Some(p) => p,
        None => root,
    };
    join_path(join_path(base, "logs"@), "organize-"@ + date + ".json"@)
}

impl OrganizerConfig {
    pub fn new(content_root: String) -> (r: Self)
        ensures
            r.content_root == content_root,
    {
        OrganizerConfig { content_root }
    }

    /// `content/papers/unclassified/`.
    pub fn unclassified_dir(&self) -> (r: String)
        ensures
            r@ == unclassified_text(self.content_root@),
    {
        let p = join(self.content_root.as_str(), "papers");
        join(p.as_str(), "unclassified")
    }

    /// `content/papers/.staging/`.
    pub fn staging_dir(&self) -> (r: String)
        ensures
            r@ == staging_text(self.content_root@),
    {
        let p = join(self.content_root.as_str(), "papers");
        join(p.as_str(), ".staging")
    }

    /// `content/papers/{category}/`.
    pub fn category_dir(&self, category: &str) -> (r: String)
        ensures
            r@ == category_text(self.content_root@, category@),
    {
        let p = join(self.content_root.as_str(), "papers");
        join(p.as_str(), category)
    }

    /// `content/meta/pending-zotero-sync.json`.
    pub fn queue_path(&self) -> (r: String)
        ensures
            r@ == queue_text(self.content_root@),
    {
        let m = join(self.content_root.as_str(), "meta");
        join(m.as_str(), "pending-zotero-sync.json")
    }

    /// `content/meta/.processed-dois.json`: the DOIs filed already.
    pub fn processed_dois_path(&self) -> (r: String)
        ensures
            r@ == processed_text(self.content_root@),
    {
        let m = join(self.content_root.as_str(), "meta");
        join(m.as_str(), ".processed-dois.json")
    }

    /// The day's log file for a given `YYYY-MM-DD` date.
    pub fn log_path_on(&self, date: &str) -> (r: String)
        ensures
            r@ == log_text(self.content_root@, date@),
    {
        let base = match crate::paths::parent(self.content_root.as_str()) {
            Some(p) => p,
            None => self.content_root.clone(),
        };
        let logs = join(base.as_str(), "logs");
        let mut name = chars_of("organize-");
        let d = chars_of(date);
        extend(&mut name, d.as_slice());
        let ext = chars_of(".json");
        extend(&mut name, ext.as_slice());
        let n = string_of(name.as_slice());
        join(logs.as_str(), n.as_str())
    }

    /// Today's log file.  The date comes from the clock, so only the shape
    /// of the path is stated.
    pub fn log_path(&self) -> (r: String)
        ensures
            exists|date: Seq<char>| r@ == log_text(self.content_root@, date),
    {
        let date = crate::clock::today_ymd();
        self.log_path_on(date.as_str())
    }
}

// ── Frontmatter ───────────────────────────────────────────────────────────

/// The frontmatter fields that classification and Zotero need.
#[derive(Debug, Clone)]
pub struct Frontmatter {
    pub title: String,
    pub abstract_text: String,
    pub doi: Option<String>,
}

/// The DOI on a line carrying `DOI:` or `doi:`.
pub open spec fn doi_on(line: Seq<char>) -> Option<Seq<char>> {
    match keyed(line, "DOI:"@) {
        Some(v) => Some(v),
        None => keyed(line, "doi:"@),
    }
}

/// The last DOI that is not empty.
pub open spec fn last_doi(ls: Seq<Seq<char>>) -> Option<Seq<char>>
    decreases ls.len(),
{
    if ls.len() == 0 {
        None
    } else {
        match doi_on(ls.last()) {
            Some(v) if v.len() > 0 => Some(v),
            _ => last_doi(ls.drop_last()),
        }
    }
}

/// Reads `title`, `abstract` and the DOI from the frontmatter: for each,
/// the last line that carries it (the last non-empty one for the DOI);
/// empty, or no DOI, when the text has no frontmatter or no such line.
pub fn parse_frontmatter(content: &str) -> (r: Frontmatter)
    ensures
        r.title@ == last_keyed(simple_yaml_lines(content@), "title:"@),
        r.abstract_text@ == last_keyed(simple_yaml_lines(content@), "abstract:"@),
        opt_string(r.doi) == last_doi(simple_yaml_lines(content@)),
{
    let c = chars_of(content);
    let ls = simple_yaml_lines_of(c.as_slice());
    let tk = chars_of("title:");
    let ak = chars_of("abstract:");
    let t = last_keyed_of(&ls, tk.as_slice());
    let a = last_keyed_of(&ls, ak.as_slice());
    let upper = chars_of("DOI:");
    let lower = chars_of("doi:");
    let ghost vs = views(ls@);
    let mut doi: Option<String> = None;
    let mut i: usize = 0;
    while i < ls.len()
        invariant
            i <= ls.len(),
            vs == views(ls@),
            upper@ == "DOI:"@,
            lower@ == "doi:"@,
            opt_string(doi) == last_doi(vs.take(i as int)),
        decreases ls.len() - i,
    {
        proof {
            assert(vs.take(i + 1).drop_last() =~= vs.take(i as int));
            assert(vs.take(i + 1).last() == ls@[i as int]@);
        }
        let v = match crate::frontmatter::keyed_chars(ls[i].as_slice(), upper.as_slice()) {
            Some(v) => Some(v),
            None => crate::frontmatter::keyed_chars(ls[i].as_slice(), lower.as_slice()),
        };
        match v {
            Some(v) => {
                if v.len() > 0 {
                    doi = Some(string_of(v.as_slice()));
                }
            },
            None => {},
        }
        i += 1;
    }
    assert(vs.take(ls.len() as int) =~= vs);
    Frontmatter { title: string_of(t.as_slice()), abstract_text: string_of(a.as_slice()), doi }
}

// ── What filing writes into the paper ─────────────────────────────────────

/// The paper has no summary, or only a blank one.
pub open spec fn has_no_summary(md: Seq<char>) -> bool {
    match yaml_value(fm_yaml(md), "summary"@) {
        Some(v) => trim(v).len() == 0,
        None => true,
    }
}

/// The paper's text once filed under `category`: the abstract as its
/// summary when it has none and the abstract is not blank, then
/// `tags: [category]` as the last frontmatter line (replacing earlier
/// `tags:` lines).  Without a frontmatter block that opens with `---\n`
/// and closes with `\n---` no tags line is written.
pub open spec fn filed_text(content: Seq<char>, category: Seq<char>, abstract_text: Seq<char>) -> Seq<char> {
    let s = if has_no_summary(content) && trim(abstract_text).len() > 0 {
        upserted(content, abstract_text)
    } else {
        content
    };
    injected_field(s, "tags"@, "["@ + category + "]"@)
}

/// Writes the category and, when missing, the abstract as summary into
/// the paper's frontmatter.
pub fn filed_content(content: &str, category: &str, abstract_text: &str) -> (r: String)
    ensures
        r@ == filed_text(content@, category@, abstract_text@),
{
    let (y, _) = split_frontmatter(content);
    let yaml = match y {
        Some(x) => x,
        None => "",
    };
    proof {
        reveal_strlit("");
    }
    let missing = match yaml_scalar(yaml, "summary") {
        Some(v) => trim_str(v).as_str().is_empty(),
        None => true,
    };
    let with_summary = if missing && !trim_str(abstract_text).as_str().is_empty() {
        upsert_summary(content, abstract_text)
    } else {
        content.to_owned()
    };
    let mut tag = chars_of("[");
    let c = chars_of(category);
    extend(&mut tag, c.as_slice());
    let close = chars_of("]");
    extend(&mut tag, close.as_slice());
    let tags = string_of(tag.as_slice());
    inject_field(with_summary.as_str(), "tags", tags.as_str())
}

/// `duplicate DOI {doi}: already processed`.
pub open spec fn duplicate_text(doi: Seq<char>) -> Seq<char> {
    "duplicate DOI "@ + doi + ": already processed"@
}

// ── The machine ───────────────────────────────────────────────────────────

/// What the pipeline hands back when it completes.
#[derive(Debug, Clone)]
pub struct ProcessResult {
    /// The category the paper was filed under.
    pub category: String,
    /// Where the markdown file now is.
    pub final_path: String,
    /// The Zotero collection was updated in this run.
    pub zotero_synced: bool,
    /// The Zotero update was queued for later.
    pub zotero_pending: bool,
}

/// Where ZotMoov is expected to put the PDF, if the run waits for it.
#[derive(Debug, Clone)]
pub enum PdfMoveSpec {
    /// The run does not wait.
    NoWait,
    /// This exact path.
    Path(String),
    /// `{pdf_root}/{category}/{pdf_filename}`, once the category is known.
    UnderRoot { pdf_root: String, pdf_filename: String },
}

/// One `tx-progress` event.
#[derive(Debug, Clone)]
pub struct Progress {
    pub step: String,
    /// `started`, `done`, `skipped` or `failed`.
    pub status: String,
    pub detail: Option<String>,
}

/// What the caller is to do next.
#[derive(Debug)]
pub enum Command {
    /// Move a file, creating the destination's folder.
    Move { from: String, to: String },
    /// Replace a file's text.
    Write { path: String, text: String },
    /// Ask Gemini for the category.
    Classify { title: String, abstract_text: String, body: String },
    /// Find the Zotero item of a DOI.
    FindItem { doi: String },
    /// Read the name of the item's current collection.
    ReadCollection { item_key: String },
    /// Move the item into the named collection.
    UpdateCollection { item_key: String, collection: String },
    /// Wait for ZotMoov to put the PDF at `path`.
    WaitForPdf { path: String, timeout_secs: u64 },
    /// Queue the Zotero update for a later sync; what comes of it does
    /// not matter.
    Enqueue { queue_path: String, paper_path: String, zotero_key: String, category: String },
    /// Undo these steps in this order, append the entry to the log, and
    /// fail with the message.
    Fail { rollback: Vec<RollbackAction>, log: TxError, message: String },
    /// The run is complete: append `log` to the day's log and, when there
    /// is a DOI, record it as processed.
    Finish { result: ProcessResult, log: TxError, record_doi: Option<String> },
}

/// What came of the last command.
#[derive(Debug)]
pub enum Event {
    /// The run begins.
    Start,
    Moved(Result<(), String>),
    Written(Result<(), String>),
    Classified(Result<String, String>),
    /// The item's key, or why it was not found.
    ItemFound(Result<String, String>),
    /// The current collection's name, when it could be read.
    CollectionRead(Option<String>),
    CollectionUpdated(Result<(), String>),
    PdfArrived(Result<(), String>),
    Enqueued,
}

/// Where the run stands: which command's outcome it waits for.
#[derive(Debug)]
pub enum Phase {
    Start,
    Staging,
    Classifying,
    Writing,
    Targeting,
    Enqueuing,
    FindingItem,
    ReadingCollection { item_key: String },
    Updating { item_key: String, previous: String },
    Waiting { pdf_path: String },
    Done,
}

/// The progress events and the next command.
#[derive(Debug)]
pub struct Reaction {
    pub progress: Vec<Progress>,
    pub command: Command,
}

/// One organise run.
#[derive(Debug)]
pub struct Organizer {
    pub config: OrganizerConfig,
    pub paper_path: String,
    pub file_name: String,
    pub fm: Frontmatter,
    /// The paper's text, which classification reads.
    pub content: String,
    pub zotero_online: bool,
    pub pdf_move: PdfMoveSpec,
    /// The DOIs recorded as processed before the run.
    pub processed_dois: Vec<String>,
    pub tx: PaperTransaction,
    pub phase: Phase,
    pub staging_path: String,
    pub category: String,
    pub target_path: String,
}

pub type ProgressView = (Seq<char>, Seq<char>, Option<Seq<char>>);

pub open spec fn pv(p: Progress) -> ProgressView {
    (p.step@, p.status@, opt_string(p.detail))
}

pub open spec fn pvs(v: Seq<Progress>) -> Seq<ProgressView> {
    v.map_values(|p: Progress| pv(p))
}

/// `[{step}] {message}`: how a failed step is reported.
pub open spec fn failure_text(step: Seq<char>, message: Seq<char>) -> Seq<char> {
    "["@ + step + "] "@ + message
}

/// The key a queued update carries: `doi:{doi}`, or `file:{name}` without
/// a DOI.
pub open spec fn placeholder_key(doi: Option<Seq<char>>, file_name: Seq<char>) -> Seq<char> {
    match doi {
        Some(d) => "doi:"@ + d,
        None => "file:"@ + file_name,
    }
}

/// The PDF path waited for, once the category is known.
pub open spec fn expected_pdf(m: PdfMoveSpec, category: Seq<char>) -> Option<Seq<char>> {
    match m {
        PdfMoveSpec::NoWait => None,
        PdfMoveSpec::Path(p) => Some(p@),
        PdfMoveSpec::UnderRoot { pdf_root, pdf_filename } => Some(
            join_path(join_path(pdf_root@, category), pdf_filename@),
        ),
    }
}

impl Organizer {
    /// The steps completed so far are exactly the pipeline's steps up to
    /// where the run stands, each with the paths and names it used.
    pub open spec fn wf(self) -> bool {
        let st = self.tx.completed_steps@;
        let staged = TxStep::MovedToStaging { staging_path: self.staging_path };
        let classified = TxStep::GeminiClassified { category: self.category };
        let targeted = TxStep::MovedToTarget { target_path: self.target_path };
        &&& self.staging_path@ == join_path(staging_text(self.config.content_root@), self.file_name@)
        &&& self.tx.original_path@ == self.paper_path@
        &&& match self.phase {
            Phase::Start => st.len() == 0,
            Phase::Staging => st.len() == 0,
            Phase::Classifying => st == seq![staged],
            Phase::Writing | Phase::Targeting => st == seq![staged, classified] && self.target_path@ == join_path(
                category_text(self.config.content_root@, self.category@),
                self.file_name@,
            ),
            Phase::Enqueuing | Phase::FindingItem | Phase::ReadingCollection { .. } | Phase::Updating {
                ..
            } => st == seq![staged, classified, targeted] && self.target_path@ == join_path(
                category_text(self.config.content_root@, self.category@),
                self.file_name@,
            ),
            Phase::Waiting { .. } => st.len() == 4 && st.take(3) == seq![staged, classified, targeted]
                && st[3] is ZoteroCollectionChanged && self.target_path@ == join_path(
                category_text(self.config.content_root@, self.category@),
                self.file_name@,
            ),
            Phase::Done => true,
        }
        &&& (self.phase is Enqueuing ==> !self.zotero_online)
        &&& (self.phase is FindingItem || self.phase is ReadingCollection || self.phase is Updating
            || self.phase is Waiting ==> self.zotero_online)
    }

    /// Whether `e` is what the run waits for.
    pub open spec fn accepts(self, e: Event) -> bool {
        match (self.phase, e) {
            (Phase::Start, Event::Start) => true,
            (Phase::Staging, Event::Moved(_)) => true,
            (Phase::Classifying, Event::Classified(_)) => true,
            (Phase::Writing, Event::Written(_)) => true,
            (Phase::Targeting, Event::Moved(_)) => true,
            (Phase::Enqueuing, Event::Enqueued) => true,
            (Phase::FindingItem, Event::ItemFound(_)) => true,
            (Phase::ReadingCollection { .. }, Event::CollectionRead(_)) => true,
            (Phase::Updating { .. }, Event::CollectionUpdated(_)) => true,
            (Phase::Waiting { .. }, Event::PdfArrived(_)) => true,
            _ => false,
        }
    }

    pub fn accepts_event(&self, e: &Event) -> (b: bool)
        ensures
            b == self.accepts(*e),
    {
        match (&self.phase, e) {
            (Phase::Start, Event::Start) => true,
            (Phase::Staging, Event::Moved(_)) => true,
            (Phase::Classifying, Event::Classified(_)) => true,
            (Phase::Writing, Event::Written(_)) => true,
            (Phase::Targeting, Event::Moved(_)) => true,
            (Phase::Enqueuing, Event::Enqueued) => true,
            (Phase::FindingItem, Event::ItemFound(_)) => true,
            (Phase::ReadingCollection { .. }, Event::CollectionRead(_)) => true,
            (Phase::Updating { .. }, Event::CollectionUpdated(_)) => true,
            (Phase::Waiting { .. }, Event::PdfArrived(_)) => true,
            _ => false,
        }
    }

    /// A run for the paper at `paper_path`, whose text is `content` and
    /// whose file name is `file_name`.
    pub fn new(
        paper_path: String,
        content_root: String,
        content: String,
        file_name: String,
        zotero_online: bool,
        pdf_move: PdfMoveSpec,
        processed_dois: Vec<String>,
    ) -> (r: Self)
        ensures
            r.wf(),
            r.phase is Start,
            r.processed_dois == processed_dois,
            r.pdf_move == pdf_move,
            r.paper_path == paper_path,
            r.config.content_root == content_root,
            r.file_name == file_name,
            r.content == content,
            r.zotero_online == zotero_online,
            r.fm.title@ == last_keyed(simple_yaml_lines(content@), "title:"@),
            r.fm.abstract_text@ == last_keyed(simple_yaml_lines(content@), "abstract:"@),
            opt_string(r.fm.doi) == last_doi(simple_yaml_lines(content@)),
    {
        let config = OrganizerConfig::new(content_root);
        let fm = parse_frontmatter(content.as_str());
        let staging = config.staging_dir();
        let staging_path = join(staging.as_str(), file_name.as_str());
        let tx = PaperTransaction::new(paper_path.clone());
        Organizer {
            config,
            paper_path,
            file_name,
            fm,
            content,
            zotero_online,
            pdf_move,
            processed_dois,
            tx,
            phase: Phase::Start,
            staging_path,
            category: String::new(),
            target_path: String::new(),
        }
    }
}

fn progress(step: &str, status: &str, detail: Option<&str>) -> (p: Progress)
    ensures
        pv(p) == (step@, status@, crate::summarize::opt_str(detail)),
{
    Progress {
        step: step.to_owned(),
        status: status.to_owned(),
        detail: match detail {
            Some(d) => Some(d.to_owned()),
            None => None,
        },
    }
}

fn failure_message(step: &str, message: &str) -> (r: String)
    ensures
        r@ == failure_text(step@, message@),
{
    let mut v = chars_of("[");
    let s = chars_of(step);
    extend(&mut v, s.as_slice());
    let m = chars_of("] ");
    extend(&mut v, m.as_slice());
    let e = chars_of(message);
    extend(&mut v, e.as_slice());
    string_of(v.as_slice())
}

/// The reaction to a failed step `step` with message `m`: one `failed`
/// event, every completed step undone last first, the failure logged and
/// reported as `[step] m`, and the run over.
pub open spec fn fails(o: Organizer, n: Organizer, r: Reaction, step: Seq<char>, m: Seq<char>) -> bool {
    &&& pvs(r.progress@) == seq![(step, "failed"@, Some(m))]
    &&& r.command matches Command::Fail { rollback, log, message } && rollback@ == rollback_of(
        o.tx.completed_steps@,
    ) && log.step@ == step && log.message@ == m && log.paper_path@ == o.paper_path@ && message@
        == failure_text(step, m)
    &&& n.phase is Done
    &&& n.tx.completed_steps@ == o.tx.completed_steps@
}

/// The run completes with this result, logs `Completed` with
/// `filed under {category}`, and has its DOI, if any, recorded.
pub open spec fn finishes(n: Organizer, r: Reaction, synced: bool, pending: bool) -> bool {
    &&& r.command matches Command::Finish { result, log, record_doi } && result.category@
        == n.category@ && result.final_path@ == n.target_path@ && result.zotero_synced == synced
        && result.zotero_pending == pending && log.step@ == "Completed"@ && log.message@
        == "filed under "@ + n.category@ && log.paper_path@ == n.paper_path@ && record_doi
        == n.fm.doi
    &&& n.phase is Done
}

/// The paper's DOI is among those recorded as processed.
pub open spec fn is_duplicate(o: Organizer) -> bool {
    o.fm.doi matches Some(d) && string_views(o.processed_dois@).contains(d@)
}

/// How the run reacts to each outcome, from the state `o` to `n`.
pub open spec fn reacts(o: Organizer, e: Event, n: Organizer, r: Reaction) -> bool {
    let p = pvs(r.progress@);
    let steps = o.tx.completed_steps@;
    let root = o.config.content_root@;
    match e {
        Event::Start => if is_duplicate(o) {
            fails(o, n, r, "DuplicateCheck"@, duplicate_text(o.fm.doi->0@))
        } else {
            &&& p == seq![("MovedToStaging"@, "started"@, None::<Seq<char>>)]
            &&& r.command matches Command::Move { from, to } && from@ == o.paper_path@ && to@
                == o.staging_path@
            &&& n.phase is Staging
            &&& n.tx.completed_steps@ == steps
        },
        Event::Written(Err(m)) => fails(o, n, r, "FrontmatterUpdated"@, m@),
        Event::Written(Ok(_)) => {
            &&& n.tx.completed_steps@ == steps
            &&& n.category == o.category
            &&& n.target_path == o.target_path
            &&& p == seq![
                ("FrontmatterUpdated"@, "done"@, None::<Seq<char>>),
                ("MovedToTarget"@, "started"@, None::<Seq<char>>),
            ]
            &&& r.command matches Command::Move { from, to } && from@ == o.staging_path@ && to@
                == o.target_path@
            &&& n.phase is Targeting
        },
        Event::Moved(Err(m)) => match o.phase {
            Phase::Staging => fails(o, n, r, "MovedToStaging"@, m@),
            _ => fails(o, n, r, "MovedToTarget"@, m@),
        },
        Event::Moved(Ok(_)) => match o.phase {
            Phase::Staging => {
                &&& n.tx.completed_steps@ == steps.push(
                    TxStep::MovedToStaging { staging_path: o.staging_path },
                )
                &&& p == seq![
                    ("MovedToStaging"@, "done"@, None::<Seq<char>>),
                    ("GeminiClassified"@, "started"@, None::<Seq<char>>),
                ]
                &&& r.command matches Command::Classify { title, abstract_text, body } && title
                    == o.fm.title && abstract_text == o.fm.abstract_text && body == o.content
                &&& n.phase is Classifying
            },
            _ => {
                &&& n.tx.completed_steps@ == steps.push(
                    TxStep::MovedToTarget { target_path: o.target_path },
                )
                &&& n.category == o.category
                &&& n.target_path == o.target_path
                &&& if !o.zotero_online {
                    &&& p == seq![
                        ("MovedToTarget"@, "done"@, None::<Seq<char>>),
                        (
                            "ZoteroCollectionChanged"@,
                            "skipped"@,
                            Some("Zotero offline \u{2014} queued for later sync"@),
                        ),
                        ("ZotMovConfirmed"@, "skipped"@, Some("Zotero offline"@)),
                    ]
                    &&& r.command matches Command::Enqueue {
                        queue_path,
                        paper_path,
                        zotero_key,
                        category,
                    } && queue_path@ == queue_text(root) && paper_path@ == o.paper_path@
                        && zotero_key@ == placeholder_key(opt_string(o.fm.doi), o.file_name@)
                        && category@ == o.category@
                    &&& n.phase is Enqueuing
                } else if o.fm.doi is None {
                    &&& p == seq![
                        ("MovedToTarget"@, "done"@, None::<Seq<char>>),
                        ("ZoteroCollectionChanged"@, "skipped"@, Some("no DOI in frontmatter"@)),
                        ("ZotMovConfirmed"@, "skipped"@, Some("no DOI in frontmatter"@)),
                    ]
                    &&& finishes(n, r, false, false)
                } else {
                    &&& p == seq![
                        ("MovedToTarget"@, "done"@, None::<Seq<char>>),
                        ("ZoteroCollectionChanged"@, "started"@, None::<Seq<char>>),
                    ]
                    &&& r.command matches Command::FindItem { doi } && doi == o.fm.doi->0
                    &&& n.phase is FindingItem
                }
            },
        },
        Event::Classified(Err(m)) => fails(o, n, r, "GeminiClassified"@, m@),
        Event::Classified(Ok(c)) => {
            &&& n.category == c
            &&& n.target_path@ == join_path(category_text(root, c@), o.file_name@)
            &&& n.tx.completed_steps@ == steps.push(TxStep::GeminiClassified { category: c })
            &&& p == seq![
                ("GeminiClassified"@, "done"@, Some(c@)),
                ("FrontmatterUpdated"@, "started"@, None::<Seq<char>>),
            ]
            &&& r.command matches Command::Write { path, text } && path@ == o.staging_path@
                && text@ == filed_text(o.content@, c@, o.fm.abstract_text@)
            &&& n.phase is Writing
        },
        Event::Enqueued => {
            &&& p.len() == 0
            &&& n.tx.completed_steps@ == steps
            &&& n.category == o.category && n.target_path == o.target_path
            &&& finishes(n, r, false, true)
        },
        Event::ItemFound(Err(m)) => fails(o, n, r, "ZoteroCollectionChanged"@, m@),
        Event::ItemFound(Ok(k)) => {
            &&& p.len() == 0
            &&& n.tx.completed_steps@ == steps
            &&& n.category == o.category && n.target_path == o.target_path
            &&& r.command matches Command::ReadCollection { item_key } && item_key == k
            &&& n.phase matches Phase::ReadingCollection { item_key } && item_key == k
        },
        Event::CollectionRead(prev) => {
            &&& p.len() == 0
            &&& n.tx.completed_steps@ == steps
            &&& n.category == o.category && n.target_path == o.target_path
            &&& o.phase matches Phase::ReadingCollection { item_key: k } && (r.command matches Command::UpdateCollection {
                item_key,
                collection,
            } && item_key == k && collection == o.category) && (n.phase matches Phase::Updating {
                item_key,
                previous,
            } && item_key == k && previous@ == (match prev {
                Some(x) => x@,
                None => Seq::<char>::empty(),
            }))
        },
        Event::CollectionUpdated(Err(m)) => fails(o, n, r, "ZoteroCollectionChanged"@, m@),
        Event::CollectionUpdated(Ok(_)) => {
            &&& n.category == o.category && n.target_path == o.target_path
            &&& o.phase matches Phase::Updating { item_key: k, previous: prev }
                && n.tx.completed_steps@ == steps.push(
                TxStep::ZoteroCollectionChanged {
                    item_key: k,
                    previous_collection: prev,
                    new_collection: o.category,
                },
            )
            &&& match expected_pdf(o.pdf_move, o.category@) {
                None => {
                    &&& p == seq![
                        ("ZoteroCollectionChanged"@, "done"@, None::<Seq<char>>),
                        ("ZotMovConfirmed"@, "skipped"@, Some("no expected_pdf_path provided"@)),
                    ]
                    &&& finishes(n, r, true, false)
                },
                Some(path) => {
                    &&& p == seq![
                        ("ZoteroCollectionChanged"@, "done"@, None::<Seq<char>>),
                        ("ZotMovConfirmed"@, "started"@, None::<Seq<char>>),
                    ]
                    &&& r.command matches Command::WaitForPdf { path: w, timeout_secs } && w@ == path
                        && timeout_secs == 10
                    &&& n.phase matches Phase::Waiting { pdf_path } && pdf_path@ == path
                },
            }
        },
        Event::PdfArrived(Err(m)) => fails(o, n, r, "ZotMovConfirmed"@, m@),
        Event::PdfArrived(Ok(_)) => {
            &&& n.category == o.category && n.target_path == o.target_path
            &&& o.phase matches Phase::Waiting { pdf_path } && n.tx.completed_steps@ == steps.push(
                TxStep::ZotMovConfirmed { pdf_path },
            )
            &&& p == seq![("ZotMovConfirmed"@, "done"@, None::<Seq<char>>)]
            &&& finishes(n, r, true, false)
        },
    }
}

impl Organizer {
    /// What stays the same through a step.
    pub open spec fn same_run(self, n: Organizer) -> bool {
        &&& n.config == self.config
        &&& n.paper_path == self.paper_path
        &&& n.file_name == self.file_name
        &&& n.fm == self.fm
        &&& n.content == self.content
        &&& n.zotero_online == self.zotero_online
        &&& n.pdf_move == self.pdf_move
        &&& n.staging_path == self.staging_path
        &&& n.tx.original_path == self.tx.original_path
    }

    /// The command that completes the run.
    fn finish_command(&self, synced: bool, pending: bool) -> (c: Command)
        ensures
            c matches Command::Finish { result, log, record_doi } && result.category@
                == self.category@ && result.final_path@ == self.target_path@ && result.zotero_synced
                == synced && result.zotero_pending == pending && log.step@ == "Completed"@
                && log.message@ == "filed under "@ + self.category@ && log.paper_path@
                == self.paper_path@ && record_doi == self.fm.doi,
    {
        let mut m = chars_of("filed under ");
        let c = chars_of(self.category.as_str());
        extend(&mut m, c.as_slice());
        let msg = string_of(m.as_slice());
        let record_doi = match &self.fm.doi {
            Some(d) => Some(d.clone()),
            None => None,
        };
        Command::Finish {
            result: ProcessResult {
                category: self.category.clone(),
                final_path: self.target_path.clone(),
                zotero_synced: synced,
                zotero_pending: pending,
            },
            log: TxError::new("Completed", msg.as_str(), self.paper_path.as_str()),
            record_doi,
        }
    }

    /// Whether the paper's DOI was recorded as processed.
    fn duplicate_doi(&self) -> (r: Option<String>)
        ensures
            r is Some <==> is_duplicate(*self),
            r matches Some(d) ==> self.fm.doi matches Some(x) && d@ == x@,
    {
        match &self.fm.doi {
            None => None,
            Some(d) => {
                let dv = chars_of(d.as_str());
                let mut i: usize = 0;
                while i < self.processed_dois.len()
                    invariant
                        i <= self.processed_dois.len(),
                        dv@ == d@,
                        self.fm.doi matches Some(x) && x@ == d@,
                        forall|j: int| 0 <= j < i ==> (#[trigger] self.processed_dois@[j])@ != d@,
                    decreases self.processed_dois.len() - i,
                {
                    let pv = chars_of(self.processed_dois[i].as_str());
                    if crate::text::chars_eq(pv.as_slice(), dv.as_slice()) {
                        proof {
                            assert(string_views(self.processed_dois@)[i as int] == d@);
                        }
                        let r = d.clone();
                        assert(r@ == d@);
                        return Some(r);
                    }
                    i += 1;
                }
                proof {
                    if string_views(self.processed_dois@).contains(d@) {
                        let j = choose|j: int| 0 <= j < string_views(self.processed_dois@).len()
                            && string_views(self.processed_dois@)[j] == d@;
                        assert(self.processed_dois@[j]@ == d@);
                    }
                }
                None
            },
        }
    }

    fn fail(&mut self, step: &str, m: String) -> (r: Reaction)
        requires
            old(self).wf(),
        ensures
            final(self).wf(),
            old(self).same_run(*final(self)),
            fails(*old(self), *final(self), r, step@, m@),
            final(self).category == old(self).category,
            final(self).target_path == old(self).target_path,
    {
        let mut progress_v: Vec<Progress> = Vec::new();
        progress_v.push(progress(step, "failed", Some(m.as_str())));
        let rollback = self.tx.rollback_plan();
        let log = TxError::new(step, m.as_str(), self.paper_path.as_str());
        let message = failure_message(step, m.as_str());
        self.phase = Phase::Done;
        assert(pvs(progress_v@) =~= seq![(step@, "failed"@, Some(m@))]);
        Reaction { progress: progress_v, command: Command::Fail { rollback, log, message } }
    }

    /// Reacts to what came of the last command.
    pub fn step(&mut self, e: Event) -> (r: Reaction)
        requires
            old(self).wf(),
            old(self).accepts(e),
        ensures
            final(self).wf(),
            old(self).same_run(*final(self)),
            reacts(*old(self), e, *final(self), r),
    {
        let ghost o = *self;
        match e {
            Event::Start => {
                if let Some(d) = self.duplicate_doi() {
                    let mut v = chars_of("duplicate DOI ");
                    let dv = chars_of(d.as_str());
                    extend(&mut v, dv.as_slice());
                    let tail = chars_of(": already processed");
                    extend(&mut v, tail.as_slice());
                    return self.fail("DuplicateCheck", string_of(v.as_slice()));
                }
                let mut p: Vec<Progress> = Vec::new();
                p.push(progress("MovedToStaging", "started", None));
                self.phase = Phase::Staging;
                assert(pvs(p@) =~= seq![("MovedToStaging"@, "started"@, None::<Seq<char>>)]);
                Reaction {
                    progress: p,
                    command: Command::Move { from: self.paper_path.clone(), to: self.staging_path.clone() },
                }
            },
            Event::Moved(Err(m)) => {
                if let Phase::Staging = self.phase {
                    self.fail("MovedToStaging", m)
                } else {
                    self.fail("MovedToTarget", m)
                }
            },
            Event::Moved(Ok(_)) => {
                if let Phase::Staging = self.phase {
                    self.tx.record_step(TxStep::MovedToStaging { staging_path: self.staging_path.clone() });
                    assert(self.tx.completed_steps@ =~= seq![TxStep::MovedToStaging { staging_path: self.staging_path }]);
                    let mut p: Vec<Progress> = Vec::new();
                    p.push(progress("MovedToStaging", "done", None));
                    p.push(progress("GeminiClassified", "started", None));
                    self.phase = Phase::Classifying;
                    assert(pvs(p@) =~= seq![
                        ("MovedToStaging"@, "done"@, None::<Seq<char>>),
                        ("GeminiClassified"@, "started"@, None::<Seq<char>>),
                    ]);
                    Reaction {
                        progress: p,
                        command: Command::Classify {
                            title: self.fm.title.clone(),
                            abstract_text: self.fm.abstract_text.clone(),
                            body: self.content.clone(),
                        },
                    }
                } else {
                    self.tx.record_step(TxStep::MovedToTarget { target_path: self.target_path.clone() });
                    assert(self.tx.completed_steps@ =~= seq![
                        TxStep::MovedToStaging { staging_path: self.staging_path },
                        TxStep::GeminiClassified { category: self.category },
                        TxStep::MovedToTarget { target_path: self.target_path },
                    ]);
                    let mut p: Vec<Progress> = Vec::new();
                    p.push(progress("MovedToTarget", "done", None));
                    if !self.zotero_online {
                        p.push(progress("ZoteroCollectionChanged", "skipped", Some("Zotero offline \u{2014} queued for later sync")));
                        p.push(progress("ZotMovConfirmed", "skipped", Some("Zotero offline")));
                        let zotero_key = match &self.fm.doi {
                            Some(d) => {
                                let mut v = chars_of("doi:");
                                let dv = chars_of(d.as_str());
                                extend(&mut v, dv.as_slice());
                                string_of(v.as_slice())
                            },
                            None => {
                                let mut v = chars_of("file:");
                                let fv = chars_of(self.file_name.as_str());
                                extend(&mut v, fv.as_slice());
                                string_of(v.as_slice())
                            },
                        };
                        self.phase = Phase::Enqueuing;
                        assert(pvs(p@) =~= seq![
                            ("MovedToTarget"@, "done"@, None::<Seq<char>>),
                            (
                                "ZoteroCollectionChanged"@,
                                "skipped"@,
                                Some("Zotero offline \u{2014} queued for later sync"@),
                            ),
                            ("ZotMovConfirmed"@, "skipped"@, Some("Zotero offline"@)),
                        ]);
                        return Reaction {
                            progress: p,
                            command: Command::Enqueue {
                                queue_path: self.config.queue_path(),
                                paper_path: self.paper_path.clone(),
                                zotero_key,
                                category: self.category.clone(),
                            },
                        };
                    }
                    match &self.fm.doi {
                        None => {
                            p.push(progress("ZoteroCollectionChanged", "skipped", Some("no DOI in frontmatter")));
                            p.push(progress("ZotMovConfirmed", "skipped", Some("no DOI in frontmatter")));
                            self.phase = Phase::Done;
                            assert(pvs(p@) =~= seq![
                                ("MovedToTarget"@, "done"@, None::<Seq<char>>),
                                ("ZoteroCollectionChanged"@, "skipped"@, Some("no DOI in frontmatter"@)),
                                ("ZotMovConfirmed"@, "skipped"@, Some("no DOI in frontmatter"@)),
                            ]);
                            Reaction {
                                progress: p,
                                command: self.finish_command(false, false),
                            }
                        },
                        Some(d) => {
                            let doi = d.clone();
                            p.push(progress("ZoteroCollectionChanged", "started", None));
                            self.phase = Phase::FindingItem;
                            assert(pvs(p@) =~= seq![
                                ("MovedToTarget"@, "done"@, None::<Seq<char>>),
                                ("ZoteroCollectionChanged"@, "started"@, None::<Seq<char>>),
                            ]);
                            Reaction { progress: p, command: Command::FindItem { doi } }
                        },
                    }
                }
            },
            Event::Written(Err(m)) => self.fail("FrontmatterUpdated", m),
            Event::Written(Ok(_)) => {
                let mut p: Vec<Progress> = Vec::new();
                p.push(progress("FrontmatterUpdated", "done", None));
                p.push(progress("MovedToTarget", "started", None));
                self.phase = Phase::Targeting;
                assert(pvs(p@) =~= seq![
                    ("FrontmatterUpdated"@, "done"@, None::<Seq<char>>),
                    ("MovedToTarget"@, "started"@, None::<Seq<char>>),
                ]);
                Reaction {
                    progress: p,
                    command: Command::Move { from: self.staging_path.clone(), to: self.target_path.clone() },
                }
            },
            Event::Classified(Err(m)) => self.fail("GeminiClassified", m),
            Event::Classified(Ok(c)) => {
                let dir = self.config.category_dir(c.as_str());
                let target = join(dir.as_str(), self.file_name.as_str());
                self.tx.record_step(TxStep::GeminiClassified { category: c.clone() });
                let mut p: Vec<Progress> = Vec::new();
                p.push(progress("GeminiClassified", "done", Some(c.as_str())));
                p.push(progress("FrontmatterUpdated", "started", None));
                let text = filed_content(self.content.as_str(), c.as_str(), self.fm.abstract_text.as_str());
                self.category = c;
                self.target_path = target;
                self.phase = Phase::Writing;
                assert(self.tx.completed_steps@ =~= seq![
                    TxStep::MovedToStaging { staging_path: self.staging_path },
                    TxStep::GeminiClassified { category: self.category },
                ]);
                assert(pvs(p@) =~= seq![
                    ("GeminiClassified"@, "done"@, Some(self.category@)),
                    ("FrontmatterUpdated"@, "started"@, None::<Seq<char>>),
                ]);
                Reaction {
                    progress: p,
                    command: Command::Write { path: self.staging_path.clone(), text },
                }
            },
            Event::Enqueued => {
                self.phase = Phase::Done;
                let p: Vec<Progress> = Vec::new();
                Reaction {
                    progress: p,
                    command: self.finish_command(false, true),
                }
            },
            Event::ItemFound(Err(m)) => self.fail("ZoteroCollectionChanged", m),
            Event::ItemFound(Ok(k)) => {
                self.phase = Phase::ReadingCollection { item_key: k.clone() };
                let p: Vec<Progress> = Vec::new();
                Reaction { progress: p, command: Command::ReadCollection { item_key: k } }
            },
            Event::CollectionRead(prev) => {
                let k = match &self.phase {
                    Phase::ReadingCollection { item_key } => item_key.clone(),
                    _ => String::new(),
                };
                let previous = match prev {
                    Some(x) => x,
                    None => {
                        let s = String::new();
                        assert(s@ =~= Seq::<char>::empty());
                        s
                    },
                };
                self.phase = Phase::Updating { item_key: k.clone(), previous };
                let p: Vec<Progress> = Vec::new();
                Reaction {
                    progress: p,
                    command: Command::UpdateCollection { item_key: k, collection: self.category.clone() },
                }
            },
            Event::CollectionUpdated(Err(m)) => self.fail("ZoteroCollectionChanged", m),
            Event::CollectionUpdated(Ok(_)) => {
                let (k, prev) = match &self.phase {
                    Phase::Updating { item_key, previous } => (item_key.clone(), previous.clone()),
                    _ => (String::new(), String::new()),
                };
                let ghost before = self.tx.completed_steps@;
                self.tx.record_step(
                    TxStep::ZoteroCollectionChanged {
                        item_key: k,
                        previous_collection: prev,
                        new_collection: self.category.clone(),
                    },
                );
                assert(self.tx.completed_steps@.take(3) =~= before);
                let mut p: Vec<Progress> = Vec::new();
                p.push(progress("ZoteroCollectionChanged", "done", None));
                let expected = match &self.pdf_move {
                    PdfMoveSpec::NoWait => None,
                    PdfMoveSpec::Path(x) => Some(x.clone()),
                    PdfMoveSpec::UnderRoot { pdf_root, pdf_filename } => {
                        let d = join(pdf_root.as_str(), self.category.as_str());
                        Some(join(d.as_str(), pdf_filename.as_str()))
                    },
                };
                match expected {
                    None => {
                        p.push(progress("ZotMovConfirmed", "skipped", Some("no expected_pdf_path provided")));
                        self.phase = Phase::Done;
                        assert(pvs(p@) =~= seq![
                            ("ZoteroCollectionChanged"@, "done"@, None::<Seq<char>>),
                            ("ZotMovConfirmed"@, "skipped"@, Some("no expected_pdf_path provided"@)),
                        ]);
                        Reaction {
                            progress: p,
                            command: self.finish_command(true, false),
                        }
                    },
                    Some(path) => {
                        p.push(progress("ZotMovConfirmed", "started", None));
                        self.phase = Phase::Waiting { pdf_path: path.clone() };
                        assert(pvs(p@) =~= seq![
                            ("ZoteroCollectionChanged"@, "done"@, None::<Seq<char>>),
                            ("ZotMovConfirmed"@, "started"@, None::<Seq<char>>),
                        ]);
                        Reaction { progress: p, command: Command::WaitForPdf { path, timeout_secs: 10 } }
                    },
                }
            },
            Event::PdfArrived(Err(m)) => self.fail("ZotMovConfirmed", m),
            Event::PdfArrived(Ok(_)) => {
                let path = match &self.phase {
                    Phase::Waiting { pdf_path } => pdf_path.clone(),
                    _ => String::new(),
                };
                self.tx.record_step(TxStep::ZotMovConfirmed { pdf_path: path });
                let mut p: Vec<Progress> = Vec::new();
                p.push(progress("ZotMovConfirmed", "done", None));
                self.phase = Phase::Done;
                assert(pvs(p@) =~= seq![("ZotMovConfirmed"@, "done"@, None::<Seq<char>>)]);
                Reaction {
                    progress: p,
                    command: self.finish_command(true, false),
                }
            },
        }
    }
}

/// The paper always goes back to `unclassified/`: at any point after the
/// move to `.staging/`, the rollback that a failure runs moves the file
/// from `.staging/` back, and after the move to the category folder it
/// also moves it from there, before that.
pub proof fn lemma_failure_returns_file(o: Organizer)
    requires
        o.wf(),
        !(o.phase is Start || o.phase is Staging || o.phase is Done),
    ensures
        rollback_of(o.tx.completed_steps@).contains(
            RollbackAction {
                step: crate::transaction::StepKind::MovedToStaging,
                undo: crate::transaction::Undo::MoveToUnclassified { from: o.staging_path },
            },
        ),
        !(o.phase is Classifying || o.phase is Writing || o.phase is Targeting) ==> rollback_of(o.tx.completed_steps@).contains(
            RollbackAction {
                step: crate::transaction::StepKind::MovedToTarget,
                undo: crate::transaction::Undo::MoveToUnclassified { from: o.target_path },
            },
        ),
{
    let st = o.tx.completed_steps@;
    assert(st[0] == TxStep::MovedToStaging { staging_path: o.staging_path });
    crate::transaction::lemma_rollback_returns_file(st, 0);
    if !(o.phase is Classifying || o.phase is Writing || o.phase is Targeting) {
        assert(st[2] == TxStep::MovedToTarget { target_path: o.target_path });
        crate::transaction::lemma_rollback_returns_file(st, 2);
    }
}

/// Law: a run reports its Zotero update as queued exactly when Zotero was
/// offline (checked once when the run was made, and the same through every
/// step), as done only when it was online, and never as both.
pub proof fn lemma_pending_iff_offline(o: Organizer, e: Event, n: Organizer, r: Reaction)
    requires
        o.wf(),
        o.accepts(e),
        reacts(o, e, n, r),
    ensures
        r.command matches Command::Finish { result, .. } ==> {
            &&& !(result.zotero_synced && result.zotero_pending)
            &&& (result.zotero_pending <==> !o.zotero_online)
            &&& (result.zotero_synced ==> o.zotero_online)
        },
{
}

/// `states[i]` takes `events[i]`, reacting with `reactions[i]` and moving
/// to `states[i + 1]`, from a freshly made run on: what `Organizer::new`
/// followed by calls of `step` produces.
pub open spec fn is_run(states: Seq<Organizer>, events: Seq<Event>, reactions: Seq<Reaction>) -> bool {
    &&& states.len() == events.len() + 1
    &&& reactions.len() == events.len()
    &&& states[0].wf()
    &&& states[0].phase is Start
    &&& forall|i: int|
        0 <= i < events.len() ==> {
            &&& (#[trigger] states[i]).accepts(events[i])
            &&& states[i].same_run(states[i + 1])
            &&& reacts(states[i], events[i], states[i + 1], reactions[i])
            &&& states[i + 1].wf()
        }
}

/// Law, over a whole run: whenever the run completes, its Zotero update is
/// reported as queued exactly when Zotero was offline when the run was
/// made, as done only when it was online, and never as both; and the paper
/// ends at `content/papers/{category}/{file name}`.
pub proof fn lemma_run_pending_iff_offline(
    states: Seq<Organizer>,
    events: Seq<Event>,
    reactions: Seq<Reaction>,
    k: int,
)
    requires
        is_run(states, events, reactions),
        0 <= k < events.len(),
    ensures
        reactions[k].command matches Command::Finish { result, .. } ==> {
            &&& !(result.zotero_synced && result.zotero_pending)
            &&& (result.zotero_pending <==> !states[0].zotero_online)
            &&& (result.zotero_synced ==> states[0].zotero_online)
            &&& result.final_path@ == join_path(
                category_text(states[0].config.content_root@, result.category@),
                states[0].file_name@,
            )
        },
    decreases k,
{
    assert(states[k].accepts(events[k]));
    if k > 0 {
        lemma_run_pending_iff_offline(states, events, reactions, k - 1);
        lemma_same_run_from_start(states, events, reactions, k - 1);
    }
    lemma_pending_iff_offline(states[k], events[k], states[k + 1], reactions[k]);
}

/// What stays the same through a step stays the same through a run.
proof fn lemma_same_run_from_start(
    states: Seq<Organizer>,
    events: Seq<Event>,
    reactions: Seq<Reaction>,
    k: int,
)
    requires
        is_run(states, events, reactions),
        0 <= k < events.len(),
    ensures
        states[0].same_run(states[k + 1]),
    decreases k,
{
    assert(states[k].accepts(events[k]));
    if k > 0 {
        lemma_same_run_from_start(states, events, reactions, k - 1);
    }
}

/// Law, over a whole run: a failure undoes exactly the steps completed so
/// far, last first; once the paper was moved to `.staging/` that undoing
/// moves it back from there to `unclassified/`; and the message names the
/// failed step in brackets.
pub proof fn lemma_run_failure_returns_file(
    states: Seq<Organizer>,
    events: Seq<Event>,
    reactions: Seq<Reaction>,
    k: int,
)
    requires
        is_run(states, events, reactions),
        0 <= k < events.len(),
    ensures
        reactions[k].command matches Command::Fail { rollback, message, .. } ==> {
            &&& rollback@ == rollback_of(states[k].tx.completed_steps@)
            &&& message@.len() > 0 && message@[0] == '['
            &&& states[k].tx.completed_steps@.len() == 0 ==> rollback@.len() == 0
            &&& states[k].tx.completed_steps@.len() > 0 ==> rollback@.contains(
                RollbackAction {
                    step: crate::transaction::StepKind::MovedToStaging,
                    undo: crate::transaction::Undo::MoveToUnclassified { from: states[0].staging_path },
                },
            )
        },
{
    assert(states[k].accepts(events[k]));
    if k > 0 {
        lemma_same_run_from_start(states, events, reactions, k - 1);
    }
    let o = states[k];
    reveal_strlit("[");
    if o.tx.completed_steps@.len() == 0 {
        assert(rollback_of(o.tx.completed_steps@) =~= Seq::<RollbackAction>::empty());
    } else {
        lemma_failure_returns_file(o);
    }
    if reactions[k].command is Fail {
        assert(reactions[k].command->Fail_rollback@ == rollback_of(o.tx.completed_steps@));
        assert(reactions[k].command->Fail_message@.len() > 0);
        assert(reactions[k].command->Fail_message@[0] == '[');
    }
}

} // verus!

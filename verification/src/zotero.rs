//! The Zotero side of the wiki: the items and collections that the local
//! Zotero API returns, how an item is picked for a DOI or a title, how a
//! collection's nested path is built, which PDFs are importable, which wiki
//! folders mirror which collections, and how the wait for ZotMoov backs
//! off.  The HTTP requests and the file system are the caller's.
use vstd::prelude::*;

use crate::text::{
    chars_of, collapse_ws, extend, join, join_chars, slice_chars, starts_with, str_lowercase,
    string_of, to_lowercase, trim, trim_str, views, decimal, decimal_chars, CharClass,
};
use crate::gemini::opt_string;
use crate::sort::SortKey;

verus! {

/// The local library's data endpoints.
pub const ZOTERO_API: &'static str = "http://localhost:23119/api/users/0";

/// The root that connectivity probes hit.
pub const ZOTERO_API_ROOT: &'static str = "http://localhost:23119/api";

/// Seconds between two connectivity probes of the watcher.
pub const POLL_INTERVAL_SECS: u64 = 30;

/// Seconds one Zotero request may take.
pub const REQUEST_TIMEOUT_SECS: u64 = 5;

// ── Types ─────────────────────────────────────────────────────────────────

/// Connectivity of the local Zotero server.
#[derive(Debug, Clone)]
pub enum ZoteroStatus {
    /// HTTP 2xx from the server.
    Connected,
    /// Connection refused or timed out: Zotero is likely not running.
    Disconnected,
    /// A non-2xx answer or another failure.
    Error(String),
}

/// A library item.
#[derive(Debug)]
pub struct ZoteroItem {
    pub key: String,
    pub data: ZoteroItemData,
}

/// The fields of an item that the wiki reads.
#[derive(Debug)]
pub struct ZoteroItemData {
    pub title: Option<String>,
    pub abstract_note: Option<String>,
    /// Collection keys (not names) the item belongs to.
    pub collections: Vec<String>,
    pub doi: Option<String>,
    pub creators: Vec<ZoteroCreator>,
    /// Free-form date ("2017", "2017-06-12", "June 2017", ...).
    pub date: Option<String>,
    pub url: Option<String>,
    pub publication_title: Option<String>,
    pub journal_abbreviation: Option<String>,
    pub conference_name: Option<String>,
    pub proceedings_title: Option<String>,
    pub book_title: Option<String>,
    pub repository: Option<String>,
    pub publisher: Option<String>,
}

/// One creator: a person (`first_name` and `last_name`) or a single name.
#[derive(Debug, Clone)]
pub struct ZoteroCreator {
    pub creator_type: Option<String>,
    pub first_name: Option<String>,
    pub last_name: Option<String>,
    pub name: Option<String>,
}

/// A top-level item with its first PDF attachment, ready to import.
#[derive(Debug)]
pub struct ZoteroPdfEntry {
    pub item_key: String,
    pub attachment_key: String,
    /// Display title.
    pub title: String,
    /// The attachment's file name, when Zotero exposes one.
    pub filename: Option<String>,
    /// The collection path the item belongs to, if known.
    pub collection_name: Option<String>,
}

/// What mirroring Zotero's collections into the wiki did.
#[derive(Debug)]
pub struct SyncStructureResult {
    /// Folders created under `content/papers/`.
    pub folders_created: Vec<String>,
    /// Collections created in Zotero (this direction is not mirrored).
    pub collections_created: Vec<String>,
    /// Failures that did not stop the run.
    pub errors: Vec<String>,
}

// ── Publication venue ─────────────────────────────────────────────────────

/// The first candidate that is not blank, trimmed.
pub open spec fn first_nonblank(cands: Seq<Option<Seq<char>>>) -> Option<Seq<char>>
    decreases cands.len(),
{
    if cands.len() == 0 {
        None
    } else {
        match cands[0] {
            Some(s) if trim(s).len() > 0 => Some(trim(s)),
            _ => first_nonblank(cands.drop_first()),
        }
    }
}

impl ZoteroItemData {
    /// The venue fields, most descriptive first.
    pub open spec fn venue_candidates(self) -> Seq<Option<Seq<char>>> {
        seq![
            opt_string(self.publication_title),
            opt_string(self.conference_name),
            opt_string(self.proceedings_title),
            opt_string(self.book_title),
            opt_string(self.journal_abbreviation),
            opt_string(self.repository),
            opt_string(self.publisher),
        ]
    }

    /// The most descriptive venue of the item, trimmed; `None` when every
    /// venue field is blank.
    pub fn best_publication(&self) -> (r: Option<String>)
        ensures
            opt_string(r) == first_nonblank(self.venue_candidates()),
    {
        let ghost c = self.venue_candidates();
        proof {
            reveal_with_fuel(first_nonblank, 8);
        }
        assert(c.drop_first().drop_first().drop_first().drop_first().drop_first().drop_first().drop_first()
            =~= Seq::<Option<Seq<char>>>::empty());
        if let Some(s) = nonblank(&self.publication_title) {
            return Some(s);
        }
        assert(c.drop_first()[0] == opt_string(self.conference_name));
        if let Some(s) = nonblank(&self.conference_name) {
            return Some(s);
        }
        assert(c.drop_first().drop_first()[0] == opt_string(self.proceedings_title));
        if let Some(s) = nonblank(&self.proceedings_title) {
            return Some(s);
        }
        assert(c.drop_first().drop_first().drop_first()[0] == opt_string(self.book_title));
        if let Some(s) = nonblank(&self.book_title) {
            return Some(s);
        }
        assert(c.drop_first().drop_first().drop_first().drop_first()[0] == opt_string(
            self.journal_abbreviation,
        ));
        if let Some(s) = nonblank(&self.journal_abbreviation) {
            return Some(s);
        }
        assert(c.drop_first().drop_first().drop_first().drop_first().drop_first()[0] == opt_string(
            self.repository,
        ));
        if let Some(s) = nonblank(&self.repository) {
            return Some(s);
        }
        assert(c.drop_first().drop_first().drop_first().drop_first().drop_first().drop_first()[0]
            == opt_string(self.publisher));
        if let Some(s) = nonblank(&self.publisher) {
            return Some(s);
        }
        None
    }
}

/// The field trimmed, when it is there and not blank.
fn nonblank(o: &Option<String>) -> (r: Option<String>)
    ensures
        match opt_string(*o) {
            Some(s) if trim(s).len() > 0 => opt_string(r) == Some(trim(s)),
            _ => r is None,
        },
{
    match o {
        Some(s) => {
            let t = trim_str(s.as_str());
            if t.as_str().is_empty() {
                None
            } else {
                Some(t)
            }
        },
        None => None,
    }
}

// ── Matching items ────────────────────────────────────────────────────────

/// `char::to_ascii_lowercase`.
pub open spec fn ascii_lower(c: char) -> char {
    if 'A' <= c && c <= 'Z' {
        ((c as u32) + 32) as char
    } else {
        c
    }
}

/// `str::eq_ignore_ascii_case`.
pub open spec fn eq_ignore_ascii(a: Seq<char>, b: Seq<char>) -> bool {
    a.len() == b.len() && forall|i: int| 0 <= i < a.len() ==> ascii_lower(#[trigger] a[i]) == ascii_lower(b[i])
}

fn ascii_lower_exec(c: char) -> (r: char)
    ensures
        r == ascii_lower(c),
{
    if 'A' <= c && c <= 'Z' {
        let u = (c as u32) + 32;
        assert(u < 0xD800);
        let r = char_from_ascii(u);
        r
    } else {
        c
    }
}

/// The character of an ASCII code point.
fn char_from_ascii(u: u32) -> (c: char)
    requires
        0x61 <= u <= 0x7a,
    ensures
        c == u as char,
{
    let b = u as u8;
    assert(b == u);
    let c = b as char;
    assert(c as u32 == u);
    c
}

pub fn eq_ignore_ascii_case(a: &str, b: &str) -> (r: bool)
    ensures
        r == eq_ignore_ascii(a@, b@),
{
    let x = chars_of(a);
    let y = chars_of(b);
    if x.len() != y.len() {
        return false;
    }
    let mut i: usize = 0;
    while i < x.len()
        invariant
            i <= x.len(),
            x.len() == y.len(),
            x@ == a@,
            y@ == b@,
            forall|j: int| 0 <= j < i ==> ascii_lower(#[trigger] x@[j]) == ascii_lower(y@[j]),
        decreases x.len() - i,
    {
        if ascii_lower_exec(x[i]) != ascii_lower_exec(y[i]) {
            return false;
        }
        i += 1;
    }
    true
}

/// The item's DOI equals `doi`, ASCII case ignored.
pub open spec fn doi_matches(item: ZoteroItem, doi: Seq<char>) -> bool {
    match item.data.doi {
        Some(d) => eq_ignore_ascii(d@, doi),
        None => false,
    }
}

/// Runs of whitespace collapsed to one space, ends trimmed, lower-cased.
pub open spec fn title_key(s: Seq<char>) -> Seq<char> {
    str_lowercase(collapse_ws(s))
}

pub fn normalise_title(s: &str) -> (r: String)
    ensures
        r@ == title_key(s@),
{
    let v = chars_of(s);
    let c = crate::text::collapse_whitespace(v.as_slice());
    let cs = string_of(c.as_slice());
    to_lowercase(cs.as_str())
}

/// The item's title has the same key as `title`.
pub open spec fn title_matches(item: ZoteroItem, title: Seq<char>) -> bool {
    match item.data.title {
        Some(t) => title_key(t@) == title_key(title),
        None => false,
    }
}

/// `i` is the first index of `items` whose item `p` accepts.
pub open spec fn first_with(items: Seq<ZoteroItem>, p: spec_fn(ZoteroItem) -> bool, i: int) -> bool {
    &&& 0 <= i < items.len()
    &&& p(items[i])
    &&& forall|j: int| 0 <= j < i ==> !p(#[trigger] items[j])
}

pub open spec fn doi_pred(doi: Seq<char>) -> spec_fn(ZoteroItem) -> bool {
    |item: ZoteroItem| doi_matches(item, doi)
}

pub open spec fn title_pred(title: Seq<char>) -> spec_fn(ZoteroItem) -> bool {
    |item: ZoteroItem| title_matches(item, title)
}

/// The first of the search results whose DOI is `doi`, ASCII case ignored.
pub fn pick_item_by_doi(items: Vec<ZoteroItem>, doi: &str) -> (r: Result<ZoteroItem, String>)
    ensures
        match r {
            Ok(it) => exists|i: int| first_with(items@, doi_pred(doi@), i) && it == items@[i],
            Err(e) => (forall|i: int| 0 <= i < items@.len() ==> !doi_matches(#[trigger] items@[i], doi@))
                && e@ == "No Zotero item found for DOI: "@ + doi@,
        },
{
    let mut list = items;
    let ghost all = list@;
    let mut i: usize = 0;
    while i < list.len()
        invariant
            i <= list.len(),
            list@ == all,
            all == items@,
            forall|j: int| 0 <= j < i ==> !doi_matches(#[trigger] all[j], doi@),
        decreases list.len() - i,
    {
        let hit = match &list[i].data.doi {
            Some(d) => eq_ignore_ascii_case(d.as_str(), doi),
            None => false,
        };
        if hit {
            let it = list.remove(i);
            assert(it == all[i as int]);
            assert(first_with(all, doi_pred(doi@), i as int) && it == all[i as int]);
            return Ok(it);
        }
        i += 1;
    }
    let mut v = chars_of("No Zotero item found for DOI: ");
    let d = chars_of(doi);
    extend(&mut v, d.as_slice());
    Err(string_of(v.as_slice()))
}

/// The first of the search results whose title matches `title` once both
/// are normalised.
pub fn pick_item_by_title(items: Vec<ZoteroItem>, title: &str) -> (r: Result<ZoteroItem, String>)
    ensures
        match r {
            Ok(it) => exists|i: int| first_with(items@, title_pred(title@), i) && it == items@[i],
            Err(e) => (forall|i: int|
                0 <= i < items@.len() ==> !title_matches(#[trigger] items@[i], title@)) && e@
                == "No Zotero item found for title: "@ + crate::gemini::str_debug(title@),
        },
{
    let normalised = normalise_title(title);
    let mut list = items;
    let ghost all = list@;
    let mut i: usize = 0;
    while i < list.len()
        invariant
            i <= list.len(),
            list@ == all,
            all == items@,
            normalised@ == title_key(title@),
            forall|j: int| 0 <= j < i ==> !title_matches(#[trigger] all[j], title@),
        decreases list.len() - i,
    {
        let hit = match &list[i].data.title {
            Some(t) => {
                let k = normalise_title(t.as_str());
                k == normalised
            },
            None => false,
        };
        if hit {
            let it = list.remove(i);
            assert(it == all[i as int]);
            assert(first_with(all, title_pred(title@), i as int) && it == all[i as int]);
            return Ok(it);
        }
        i += 1;
    }
    let mut v = chars_of("No Zotero item found for title: ");
    let d = crate::gemini::debug_quoted(title);
    let dv = chars_of(d.as_str());
    extend(&mut v, dv.as_slice());
    Err(string_of(v.as_slice()))
}

// ── Connectivity ──────────────────────────────────────────────────────────

/// The answer to a locked local API.
pub const API_LOCKED: &'static str = "Zotero가 로컬 API 접근을 차단했습니다. Zotero → Settings → Advanced → General에서 \"Allow other applications on this computer to communicate with Zotero\"를 체크하고 Zotero를 재시작하세요.";

/// A 2xx status.
pub open spec fn is_success(code: u16) -> bool {
    200 <= code <= 299
}

pub fn status_is_success(code: u16) -> (b: bool)
    ensures
        b == is_success(code),
{
    200 <= code && code <= 299
}

/// The status that an answer of the server gives: connected on 2xx, the
/// locked-API hint on 403, otherwise `HTTP ` and the status as shown.
pub fn status_of_response(code: u16, shown: &str) -> (r: ZoteroStatus)
    ensures
        is_success(code) ==> r is Connected,
        !is_success(code) && code == 403 ==> (r matches ZoteroStatus::Error(e) && e@ == API_LOCKED@),
        !is_success(code) && code != 403 ==> (r matches ZoteroStatus::Error(e) && e@ == "HTTP "@
            + shown@),
{
    if status_is_success(code) {
        ZoteroStatus::Connected
    } else if code == 403 {
        ZoteroStatus::Error(API_LOCKED.to_owned())
    } else {
        let mut v = chars_of("HTTP ");
        let s = chars_of(shown);
        extend(&mut v, s.as_slice());
        ZoteroStatus::Error(string_of(v.as_slice()))
    }
}

/// The status when no answer came: disconnected when the connection was
/// refused or timed out, otherwise the failure's message.
pub fn status_of_failure(refused_or_timed_out: bool, message: &str) -> (r: ZoteroStatus)
    ensures
        refused_or_timed_out ==> r is Disconnected,
        !refused_or_timed_out ==> (r matches ZoteroStatus::Error(e) && e@ == message@),
{
    if refused_or_timed_out {
        ZoteroStatus::Disconnected
    } else {
        ZoteroStatus::Error(message.to_owned())
    }
}

// ── Collection paths ──────────────────────────────────────────────────────

/// A collection as the listing gives it: key, then name and parent key.
pub type CollectionNode = (String, (String, Option<String>));

/// No key occurs twice.
pub open spec fn distinct_keys(nodes: Seq<CollectionNode>) -> bool {
    forall|i: int, j: int| 0 <= i < j < nodes.len() ==> (#[trigger] nodes[i]).0@ != (#[trigger] nodes[j]).0@
}

/// The index of the collection with key `k`.
pub open spec fn node_at(nodes: Seq<CollectionNode>, k: Seq<char>) -> Option<int> {
    if exists|i: int| 0 <= i < nodes.len() && (#[trigger] nodes[i]).0@ == k {
        Some(choose|i: int| 0 <= i < nodes.len() && (#[trigger] nodes[i]).0@ == k)
    } else {
        None
    }
}

/// The names met walking up from `cur` through the parents, child first.
/// The walk stops at a missing key, at a key met before, or after `fuel`
/// steps; a bound of as many steps as there are collections never cuts it
/// short (`lemma_chain_bound_enough`).
pub open spec fn chain_names(
    nodes: Seq<CollectionNode>,
    cur: Option<Seq<char>>,
    seen: Set<Seq<char>>,
    fuel: nat,
) -> Seq<Seq<char>>
    decreases fuel,
{
    match cur {
        None => seq![],
        Some(k) => if fuel == 0 || seen.contains(k) {
            seq![]
        } else {
            match node_at(nodes, k) {
                None => seq![],
                Some(i) => seq![nodes[i].1.0@] + chain_names(
                    nodes,
                    opt_string(nodes[i].1.1),
                    seen.insert(k),
                    (fuel - 1) as nat,
                ),
            }
        },
    }
}

/// The nested path of a collection: the names from the root down, joined
/// with `/`.
pub open spec fn collection_path(nodes: Seq<CollectionNode>, key: Seq<char>) -> Seq<char> {
    join(chain_names(nodes, Some(key), Set::empty(), nodes.len()).reverse(), seq!['/'])
}

/// The keys of the collections.
pub open spec fn key_set(nodes: Seq<CollectionNode>) -> Set<Seq<char>> {
    nodes.map_values(|n: CollectionNode| n.0@).to_set()
}

/// With at least as many steps left as keys not yet met, the step bound
/// does not matter.
proof fn lemma_chain_fuel(
    nodes: Seq<CollectionNode>,
    cur: Option<Seq<char>>,
    seen: Set<Seq<char>>,
    f1: nat,
    f2: nat,
)
    requires
        f1 >= key_set(nodes).difference(seen).len(),
        f2 >= key_set(nodes).difference(seen).len(),
    ensures
        chain_names(nodes, cur, seen, f1) == chain_names(nodes, cur, seen, f2),
    decreases key_set(nodes).difference(seen).len(),
{
    broadcast use vstd::set::group_set_axioms, vstd::seq_lib::seq_to_set_is_finite;

    match cur {
        None => {},
        Some(k) => {
            if !seen.contains(k) {
                match node_at(nodes, k) {
                    None => {},
                    Some(i) => {
                        let ks = key_set(nodes);
                        let names = nodes.map_values(|n: CollectionNode| n.0@);
                        assert(names[i] == k);
                        assert(names.contains(k));
                        assert(ks.contains(k));
                        let d = ks.difference(seen);
                        assert(d.contains(k));
                        let seen2 = seen.insert(k);
                        assert(ks.difference(seen2) =~= d.remove(k));
                        assert(f1 >= 1 && f2 >= 1);
                        lemma_chain_fuel(
                            nodes,
                            opt_string(nodes[i].1.1),
                            seen2,
                            (f1 - 1) as nat,
                            (f2 - 1) as nat,
                        );
                    },
                }
            }
        },
    }
}

/// Law: the walk up the parents is ended by a missing parent or a key met
/// before, never by its step bound: any bound of at least the number of
/// collections gives the same path.
pub proof fn lemma_chain_bound_enough(nodes: Seq<CollectionNode>, key: Seq<char>, fuel: nat)
    requires
        fuel >= nodes.len(),
    ensures
        chain_names(nodes, Some(key), Set::empty(), fuel) == chain_names(
            nodes,
            Some(key),
            Set::empty(),
            nodes.len(),
        ),
{
    broadcast use vstd::set::group_set_axioms, vstd::seq_lib::seq_to_set_is_finite;

    let names = nodes.map_values(|n: CollectionNode| n.0@);
    names.lemma_cardinality_of_set();
    let ks = key_set(nodes);
    assert(ks.difference(Set::empty()) =~= ks);
    lemma_chain_fuel(nodes, Some(key), Set::empty(), fuel, nodes.len());
}

/// The index of the collection with key `k`, if any.
fn find_node(nodes: &Vec<CollectionNode>, k: &String) -> (r: Option<usize>)
    requires
        distinct_keys(nodes@),
    ensures
        match r {
            Some(i) => node_at(nodes@, k@) == Some(i as int) && i < nodes@.len(),
            None => node_at(nodes@, k@) is None,
        },
{
    let mut i: usize = 0;
    while i < nodes.len()
        invariant
            i <= nodes.len(),
            distinct_keys(nodes@),
            forall|j: int| 0 <= j < i ==> (#[trigger] nodes@[j]).0@ != k@,
        decreases nodes.len() - i,
    {
        if nodes[i].0 == *k {
            proof {
                let c = choose|j: int| 0 <= j < nodes@.len() && (#[trigger] nodes@[j]).0@ == k@;
                if c != i {
                    if c < i {
                        assert(nodes@[c].0@ != k@);
                    } else {
                        assert(nodes@[i as int].0@ != nodes@[c].0@);
                    }
                }
            }
            return Some(i);
        }
        i += 1;
    }
    None
}

/// Whether `k` is among `seen`.
fn seen_contains(seen: &Vec<String>, k: &String) -> (b: bool)
    ensures
        b == seen@.map_values(|x: String| x@).contains(k@),
{
    let ghost sv = seen@.map_values(|x: String| x@);
    let mut i: usize = 0;
    while i < seen.len()
        invariant
            i <= seen.len(),
            sv == seen@.map_values(|x: String| x@),
            forall|j: int| 0 <= j < i ==> sv[j] != k@,
        decreases seen.len() - i,
    {
        if seen[i] == *k {
            assert(sv[i as int] == k@);
            return true;
        }
        i += 1;
    }
    proof {
        if sv.contains(k@) {
            let j = choose|j: int| 0 <= j < sv.len() && sv[j] == k@;
        }
    }
    false
}

/// The path of the collection with key `key`.
fn path_of(nodes: &Vec<CollectionNode>, key: &String) -> (r: Vec<char>)
    requires
        distinct_keys(nodes@),
    ensures
        r@ == collection_path(nodes@, key@),
{
    let ghost total = chain_names(nodes@, Some(key@), Set::empty(), nodes@.len());
    let mut chain: Vec<Vec<char>> = Vec::new();
    let mut seen: Vec<String> = Vec::new();
    let ghost mut seen_set: Set<Seq<char>> = Set::empty();
    let mut cursor: Option<String> = Some(key.clone());
    let mut fuel: usize = nodes.len();
    loop
        invariant
            distinct_keys(nodes@),
            forall|x: Seq<char>| seen_set.contains(x) <==> seen@.map_values(|y: String| y@).contains(x),
            total == views(chain@) + chain_names(nodes@, opt_string(cursor), seen_set, fuel as nat),
        ensures
            total == views(chain@),
        decreases fuel,
    {
        let ghost sv = seen@.map_values(|x: String| x@);
        let k = match &cursor {
            None => {
                assert(views(chain@) + Seq::<Seq<char>>::empty() =~= views(chain@));
                break;
            },
            Some(k) => k.clone(),
        };
        let visited = seen_contains(&seen, &k);
        if fuel == 0 || visited {
            assert(views(chain@) + Seq::<Seq<char>>::empty() =~= views(chain@));
            break;
        }
        match find_node(nodes, &k) {
            None => {
                assert(views(chain@) + Seq::<Seq<char>>::empty() =~= views(chain@));
                break;
            },
            Some(i) => {
                let name = chars_of(nodes[i].1.0.as_str());
                let ghost prev = chain@;
                let ghost old_set = seen_set;
                chain.push(name);
                cursor = nodes[i].1.1.clone();
                seen.push(k);
                proof {
                    seen_set = seen_set.insert(k@);
                    assert(views(chain@) =~= views(prev) + seq![name@]);
                    assert(seen@.map_values(|x: String| x@) =~= sv.push(k@));
                    assert forall|x: Seq<char>| seen_set.contains(x) <==> seen@.map_values(
                        |y: String| y@,
                    ).contains(x) by {
                        let sv2 = seen@.map_values(|y: String| y@);
                        if sv2.contains(x) {
                            let j = choose|j: int| 0 <= j < sv2.len() && sv2[j] == x;
                            if j < sv.len() {
                                assert(sv[j] == x);
                            }
                        }
                        if sv.contains(x) {
                            let j = choose|j: int| 0 <= j < sv.len() && sv[j] == x;
                            assert(sv2[j] == x);
                        }
                        if x == k@ {
                            assert(sv2[sv.len() as int] == x);
                        }
                    }
                    assert(views(chain@) + chain_names(
                        nodes@,
                        opt_string(cursor),
                        seen_set,
                        (fuel - 1) as nat,
                    ) =~= views(prev) + (seq![name@] + chain_names(
                        nodes@,
                        opt_string(cursor),
                        old_set.insert(k@),
                        (fuel - 1) as nat,
                    )));
                }
                fuel = fuel - 1;
            },
        }
    }
    let mut rev: Vec<Vec<char>> = Vec::new();
    let mut j: usize = chain.len();
    while j > 0
        invariant
            j <= chain.len(),
            views(rev@) =~= views(chain@).skip(j as int).reverse(),
        decreases j,
    {
        j -= 1;
        let ghost prev = rev@;
        rev.push(chain[j].clone());
        proof {
            assert(views(rev@) =~= views(prev).push(chain@[j as int]@));
            assert(views(chain@).skip(j as int) =~= seq![chain@[j as int]@] + views(chain@).skip(
                j + 1,
            ));
        }
    }
    let sep: [char; 1] = ['/'];
    assert(sep@ =~= seq!['/']);
    assert(views(chain@).skip(0) =~= views(chain@));
    join_chars(&rev, sep.as_slice())
}

/// Every collection's nested path, keyed by the collection's key.
pub fn build_collection_paths(nodes: &Vec<CollectionNode>) -> (r: Vec<(String, String)>)
    requires
        distinct_keys(nodes@),
    ensures
        r@.len() == nodes@.len(),
        forall|i: int|
            0 <= i < r@.len() ==> (#[trigger] r@[i]).0@ == nodes@[i].0@ && r@[i].1@
                == collection_path(nodes@, nodes@[i].0@),
{
    let mut out: Vec<(String, String)> = Vec::new();
    let mut i: usize = 0;
    while i < nodes.len()
        invariant
            i <= nodes.len(),
            distinct_keys(nodes@),
            out@.len() == i,
            forall|j: int|
                0 <= j < i ==> (#[trigger] out@[j]).0@ == nodes@[j].0@ && out@[j].1@
                    == collection_path(nodes@, nodes@[j].0@),
        decreases nodes.len() - i,
    {
        let p = path_of(nodes, &nodes[i].0);
        out.push((nodes[i].0.clone(), string_of(p.as_slice())));
        i += 1;
    }
    out
}

/// The path recorded for `key`, the first one when there are several.
pub open spec fn path_for(paths: Seq<(String, String)>, key: Seq<char>) -> Option<Seq<char>>
    decreases paths.len(),
{
    if paths.len() == 0 {
        None
    } else if paths[0].0@ == key {
        Some(paths[0].1@)
    } else {
        path_for(paths.drop_first(), key)
    }
}

pub fn lookup_path(paths: &Vec<(String, String)>, key: &str) -> (r: Option<String>)
    ensures
        opt_string(r) == path_for(paths@, key@),
{
    let key_s = key.to_owned();
    let mut i: usize = 0;
    assert(paths@.skip(0) =~= paths@);
    while i < paths.len()
        invariant
            i <= paths.len(),
            key_s@ == key@,
            path_for(paths@, key@) == path_for(paths@.skip(i as int), key@),
        decreases paths.len() - i,
    {
        assert(paths@.skip(i as int)[0] == paths@[i as int]);
        assert(paths@.skip(i as int).drop_first() =~= paths@.skip(i + 1));
        if paths[i].0 == key_s {
            return Some(paths[i].1.clone());
        }
        i += 1;
    }
    None
}

/// A collection as the collection listing gives it: key and name, either
/// of which may be missing.
pub type CollectionEntry = (Option<String>, Option<String>);

/// The key of the first collection named `name` that has a key.
pub open spec fn key_named(cols: Seq<CollectionEntry>, name: Seq<char>) -> Option<Seq<char>>
    decreases cols.len(),
{
    if cols.len() == 0 {
        None
    } else {
        match (cols[0].0, cols[0].1) {
            (Some(k), Some(n)) if n@ == name => Some(k@),
            _ => key_named(cols.drop_first(), name),
        }
    }
}

pub fn find_collection_key(cols: &Vec<CollectionEntry>, name: &str) -> (r: Option<String>)
    ensures
        opt_string(r) == key_named(cols@, name@),
{
    let name_s = name.to_owned();
    let mut i: usize = 0;
    assert(cols@.skip(0) =~= cols@);
    while i < cols.len()
        invariant
            i <= cols.len(),
            name_s@ == name@,
            key_named(cols@, name@) == key_named(cols@.skip(i as int), name@),
        decreases cols.len() - i,
    {
        assert(cols@.skip(i as int)[0] == cols@[i as int]);
        assert(cols@.skip(i as int).drop_first() =~= cols@.skip(i + 1));
        match (&cols[i].0, &cols[i].1) {
            (Some(k), Some(n)) => {
                if *n == name_s {
                    return Some(k.clone());
                }
            },
            _ => {},
        }
        i += 1;
    }
    None
}

pub const EMPTY_COLLECTION_NAME: &'static str = "collection name must not be empty";

/// The name a collection listing asks for: trimmed, refused when blank.
pub fn listing_collection_name(collection: &str) -> (r: Result<String, String>)
    ensures
        match r {
            Ok(n) => trim(collection@).len() > 0 && n@ == trim(collection@),
            Err(e) => trim(collection@).len() == 0 && e@ == EMPTY_COLLECTION_NAME@,
        },
{
    let n = trim_str(collection);
    if n.as_str().is_empty() {
        return Err(EMPTY_COLLECTION_NAME.to_owned());
    }
    Ok(n)
}

/// `Zotero collection "<name>" not found`.
pub fn collection_not_found(name: &str) -> (r: String)
    ensures
        r@ == "Zotero collection \""@ + name@ + "\" not found"@,
{
    let mut v = chars_of("Zotero collection \"");
    let n = chars_of(name);
    extend(&mut v, n.as_slice());
    let t = chars_of("\" not found");
    extend(&mut v, t.as_slice());
    string_of(v.as_slice())
}

/// The name of the item's first collection is looked up under this key;
/// an item in no collection is refused.
pub fn first_collection_key(item_key: &str, collections: &Vec<String>) -> (r: Result<String, String>)
    ensures
        match r {
            Ok(k) => collections@.len() > 0 && k@ == collections@[0]@,
            Err(e) => collections@.len() == 0 && e@ == "Item "@ + item_key@ + " belongs to no collection"@,
        },
{
    if collections.len() > 0 {
        return Ok(collections[0].clone());
    }
    let mut v = chars_of("Item ");
    let k = chars_of(item_key);
    extend(&mut v, k.as_slice());
    let t = chars_of(" belongs to no collection");
    extend(&mut v, t.as_slice());
    Err(string_of(v.as_slice()))
}

// ── Importable PDFs ───────────────────────────────────────────────────────

/// A top-level item as a listing gives it.
#[derive(Debug)]
pub struct TopItem {
    pub key: Option<String>,
    pub title: Option<String>,
    /// The key of the item's first collection.
    pub first_collection: Option<String>,
}

/// What an importable entry is built from, before its attachment is
/// known: item key, display title and collection path.
pub struct EntryBase {
    pub item_key: String,
    pub title: String,
    pub collection_name: Option<String>,
}

/// The collection path an item is listed under: the override when there
/// is one, otherwise the path of the item's first collection.
pub open spec fn listed_collection(
    item: TopItem,
    paths: Seq<(String, String)>,
    override_name: Option<Seq<char>>,
) -> Option<Seq<char>> {
    match override_name {
        Some(n) => Some(n),
        None => match item.first_collection {
            Some(k) => path_for(paths, k@),
            None => None,
        },
    }
}

/// The base of an importable entry; an item without a key has none.  The
/// title falls back to the key.
pub fn entry_base(item: &TopItem, paths: &Vec<(String, String)>, override_name: Option<&str>) -> (r: Option<EntryBase>)
    ensures
        match item.key {
            None => r is None,
            Some(k) => r matches Some(b) && b.item_key@ == k@ && b.title@ == (match item.title {
                Some(t) => t@,
                None => k@,
            }) && opt_string(b.collection_name) == listed_collection(
                *item,
                paths@,
                crate::summarize::opt_str(override_name),
            ),
        },
{
    let item_key = match &item.key {
        Some(k) => k.clone(),
        None => return None,
    };
    let title = match &item.title {
        Some(t) => t.clone(),
        None => item_key.clone(),
    };
    let collection_name = match override_name {
        Some(n) => Some(n.to_owned()),
        None => match &item.first_collection {
            Some(k) => lookup_path(paths, k.as_str()),
            None => None,
        },
    };
    Some(EntryBase { item_key, title, collection_name })
}

/// A child of an item as the children listing gives it.
#[derive(Debug)]
pub struct AttachmentChild {
    pub key: Option<String>,
    pub content_type: Option<String>,
    /// `filename`, set for imported files.
    pub filename: Option<String>,
    /// `path`, set for linked files (possibly `attachments:<name>`).
    pub path: Option<String>,
}

/// The child is a PDF with a key.
pub open spec fn is_pdf_child(c: AttachmentChild) -> bool {
    &&& opt_string(c.content_type) == Some("application/pdf"@)
    &&& c.key is Some
}

/// The attachment's file name: `filename`, or the last component of
/// `path` once the leading `attachments:` are removed.
pub open spec fn child_file_name(c: AttachmentChild) -> Option<Seq<char>> {
    match c.filename {
        Some(f) => Some(f@),
        None => match c.path {
            Some(p) => crate::paths::path_file_name(crate::frontmatter::trim_start_str(p@, "attachments:"@)),
            None => None,
        },
    }
}

/// The first PDF child with a key: its key and file name.
pub open spec fn first_pdf(children: Seq<AttachmentChild>) -> Option<(Seq<char>, Option<Seq<char>>)>
    decreases children.len(),
{
    if children.len() == 0 {
        None
    } else if is_pdf_child(children[0]) {
        Some((children[0].key->0@, child_file_name(children[0])))
    } else {
        first_pdf(children.drop_first())
    }
}

pub fn pdf_attachment(children: &Vec<AttachmentChild>) -> (r: Option<(String, Option<String>)>)
    ensures
        match r {
            Some((k, f)) => first_pdf(children@) == Some((k@, opt_string(f))),
            None => first_pdf(children@) is None,
        },
{
    let pdf = "application/pdf".to_owned();
    let mut i: usize = 0;
    assert(children@.skip(0) =~= children@);
    while i < children.len()
        invariant
            i <= children.len(),
            pdf@ == "application/pdf"@,
            first_pdf(children@) == first_pdf(children@.skip(i as int)),
        decreases children.len() - i,
    {
        assert(children@.skip(i as int)[0] == children@[i as int]);
        assert(children@.skip(i as int).drop_first() =~= children@.skip(i + 1));
        let c = &children[i];
        let is_pdf = match &c.content_type {
            Some(t) => *t == pdf,
            None => false,
        };
        if is_pdf {
            if let Some(k) = &c.key {
                let filename = match &c.filename {
                    Some(f) => Some(f.clone()),
                    None => match &c.path {
                        Some(p) => {
                            let pv = chars_of(p.as_str());
                            let prefix = chars_of("attachments:");
                            let t = crate::frontmatter::trim_start_str_chars(pv.as_slice(), prefix.as_slice());
                            let ts = string_of(t.as_slice());
                            crate::paths::file_name(ts.as_str())
                        },
                        None => None,
                    },
                };
                return Some((k.clone(), filename));
            }
        }
        i += 1;
    }
    None
}

/// An importable entry: the base and its PDF attachment.
pub fn pdf_entry(base: EntryBase, attachment: (String, Option<String>)) -> (r: ZoteroPdfEntry)
    ensures
        r.item_key == base.item_key,
        r.title == base.title,
        r.collection_name == base.collection_name,
        r.attachment_key == attachment.0,
        r.filename == attachment.1,
{
    ZoteroPdfEntry {
        item_key: base.item_key,
        attachment_key: attachment.0,
        title: base.title,
        filename: attachment.1,
        collection_name: base.collection_name,
    }
}

/// Law: importable entries come sorted by their lower-cased titles, each
/// once.
pub proof fn lemma_pdf_entries_sorted(entries: Seq<ZoteroPdfEntry>)
    ensures
        crate::sort::ordered_by(
            crate::sort::sorted_values(
                Seq::new(entries.len(), |i: int| (str_lowercase(entries[i].title@), entries[i])),
                false,
            ),
            false,
            |e: ZoteroPdfEntry| str_lowercase(e.title@),
        ),
{
    crate::sort::lemma_sorted_values(
        Seq::new(entries.len(), |i: int| (str_lowercase(entries[i].title@), entries[i])),
        false,
        |e: ZoteroPdfEntry| str_lowercase(e.title@),
    );
}

/// The entries sorted by their titles, lower-cased; entries with equal
/// keys keep their order.
pub fn sort_pdf_entries(entries: Vec<ZoteroPdfEntry>) -> (r: Vec<ZoteroPdfEntry>)
    ensures
        r@ == crate::sort::sort_by(
            Seq::new(entries@.len(), |i: int| (str_lowercase(entries@[i].title@), entries@[i])),
            crate::sort::text_order(false),
        ).map_values(|p: (Seq<char>, ZoteroPdfEntry)| p.1),
{
    let mut keys: Vec<Vec<char>> = Vec::new();
    let mut i: usize = 0;
    while i < entries.len()
        invariant
            i <= entries.len(),
            keys@.len() == i,
            forall|j: int| 0 <= j < i ==> (#[trigger] keys@[j])@ == str_lowercase(entries@[j].title@),
        decreases entries.len() - i,
    {
        let l = to_lowercase(entries[i].title.as_str());
        keys.push(chars_of(l.as_str()));
        i += 1;
    }
    let ghost ev = entries@;
    let r = crate::sort::sort_by_text_keys(keys, entries, false);
    proof {
        assert(Seq::new(ev.len(), |i: int| (keys@[i]@, ev[i])) =~= Seq::new(
            ev.len(),
            |i: int| (str_lowercase(ev[i].title@), ev[i]),
        ));
    }
    r
}

/// The entry of an item with a PDF attachment `(key, file name)`.
pub open spec fn entry_with(base: EntryBase, a: (String, Option<String>)) -> ZoteroPdfEntry {
    ZoteroPdfEntry {
        item_key: base.item_key,
        attachment_key: a.0,
        title: base.title,
        filename: a.1,
        collection_name: base.collection_name,
    }
}

/// The entries of the items that have a PDF attachment, in order.
pub open spec fn found_entries(found: Seq<(EntryBase, Option<(String, Option<String>)>)>) -> Seq<
    ZoteroPdfEntry,
>
    decreases found.len(),
{
    if found.len() == 0 {
        seq![]
    } else {
        let rest = found_entries(found.drop_last());
        match found.last().1 {
            Some(a) => rest.push(entry_with(found.last().0, a)),
            None => rest,
        }
    }
}

/// Entries sorted by their lower-cased titles; equal keys keep their order.
pub open spec fn by_title(es: Seq<ZoteroPdfEntry>) -> Seq<ZoteroPdfEntry> {
    crate::sort::sort_by(
        Seq::new(es.len(), |i: int| (str_lowercase(es[i].title@), es[i])),
        crate::sort::text_order(false),
    ).map_values(|p: (Seq<char>, ZoteroPdfEntry)| p.1)
}

/// The importable entries of a listing: each item with a key, paired with
/// its first PDF attachment when it has one (`None` when it has none or
/// the lookup failed), becomes an entry when it has one; the entries come
/// sorted by title.
pub fn resolved_entries(found: Vec<(EntryBase, Option<(String, Option<String>)>)>) -> (r: Vec<
    ZoteroPdfEntry,
>)
    ensures
        r@ == by_title(found_entries(found@)),
{
    let ghost fs = found@;
    let mut rest = found;
    let n = rest.len();
    let mut out: Vec<ZoteroPdfEntry> = Vec::new();
    let mut i: usize = 0;
    while rest.len() > 0
        invariant
            fs.len() == n,
            i <= fs.len(),
            rest@ == fs.skip(i as int),
            out@ == found_entries(fs.take(i as int)),
        decreases rest.len(),
    {
        assert(rest@[0] == fs[i as int]);
        let (base, pdf) = rest.remove(0);
        assert(fs.take(i + 1).drop_last() =~= fs.take(i as int));
        match pdf {
            Some(a) => {
                out.push(pdf_entry(base, a));
            },
            None => {},
        }
        proof {
            assert(rest@ =~= fs.skip(i + 1));
        }
        i += 1;
    }
    assert(fs.take(i as int) =~= fs);
    sort_pdf_entries(out)
}

/// Law: the importable entries are exactly the items with a PDF
/// attachment, each once, sorted by their lower-cased titles.
pub proof fn lemma_resolved_entries(found: Seq<(EntryBase, Option<(String, Option<String>)>)>)
    ensures
        crate::sort::ordered_by(
            by_title(found_entries(found)),
            false,
            |e: ZoteroPdfEntry| str_lowercase(e.title@),
        ),
        by_title(found_entries(found)).to_multiset() == found_entries(found).to_multiset(),
{
    let es = found_entries(found);
    let s = Seq::new(es.len(), |i: int| (str_lowercase(es[i].title@), es[i]));
    crate::sort::lemma_sorted_values(s, false, |e: ZoteroPdfEntry| str_lowercase(e.title@));
    let snd = |p: (Seq<char>, ZoteroPdfEntry)| p.1;
    crate::sort::lemma_sort_map_multiset(s, crate::sort::text_order(false), snd);
    assert(s.map_values(snd) =~= es);
}

// ── Mirroring collections into folders ───────────────────────────────────

/// `s.replace('\\', "/")`.
pub open spec fn slashed(s: Seq<char>) -> Seq<char> {
    crate::text::replace_char(s, '\\', '/')
}

/// A folder found under `content/papers/` (given relative to it) that
/// mirrors a collection: its path with `/` separators, unless it is empty,
/// hidden at the top level, or under the top-level `unclassified`.
pub open spec fn wiki_folder(rel: Seq<char>) -> Option<Seq<char>> {
    let s = slashed(rel);
    let top = crate::content::top_segment(s);
    if s.len() == 0 || starts_with(top, "."@) || eq_ignore_ascii(top, "unclassified"@) {
        None
    } else {
        Some(s)
    }
}

/// The top-level segment of a path.
fn top_segment_of(s: &[char]) -> (r: Vec<char>)
    ensures
        r@ == crate::content::top_segment(s@),
{
    let slash = chars_of("/");
    match crate::text::find_chars(s, slash.as_slice()) {
        Some(i) => {
            proof {
                crate::text::lemma_find_from(s@, slash@, 0);
            }
            let t = slice_chars(s, 0, i);
            assert(t@ =~= s@.take(i as int));
            t
        },
        None => slice_chars(s, 0, s.len()),
    }
}

pub fn wiki_folder_path(rel: &str) -> (r: Option<String>)
    ensures
        opt_string(r) == wiki_folder(rel@),
{
    let v = chars_of(rel);
    let s = crate::text::replace_chars(v.as_slice(), '\\', '/');
    if s.len() == 0 {
        return None;
    }
    let top = top_segment_of(s.as_slice());
    let dot = chars_of(".");
    let ts = string_of(top.as_slice());
    if crate::text::has_prefix(top.as_slice(), dot.as_slice()) || eq_ignore_ascii_case(
        ts.as_str(),
        "unclassified",
    ) {
        return None;
    }
    Some(string_of(s.as_slice()))
}

/// Whether a collection path is kept for mirroring: its top-level segment
/// is not `unclassified` (ASCII case ignored).
pub open spec fn mirrored(path: Seq<char>) -> bool {
    !eq_ignore_ascii(crate::content::top_segment(path), "unclassified"@)
}

pub fn is_mirrored(path: &str) -> (b: bool)
    ensures
        b == mirrored(path@),
{
    let v = chars_of(path);
    let top = top_segment_of(v.as_slice());
    let ts = string_of(top.as_slice());
    !eq_ignore_ascii_case(ts.as_str(), "unclassified")
}

/// How many `/` a path holds.
pub open spec fn slash_count(s: Seq<char>) -> nat
    decreases s.len(),
{
    if s.len() == 0 {
        0
    } else {
        slash_count(s.drop_last()) + (if s.last() == '/' {
            1nat
        } else {
            0nat
        })
    }
}

fn count_slashes(s: &[char]) -> (n: usize)
    ensures
        n == slash_count(s@),
{
    let mut n: usize = 0;
    let mut i: usize = 0;
    while i < s.len()
        invariant
            i <= s.len(),
            n == slash_count(s@.take(i as int)),
            n <= i,
        decreases s.len() - i,
    {
        assert(s@.take(i + 1).drop_last() =~= s@.take(i as int));
        if s[i] == '/' {
            n += 1;
        }
        i += 1;
    }
    assert(s@.take(s.len() as int) =~= s@);
    n
}

/// Shallower paths first, then by text.
pub open spec fn folder_order() -> spec_fn(Seq<char>, Seq<char>) -> bool {
    |a: Seq<char>, b: Seq<char>|
        slash_count(a) < slash_count(b) || (slash_count(a) == slash_count(b)
            && crate::sort::text_le(a, b))
}

/// The collection paths the wiki lacks, each once, in the order they first
/// occur.
pub open spec fn missing_folders(zotero: Seq<Seq<char>>, wiki: Seq<Seq<char>>) -> Seq<Seq<char>>
    decreases zotero.len(),
{
    if zotero.len() == 0 {
        seq![]
    } else {
        let rest = missing_folders(zotero.drop_last(), wiki);
        let p = zotero.last();
        if wiki.contains(p) || rest.contains(p) {
            rest
        } else {
            rest.push(p)
        }
    }
}

proof fn lemma_missing_members(zotero: Seq<Seq<char>>, wiki: Seq<Seq<char>>)
    ensures
        forall|p: Seq<char>| #[trigger] missing_folders(zotero, wiki).contains(p) ==> zotero.contains(p)
            && !wiki.contains(p),
    decreases zotero.len(),
{
    if zotero.len() > 0 {
        let init = zotero.drop_last();
        lemma_missing_members(init, wiki);
        assert forall|p: Seq<char>| #[trigger] missing_folders(zotero, wiki).contains(p) implies zotero.contains(p)
            && !wiki.contains(p) by {
            let rest = missing_folders(init, wiki);
            if rest.contains(p) {
                let k = choose|k: int| 0 <= k < init.len() && init[k] == p;
                assert(zotero[k] == p);
            } else {
                assert(missing_folders(zotero, wiki) == rest.push(zotero.last()));
                let k = choose|k: int| 0 <= k < rest.len() + 1 && rest.push(zotero.last())[k] == p;
                assert(p == zotero.last());
                assert(zotero[zotero.len() - 1] == p);
            }
        }
    }
}

/// Law: the folders to create come shallower paths first (then by text),
/// and each is a Zotero collection path the wiki lacks.
pub proof fn lemma_folders_order(zotero: Seq<Seq<char>>, wiki: Seq<Seq<char>>)
    ensures
        crate::sort::sorted_by(crate::sort::sort_by(missing_folders(zotero, wiki), folder_order()), folder_order()),
        forall|p: Seq<char>|
            #[trigger] crate::sort::sort_by(missing_folders(zotero, wiki), folder_order()).contains(p)
                ==> zotero.contains(p) && !wiki.contains(p),
{
    let le = folder_order();
    assert forall|a: Seq<char>, b: Seq<char>| #[trigger] le(a, b) || le(b, a) by {
        crate::sort::lemma_text_total(a, b);
    }
    assert forall|a: Seq<char>, b: Seq<char>, c: Seq<char>| #[trigger] le(a, b) && #[trigger] le(b, c)
        implies le(a, c) by {
        if slash_count(a) == slash_count(b) && slash_count(b) == slash_count(c) {
            crate::sort::lemma_text_trans(a, b, c);
        }
    }
    crate::sort::lemma_sort_by(missing_folders(zotero, wiki), le);
    crate::sort::lemma_sort_contains(missing_folders(zotero, wiki), le);
    lemma_missing_members(zotero, wiki);
    assert forall|p: Seq<char>|
        #[trigger] crate::sort::sort_by(missing_folders(zotero, wiki), folder_order()).contains(p)
        implies zotero.contains(p) && !wiki.contains(p) by {
        assert(missing_folders(zotero, wiki).contains(p));
    }
}

/// The folders to create: the mirrored collection paths that the wiki
/// lacks, each once, shallower paths first.
pub fn folders_to_create(zotero: &Vec<String>, wiki: &Vec<String>) -> (r: Vec<String>)
    ensures
        crate::gemini::string_views(r@) == crate::sort::sort_by(
            missing_folders(crate::gemini::string_views(zotero@), crate::gemini::string_views(wiki@)),
            folder_order(),
        ),
{
    let ghost zv = crate::gemini::string_views(zotero@);
    let ghost wv = crate::gemini::string_views(wiki@);
    let mut fresh: Vec<String> = Vec::new();
    let mut i: usize = 0;
    while i < zotero.len()
        invariant
            i <= zotero.len(),
            zv == crate::gemini::string_views(zotero@),
            wv == crate::gemini::string_views(wiki@),
            crate::gemini::string_views(fresh@) == missing_folders(zv.take(i as int), wv),
        decreases zotero.len() - i,
    {
        let ghost fv = crate::gemini::string_views(fresh@);
        proof {
            assert(zv.take(i + 1).drop_last() =~= zv.take(i as int));
            assert(zv.take(i + 1).last() == zotero@[i as int]@);
        }
        let p = &zotero[i];
        let skip = contains_string(wiki, p) || contains_string(&fresh, p);
        if !skip {
            fresh.push(p.clone());
            assert(crate::gemini::string_views(fresh@) =~= fv.push(p@));
        }
        i += 1;
    }
    assert(zv.take(zotero.len() as int) =~= zv);
    let ghost fv = crate::gemini::string_views(fresh@);
    let mut pairs: Vec<(crate::sort::Lex<u64, Vec<char>>, String)> = Vec::new();
    let mut j: usize = 0;
    while j < fresh.len()
        invariant
            j <= fresh.len(),
            fv == crate::gemini::string_views(fresh@),
            pairs@.len() == j,
            forall|m: int|
                0 <= m < j ==> (#[trigger] pairs@[m]).0.0 == slash_count(fresh@[m]@) && pairs@[m].0.1@
                    == fresh@[m]@ && pairs@[m].1 == fresh@[m],
        decreases fresh.len() - j,
    {
        let c = chars_of(fresh[j].as_str());
        let n = count_slashes(c.as_slice());
        pairs.push((crate::sort::Lex(n as u64, c), fresh[j].clone()));
        j += 1;
    }
    let ghost pv = pairs@;
    let sorted = crate::sort::sort_pairs(pairs);
    let out = crate::sort::seconds(sorted);
    proof {
        let g = |p: (crate::sort::Lex<u64, Vec<char>>, String)| p.1;
        let h = |x: String| x@;
        let le1 = |a: String, b: String| (folder_order())(a@, b@);
        assert forall|a: int, b: int|
            0 <= a < pv.len() && 0 <= b < pv.len() implies (#[trigger] pv[a]).0.key_le(
            (#[trigger] pv[b]).0,
        ) == le1(pv[a].1, pv[b].1) by {
        }
        crate::sort::lemma_sort_values(pv, le1);
        assert(pv.map_values(g) =~= fresh@);
        crate::sort::lemma_sort_map(fresh@, h, le1, folder_order());
        assert(fresh@.map_values(h) =~= fv);
        assert(crate::gemini::string_views(out@) =~= crate::sort::sort_by(pv, crate::sort::key_order::<crate::sort::Lex<u64, Vec<char>>, String>()).map_values(g).map_values(h));
    }
    out
}

fn contains_string(v: &Vec<String>, x: &String) -> (b: bool)
    ensures
        b == crate::gemini::string_views(v@).contains(x@),
{
    let ghost sv = crate::gemini::string_views(v@);
    let mut i: usize = 0;
    while i < v.len()
        invariant
            i <= v.len(),
            sv == crate::gemini::string_views(v@),
            forall|j: int| 0 <= j < i ==> sv[j] != x@,
        decreases v.len() - i,
    {
        if v[i] == *x {
            assert(sv[i as int] == x@);
            return true;
        }
        i += 1;
    }
    proof {
        if sv.contains(x@) {
            let j = choose|j: int| 0 <= j < sv.len() && sv[j] == x@;
        }
    }
    false
}

/// The refusal when Zotero lists no collections.
pub const NO_COLLECTIONS: &'static str = "Zotero에서 컬렉션 목록을 가져올 수 없습니다. Zotero가 실행 중인지, 그리고 \"Allow other applications…\" 설정이 켜져 있는지 확인하세요.";

/// The collection paths to mirror: those not under a top-level
/// `unclassified`; refused when Zotero listed no collection at all.
pub fn mirrored_paths(paths: &Vec<(String, String)>) -> (r: Result<Vec<String>, String>)
    ensures
        match r {
            Ok(v) => paths@.len() > 0 && crate::gemini::string_views(v@) == paths@.map_values(
                |p: (String, String)| p.1@,
            ).filter(|x: Seq<char>| mirrored(x)),
            Err(e) => paths@.len() == 0 && e@ == NO_COLLECTIONS@,
        },
{
    if paths.len() == 0 {
        return Err(NO_COLLECTIONS.to_owned());
    }
    let ghost all = paths@.map_values(|p: (String, String)| p.1@);
    let mut out: Vec<String> = Vec::new();
    let mut i: usize = 0;
    while i < paths.len()
        invariant
            i <= paths.len(),
            all == paths@.map_values(|p: (String, String)| p.1@),
            crate::gemini::string_views(out@) == all.take(i as int).filter(|x: Seq<char>| mirrored(x)),
        decreases paths.len() - i,
    {
        let ghost prev = crate::gemini::string_views(out@);
        proof {
            assert(all.take(i + 1) =~= all.take(i as int).push(paths@[i as int].1@));
            all.take(i as int).lemma_filter_push(paths@[i as int].1@, |x: Seq<char>| mirrored(x));
        }
        if is_mirrored(paths[i].1.as_str()) {
            out.push(paths[i].1.clone());
            assert(crate::gemini::string_views(out@) =~= prev.push(paths@[i as int].1@));
        }
        i += 1;
    }
    assert(all.take(paths.len() as int) =~= all);
    Ok(out)
}

/// `Cannot create folder "<path>": <reason>`.
pub fn folder_error(path: &str, reason: &str) -> (r: String)
    ensures
        r@ == "Cannot create folder \""@ + path@ + "\": "@ + reason@,
{
    let mut v = chars_of("Cannot create folder \"");
    let p = chars_of(path);
    extend(&mut v, p.as_slice());
    let m = chars_of("\": ");
    extend(&mut v, m.as_slice());
    let e = chars_of(reason);
    extend(&mut v, e.as_slice());
    string_of(v.as_slice())
}

// ── Attachments ───────────────────────────────────────────────────────────

/// The largest attachment that is downloaded, in bytes.
pub const MAX_ATTACHMENT_BYTES: u64 = 52428800;

/// Refuses an attachment whose announced length is over the cap.
pub fn attachment_size_check(len: Option<u64>) -> (r: Result<(), String>)
    ensures
        match len {
            Some(n) if n > MAX_ATTACHMENT_BYTES => r matches Err(e) && e@ == "Attachment is "@
                + decimal((n / 1048576) as nat) + " MB; LLM-Wiki caps single-PDF imports at 50 MB."@,
            _ => r is Ok,
        },
{
    match len {
        Some(n) => {
            if n > MAX_ATTACHMENT_BYTES {
                let mut v = chars_of("Attachment is ");
                let d = decimal_chars(n / 1048576);
                extend(&mut v, d.as_slice());
                let t = chars_of(" MB; LLM-Wiki caps single-PDF imports at 50 MB.");
                extend(&mut v, t.as_slice());
                return Err(string_of(v.as_slice()));
            }
            Ok(())
        },
        None => Ok(()),
    }
}

// ── Waiting for ZotMoov ───────────────────────────────────────────────────

/// The first poll interval, in milliseconds.
pub const FIRST_INTERVAL_MS: u64 = 100;

/// The longest poll interval, in milliseconds.
pub const MAX_INTERVAL_MS: u64 = 500;

/// The interval after `ms`: doubled, at most `MAX_INTERVAL_MS`; an interval
/// already at the cap or above stays.
pub open spec fn next_interval_spec(ms: u64) -> u64 {
    if ms < MAX_INTERVAL_MS {
        if ms * 2 < MAX_INTERVAL_MS {
            (ms * 2) as u64
        } else {
            MAX_INTERVAL_MS
        }
    } else {
        ms
    }
}

pub fn next_interval(ms: u64) -> (r: u64)
    ensures
        r == next_interval_spec(ms),
{
    if ms < MAX_INTERVAL_MS {
        if ms * 2 < MAX_INTERVAL_MS {
            ms * 2
        } else {
            MAX_INTERVAL_MS
        }
    } else {
        ms
    }
}

/// The back-off never shrinks an interval and never passes the cap, and
/// from the first interval it runs 100, 200, 400, 500, 500, ...
pub proof fn lemma_backoff(ms: u64)
    requires
        FIRST_INTERVAL_MS <= ms <= MAX_INTERVAL_MS,
    ensures
        ms <= next_interval_spec(ms) <= MAX_INTERVAL_MS,
        next_interval_spec(FIRST_INTERVAL_MS) == 200,
        next_interval_spec(200) == 400,
        next_interval_spec(400) == MAX_INTERVAL_MS,
        next_interval_spec(MAX_INTERVAL_MS) == MAX_INTERVAL_MS,
{
}

/// What one round of the wait does.
#[derive(Debug)]
pub enum ZotmoovStep {
    /// The file is there.
    Arrived,
    /// The deadline passed first: the message to report.
    TimedOut(String),
    /// Sleep this many milliseconds, then poll again with the next interval.
    Sleep { ms: u64, next_interval_ms: u64 },
}

/// `Timeout after <secs>s: "<path>" did not appear`.
pub open spec fn zotmoov_timeout_text(timeout_secs: u64, path: Seq<char>) -> Seq<char> {
    "Timeout after "@ + decimal(timeout_secs as nat) + "s: \""@ + path + "\" did not appear"@
}

/// One round of waiting for ZotMoov to move a file: done when the file
/// exists, timed out when no time is left, otherwise a sleep no longer
/// than the time left.
pub fn zotmoov_step(
    exists: bool,
    remaining_ms: u64,
    interval_ms: u64,
    path: &str,
    timeout_secs: u64,
) -> (r: ZotmoovStep)
    ensures
        exists ==> r is Arrived,
        !exists && remaining_ms == 0 ==> (r matches ZotmoovStep::TimedOut(m) && m@
            == zotmoov_timeout_text(timeout_secs, path@)),
        !exists && remaining_ms > 0 ==> (r matches ZotmoovStep::Sleep { ms, next_interval_ms } && ms
            == (if interval_ms < remaining_ms {
            interval_ms
        } else {
            remaining_ms
        }) && next_interval_ms == next_interval_spec(interval_ms)),
{
    if exists {
        return ZotmoovStep::Arrived;
    }
    if remaining_ms == 0 {
        let mut v = chars_of("Timeout after ");
        let d = decimal_chars(timeout_secs);
        extend(&mut v, d.as_slice());
        let m = chars_of("s: \"");
        extend(&mut v, m.as_slice());
        let p = chars_of(path);
        extend(&mut v, p.as_slice());
        let t = chars_of("\" did not appear");
        extend(&mut v, t.as_slice());
        return ZotmoovStep::TimedOut(string_of(v.as_slice()));
    }
    let ms = if interval_ms < remaining_ms {
        interval_ms
    } else {
        remaining_ms
    };
    ZotmoovStep::Sleep { ms, next_interval_ms: next_interval(interval_ms) }
}

// ── Finding the organiser's item ──────────────────────────────────────────

/// What the organiser knows to find a paper's Zotero item.
#[derive(Debug, Clone)]
pub struct OrganizerPaperHints {
    pub zotero_key: Option<String>,
    pub doi: Option<String>,
    pub title: String,
}

/// Which lookup an attempt makes.
#[derive(Debug, Clone, Copy, PartialEq, Eq, Structural)]
pub enum LookupBy {
    Key,
    Doi,
    Title,
}

/// One lookup, with the query and the label that reports how the item was
/// found.
#[derive(Debug)]
pub struct LookupAttempt {
    pub by: LookupBy,
    pub query: String,
    pub label: String,
}

pub open spec fn attempt_view(a: LookupAttempt) -> (LookupBy, Seq<char>, Seq<char>) {
    (a.by, a.query@, a.label@)
}

/// The lookups in the order they are tried, each only when the ones
/// before it failed: the item key, then the DOI, then the title (after a
/// failed DOI, or when there is no DOI).  Empty hints are skipped.
pub open spec fn lookup_plan_spec(zk: Option<Seq<char>>, doi: Option<Seq<char>>, title: Seq<char>) -> Seq<(LookupBy, Seq<char>, Seq<char>)> {
    let by_key = match zk {
        Some(k) if k.len() > 0 => seq![(LookupBy::Key, k, "zotero_key "@ + k)],
        _ => seq![],
    };
    let rest = match doi {
        Some(d) if d.len() > 0 => seq![(LookupBy::Doi, d, "DOI "@ + d)] + (if title.len() > 0 {
            seq![(LookupBy::Title, title, "title fallback (DOI "@ + d + " not found)"@)]
        } else {
            seq![]
        }),
        _ => if title.len() > 0 {
            seq![(LookupBy::Title, title, "title (no DOI in frontmatter)"@)]
        } else {
            seq![]
        },
    };
    by_key + rest
}

fn concat3(a: &str, b: &str, c: &str) -> (r: String)
    ensures
        r@ == a@ + b@ + c@,
{
    let mut v = chars_of(a);
    let x = chars_of(b);
    extend(&mut v, x.as_slice());
    let y = chars_of(c);
    extend(&mut v, y.as_slice());
    string_of(v.as_slice())
}

/// The lookups to try for the organiser, in order; the first that finds
/// an item wins.
pub fn lookup_plan(h: &OrganizerPaperHints) -> (r: Vec<LookupAttempt>)
    ensures
        r@.map_values(|a: LookupAttempt| attempt_view(a)) == lookup_plan_spec(
            opt_string(h.zotero_key),
            opt_string(h.doi),
            h.title@,
        ),
{
    let mut r: Vec<LookupAttempt> = Vec::new();
    proof {
        reveal_strlit("");
    }
    match &h.zotero_key {
        Some(k) => {
            if !k.as_str().is_empty() {
                r.push(
                    LookupAttempt {
                        by: LookupBy::Key,
                        query: k.clone(),
                        label: concat3("zotero_key ", k.as_str(), ""),
                    },
                );
            }
        },
        None => {},
    }
    let ghost first = r@.map_values(|a: LookupAttempt| attempt_view(a));
    let title_nonempty = !h.title.as_str().is_empty();
    match &h.doi {
        Some(d) if !d.as_str().is_empty() => {
            r.push(LookupAttempt { by: LookupBy::Doi, query: d.clone(), label: concat3("DOI ", d.as_str(), "") });
            if title_nonempty {
                r.push(
                    LookupAttempt {
                        by: LookupBy::Title,
                        query: h.title.clone(),
                        label: concat3("title fallback (DOI ", d.as_str(), " not found)"),
                    },
                );
            }
        },
        _ => {
            if title_nonempty {
                r.push(
                    LookupAttempt {
                        by: LookupBy::Title,
                        query: h.title.clone(),
                        label: "title (no DOI in frontmatter)".to_owned(),
                    },
                );
            }
        },
    }
    proof {
        let spec = lookup_plan_spec(opt_string(h.zotero_key), opt_string(h.doi), h.title@);
        let got = r@.map_values(|a: LookupAttempt| attempt_view(a));
        assert(got =~= spec);
    }
    r
}

} // verus!

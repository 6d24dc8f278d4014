//! Pending Zotero sync queue.
//!
//! When Zotero is offline during the organiser pipeline, the collection
//! update is kept in a durable queue (`content/meta/pending-zotero-sync.json`)
//! and replayed when Zotero comes back.  This module holds the queue's
//! rules: an item key is queued at most once, removal drops every entry
//! with the key, and a replay keeps exactly the items that failed, in
//! order.  Reading and writing the file is the caller's.
use vstd::prelude::*;

use crate::clock::now_rfc3339;
use crate::frontmatter::{first_nonempty_keyed, first_nonempty_keyed_of, simple_yaml_lines, simple_yaml_lines_of};
use crate::text::{chars_eq, chars_of, extend, starts_with, string_of, strip_prefix, strip_prefix_chars};

verus! {

/// One item waiting for its Zotero collection to be updated.
#[derive(Debug, Clone)]
pub struct PendingSyncItem {
    /// Path of the paper's markdown file.
    pub paper_file: String,
    /// Zotero item key (8 upper-case alphanumerics), or a placeholder
    /// `doi:<doi>` / `file:<name>` when the key was not known.
    pub zotero_item_key: String,
    /// Target collection name, the wiki folder name.
    pub target_collection: String,
    /// RFC 3339 time the item was queued.
    pub queued_at: String,
}

impl PendingSyncItem {
    /// A copy of the item.
    pub fn copy(&self) -> (r: Self)
        ensures
            r == *self,
    {
        PendingSyncItem {
            paper_file: self.paper_file.clone(),
            zotero_item_key: self.zotero_item_key.clone(),
            target_collection: self.target_collection.clone(),
            queued_at: self.queued_at.clone(),
        }
    }
}

/// Summary of a replay.
#[derive(Debug, Clone)]
pub struct SyncResult {
    /// Items synced in this run.
    pub synced: u32,
    /// Items that failed and stay queued.
    pub failed: u32,
    /// Items left in the queue (equals `failed` after a full run).
    pub remaining: u32,
    /// One message per failed item.
    pub errors: Vec<String>,
}

/// The queue: the root object of `pending-zotero-sync.json`.
#[derive(Debug, Clone)]
pub struct PendingSyncQueue {
    pub items: Vec<PendingSyncItem>,
}

pub open spec fn keys_of(items: Seq<PendingSyncItem>) -> Seq<Seq<char>> {
    items.map_values(|i: PendingSyncItem| i.zotero_item_key@)
}

/// No item key occurs twice.
pub open spec fn keys_distinct(items: Seq<PendingSyncItem>) -> bool {
    forall|i: int, j: int|
        0 <= i < j < items.len() ==> (#[trigger] items[i]).zotero_item_key@ != (
        #[trigger] items[j]).zotero_item_key@
}

pub open spec fn has_key(items: Seq<PendingSyncItem>, key: Seq<char>) -> bool {
    exists|i: int| 0 <= i < items.len() && (#[trigger] items[i]).zotero_item_key@ == key
}

/// The queue without the items carrying `key`.
pub open spec fn without_key(items: Seq<PendingSyncItem>, key: Seq<char>) -> Seq<PendingSyncItem> {
    items.filter(keep_unless(key))
}

/// Keeps the items whose key is not `key`.
pub open spec fn keep_unless(key: Seq<char>) -> spec_fn(PendingSyncItem) -> bool {
    |i: PendingSyncItem| i.zotero_item_key@ != key
}

impl PendingSyncQueue {
    /// An empty queue (what a missing queue file holds).
    pub fn empty() -> (q: Self)
        ensures
            q.items@.len() == 0,
    {
        PendingSyncQueue { items: Vec::new() }
    }

    /// Whether an item with `key` is queued.
    pub fn contains_key(&self, key: &str) -> (b: bool)
        ensures
            b == has_key(self.items@, key@),
    {
        let k = chars_of(key);
        let mut i: usize = 0;
        while i < self.items.len()
            invariant
                i <= self.items.len(),
                k@ == key@,
                forall|j: int| 0 <= j < i ==> (#[trigger] self.items@[j]).zotero_item_key@ != key@,
            decreases self.items.len() - i,
        {
            let c = chars_of(self.items[i].zotero_item_key.as_str());
            if chars_eq(c.as_slice(), k.as_slice()) {
                return true;
            }
            i += 1;
        }
        false
    }

    /// Queue an item; a key already queued is left as it is, so the call
    /// is idempotent.  Returns whether the item was added.
    pub fn enqueue(
        &mut self,
        paper_file: String,
        zotero_item_key: String,
        target_collection: String,
    ) -> (added: bool)
        ensures
            added == !has_key(old(self).items@, zotero_item_key@),
            !added ==> final(self).items@ == old(self).items@,
            added ==> final(self).items@.len() == old(self).items@.len() + 1,
            added ==> final(self).items@.drop_last() == old(self).items@,
            added ==> final(self).items@.last().paper_file == paper_file,
            added ==> final(self).items@.last().zotero_item_key == zotero_item_key,
            added ==> final(self).items@.last().target_collection == target_collection,
    {
        if self.contains_key(zotero_item_key.as_str()) {
            return false;
        }
        let item = PendingSyncItem {
            paper_file,
            zotero_item_key,
            target_collection,
            queued_at: now_rfc3339(),
        };
        self.items.push(item);
        assert(self.items@.drop_last() =~= old(self).items@);
        true
    }

    /// Remove every item with `key`; a key not queued leaves the queue as
    /// it is.
    pub fn remove_key(&mut self, key: &str)
        ensures
            final(self).items@ == without_key(old(self).items@, key@),
    {
        let k = chars_of(key);
        let ghost old_items = self.items@;
        let mut kept: Vec<PendingSyncItem> = Vec::new();
        let mut rest = Vec::new();
        std::mem::swap(&mut rest, &mut self.items);
        let ghost all = rest@;
        while rest.len() > 0
            invariant
                all == old_items,
                k@ == key@,
                rest@.len() <= all.len(),
                rest@ == all.skip(all.len() - rest@.len()),
                kept@ == without_key(all.take(all.len() - rest@.len()), key@),
            decreases rest@.len(),
        {
            let ghost n = all.len() - rest@.len();
            let item = rest.remove(0);
            proof {
                assert(item == all[n]);
                assert(all.take(n + 1) =~= all.take(n).push(item));
                all.take(n).lemma_filter_push(item, keep_unless(key@));
                assert(rest@ =~= all.skip(n + 1));
            }
            let c = chars_of(item.zotero_item_key.as_str());
            if !chars_eq(c.as_slice(), k.as_slice()) {
                kept.push(item);
            }
        }
        assert(all.take(all.len() as int) =~= all);
        self.items = kept;
    }

    /// `true` if at least one item waits.
    pub fn has_pending(&self) -> (b: bool)
        ensures
            b == (self.items@.len() > 0),
    {
        self.items.len() > 0
    }
}

/// Law: once an item with `key` is queued, the queue has `key`, so by
/// `enqueue`'s contract a second call with the same key returns `false`
/// and leaves the queue as it is: queueing twice leaves one entry.
pub proof fn lemma_enqueue_idempotent(items: Seq<PendingSyncItem>, key: Seq<char>, added: PendingSyncItem)
    requires
        added.zotero_item_key@ == key,
    ensures
        has_key(items.push(added), key),
{
    assert(items.push(added)[items.len() as int] == added);
}

/// Law: queueing only adds keys not already present, so the queue never
/// holds a key twice.
pub proof fn lemma_enqueue_keeps_distinct(items: Seq<PendingSyncItem>, added: PendingSyncItem)
    requires
        keys_distinct(items),
        !has_key(items, added.zotero_item_key@),
    ensures
        keys_distinct(items.push(added)),
{
    let r = items.push(added);
    assert forall|i: int, j: int| 0 <= i < j < r.len() implies (#[trigger] r[i]).zotero_item_key@
        != (#[trigger] r[j]).zotero_item_key@ by {
        if j == items.len() {
            assert(r[i] == items[i]);
        } else {
            assert(r[i] == items[i] && r[j] == items[j]);
        }
    }
}

/// Law: after removing a key, no item carries it, and every other item
/// stays, in order.
pub proof fn lemma_remove_key(items: Seq<PendingSyncItem>, key: Seq<char>)
    ensures
        !has_key(without_key(items, key), key),
        forall|k: Seq<char>| k != key ==> (has_key(without_key(items, key), k) <==> has_key(items, k)),
        !has_key(items, key) ==> without_key(items, key) == items,
{
    let pred = keep_unless(key);
    let r = items.filter(pred);
    items.filter_lemma(pred);
    assert forall|k: Seq<char>| k != key implies (has_key(r, k) <==> has_key(items, k)) by {
        if has_key(items, k) {
            let i = choose|i: int| 0 <= i < items.len() && (#[trigger] items[i]).zotero_item_key@ == k;
            assert(pred(items[i]));
            assert(r.contains(items[i]));
            let j = choose|j: int| 0 <= j < r.len() && r[j] == items[i];
            assert(r[j].zotero_item_key@ == k);
        }
        if has_key(r, k) {
            let j = choose|j: int| 0 <= j < r.len() && (#[trigger] r[j]).zotero_item_key@ == k;
            assert(r.contains(r[j]));
            items.lemma_filter_contains_rev(pred, r[j]);
            assert(items.contains(r[j]));
            let i = choose|i: int| 0 <= i < items.len() && items[i] == r[j];
            assert(items[i].zotero_item_key@ == k);
        }
    }
    if !has_key(items, key) {
        assert forall|i: int| 0 <= i < items.len() implies pred(#[trigger] items[i]) by {}
        lemma_filter_all(items, pred);
    }
}

proof fn lemma_filter_all(s: Seq<PendingSyncItem>, pred: spec_fn(PendingSyncItem) -> bool)
    requires
        forall|i: int| 0 <= i < s.len() ==> pred(#[trigger] s[i]),
    ensures
        s.filter(pred) == s,
    decreases s.len(),
{
    reveal(Seq::filter);
    if s.len() > 0 {
        let p = s.drop_last();
        assert forall|i: int| 0 <= i < p.len() implies pred(#[trigger] p[i]) by {
            assert(p[i] == s[i]);
        }
        lemma_filter_all(p, pred);
        assert(pred(s[s.len() - 1]));
        assert(p.push(s.last()) =~= s);
    }
}

// ── Key resolution ─────────────────────────────────────────────────────────

/// A real Zotero key: exactly 8 characters, each an upper-case ASCII letter
/// or a digit.
pub open spec fn real_key(k: Seq<char>) -> bool {
    k.len() == 8 && forall|i: int| 0 <= i < 8 ==> ('A' <= #[trigger] k[i] <= 'Z') || ('0' <= k[i]
        <= '9')
}

/// How a queued key is turned into a real Zotero key.
#[derive(Debug, Clone)]
pub enum KeyResolution {
    /// The key is already a real key.
    Ready(String),
    /// `doi:<doi>`: look the item up by DOI.
    ByDoi(String),
    /// `file:<name>`: read the paper file's title and look the item up by
    /// title.
    ByTitle,
    /// Any other form: passed on unchanged for Zotero to accept or reject.
    PassThrough(String),
}

pub open spec fn resolution_of(key: Seq<char>) -> (u8, Seq<char>) {
    if real_key(key) {
        (0, key)
    } else if starts_with(key, "doi:"@) {
        (1, key.skip("doi:"@.len() as int))
    } else if starts_with(key, "file:"@) {
        (2, seq![])
    } else {
        (3, key)
    }
}

pub open spec fn resolution_view(r: KeyResolution) -> (u8, Seq<char>) {
    match r {
        KeyResolution::Ready(k) => (0, k@),
        KeyResolution::ByDoi(d) => (1, d@),
        KeyResolution::ByTitle => (2, seq![]),
        KeyResolution::PassThrough(k) => (3, k@),
    }
}

/// Decide how to resolve a queued key.
pub fn key_resolution(key: &str) -> (r: KeyResolution)
    ensures
        resolution_view(r) == resolution_of(key@),
{
    let k = chars_of(key);
    let mut is_real = k.len() == 8;
    let mut i: usize = 0;
    while is_real && i < k.len()
        invariant
            i <= k.len(),
            k@ == key@,
            is_real ==> k.len() == 8,
            is_real ==> forall|j: int| 0 <= j < i ==> ('A' <= #[trigger] k@[j] <= 'Z') || ('0' <= k@[j]
                <= '9'),
            !is_real ==> !real_key(key@),
        decreases k.len() - i,
    {
        let c = k[i];
        if !(('A' <= c && c <= 'Z') || ('0' <= c && c <= '9')) {
            is_real = false;
        }
        i += 1;
    }
    if is_real {
        return KeyResolution::Ready(key.to_owned());
    }
    let doi = chars_of("doi:");
    match strip_prefix_chars(k.as_slice(), doi.as_slice()) {
        Some(rest) => {
            return KeyResolution::ByDoi(string_of(rest.as_slice()));
        },
        None => {},
    }
    let file = chars_of("file:");
    if crate::text::has_prefix(k.as_slice(), file.as_slice()) {
        KeyResolution::ByTitle
    } else {
        KeyResolution::PassThrough(key.to_owned())
    }
}

/// The `title:` value of a paper's frontmatter: the first non-empty one.
pub open spec fn frontmatter_title(content: Seq<char>) -> Option<Seq<char>> {
    first_nonempty_keyed(simple_yaml_lines(content), "title:"@)
}

/// Extract the `title:` value from a YAML frontmatter block; `None` when
/// there is no block or no non-empty title in it.
pub fn extract_title_from_frontmatter(content: &str) -> (r: Option<String>)
    ensures
        crate::clock::opt_string_view(r) == frontmatter_title(content@),
{
    let c = chars_of(content);
    let ls = simple_yaml_lines_of(c.as_slice());
    let key = chars_of("title:");
    match first_nonempty_keyed_of(&ls, key.as_slice()) {
        Some(v) => Some(string_of(v.as_slice())),
        None => None,
    }
}

fn concat(parts: &[&str]) -> (r: String)
    ensures
        r@ == join_all(parts@.map_values(|p: &str| p@)),
{
    let mut v: Vec<char> = Vec::new();
    let mut i: usize = 0;
    while i < parts.len()
        invariant
            i <= parts.len(),
            v@ == join_all(parts@.map_values(|p: &str| p@).take(i as int)),
        decreases parts.len() - i,
    {
        let c = chars_of(parts[i]);
        extend(&mut v, c.as_slice());
        proof {
            let ps = parts@.map_values(|p: &str| p@);
            assert(ps.take(i + 1).drop_last() =~= ps.take(i as int));
        }
        i += 1;
    }
    assert(parts@.map_values(|p: &str| p@).take(parts.len() as int) =~= parts@.map_values(
        |p: &str| p@,
    ));
    string_of(v.as_slice())
}

/// The concatenation of the pieces.
pub open spec fn join_all(ps: Seq<Seq<char>>) -> Seq<char>
    decreases ps.len(),
{
    if ps.len() == 0 {
        seq![]
    } else {
        join_all(ps.drop_last()) + ps.last()
    }
}

/// Error of a DOI lookup: `DOI lookup for "<doi>": <e>`.
pub fn doi_lookup_error(doi: &str, e: &str) -> (r: String)
    ensures
        r@ == "DOI lookup for \""@ + doi@ + "\": "@ + e@,
{
    let r = concat(&["DOI lookup for \"", doi, "\": ", e]);
    proof {
        reveal_with_fuel(join_all, 5);
        assert(r@ =~= "DOI lookup for \""@ + doi@ + "\": "@ + e@);
    }
    r
}

/// Error of a title lookup: `Title lookup for "<title>": <e>`.
pub fn title_lookup_error(title: &str, e: &str) -> (r: String)
    ensures
        r@ == "Title lookup for \""@ + title@ + "\": "@ + e@,
{
    let r = concat(&["Title lookup for \"", title, "\": ", e]);
    proof {
        reveal_with_fuel(join_all, 5);
        assert(r@ =~= "Title lookup for \""@ + title@ + "\": "@ + e@);
    }
    r
}

/// Error when a `file:` key's paper has no title to look up.
pub fn no_title_error(key: &str) -> (r: String)
    ensures
        r@ == "Cannot resolve Zotero item for placeholder key \""@ + key@
            + "\": paper file has no parseable title in frontmatter"@,
{
    let r = concat(
        &[
            "Cannot resolve Zotero item for placeholder key \"",
            key,
            "\": paper file has no parseable title in frontmatter",
        ],
    );
    proof {
        reveal_with_fuel(join_all, 4);
        assert(r@ =~= "Cannot resolve Zotero item for placeholder key \""@ + key@
            + "\": paper file has no parseable title in frontmatter"@);
    }
    r
}

/// A replay needs Zotero: it is refused, with a hint, when Zotero is not
/// reachable.
pub fn sync_precheck(reachable: bool) -> (r: Result<(), String>)
    ensures
        r is Ok <==> reachable,
        r matches Err(m) ==> m@ == "Zotero is not reachable — start Zotero and retry"@,
{
    if reachable {
        Ok(())
    } else {
        Err("Zotero is not reachable — start Zotero and retry".to_owned())
    }
}

// ── Replay ─────────────────────────────────────────────────────────────────

/// What happened to one queued item during a replay.
#[derive(Debug, Clone)]
pub enum ItemOutcome {
    /// Its key could not be resolved (the message says why).
    ResolveFailed(String),
    /// The collection update failed (the message says why).
    UpdateFailed(String),
    /// The collection was updated.
    Synced,
}

/// The message recorded for a failed item.
pub open spec fn failure_message(item: PendingSyncItem, o: ItemOutcome) -> Seq<char> {
    match o {
        ItemOutcome::ResolveFailed(e) => "["@ + item.zotero_item_key@ + "] → \""@
            + item.target_collection@ + "\": key resolution failed: "@ + e@,
        ItemOutcome::UpdateFailed(e) => "["@ + item.zotero_item_key@ + "] → \""@
            + item.target_collection@ + "\": "@ + e@,
        ItemOutcome::Synced => seq![],
    }
}

/// The event a replayed item raises: done, or failed with the error its
/// key resolution or collection update gave.
#[derive(Debug)]
pub enum ItemEvent {
    Done { zotero_item_key: String },
    Error { zotero_item_key: String, error: String },
}

/// Progress of a replay over a snapshot of the queue.
pub struct SyncRun {
    /// The queue as it was when the replay started.
    pub items: Vec<PendingSyncItem>,
    /// Outcomes so far, one per item from the start.
    pub outcomes: Vec<ItemOutcome>,
    /// Items that failed so far, in order.
    pub failed_items: Vec<PendingSyncItem>,
    /// One message per failed item.
    pub errors: Vec<String>,
    pub synced: u32,
}

pub open spec fn is_synced(o: ItemOutcome) -> bool {
    o is Synced
}

/// The items whose outcome was not a sync, in order.
pub open spec fn failed_of(items: Seq<PendingSyncItem>, outcomes: Seq<ItemOutcome>) -> Seq<PendingSyncItem>
    decreases outcomes.len(),
{
    if outcomes.len() == 0 {
        seq![]
    } else {
        failed_of(items, outcomes.drop_last()) + if is_synced(outcomes.last()) {
            Seq::<PendingSyncItem>::empty()
        } else {
            seq![items[outcomes.len() - 1]]
        }
    }
}

/// The failure messages, in order.
pub open spec fn messages_of(items: Seq<PendingSyncItem>, outcomes: Seq<ItemOutcome>) -> Seq<Seq<char>>
    decreases outcomes.len(),
{
    if outcomes.len() == 0 {
        seq![]
    } else {
        messages_of(items, outcomes.drop_last()) + if is_synced(outcomes.last()) {
            Seq::<Seq<char>>::empty()
        } else {
            seq![failure_message(items[outcomes.len() - 1], outcomes.last())]
        }
    }
}

/// How many outcomes are syncs.
pub open spec fn synced_count(outcomes: Seq<ItemOutcome>) -> nat
    decreases outcomes.len(),
{
    if outcomes.len() == 0 {
        0
    } else {
        synced_count(outcomes.drop_last()) + if is_synced(outcomes.last()) {
            1nat
        } else {
            0nat
        }
    }
}

impl SyncRun {
    pub open spec fn wf(self) -> bool {
        &&& self.outcomes@.len() <= self.items@.len()
        &&& self.items@.len() <= u32::MAX
        &&& self.failed_items@ == failed_of(self.items@, self.outcomes@)
        &&& self.errors@.map_values(|e: String| e@) == messages_of(self.items@, self.outcomes@)
        &&& self.synced == synced_count(self.outcomes@)
    }

    /// Start a replay of `items`.
    pub fn new(items: Vec<PendingSyncItem>) -> (r: Self)
        requires
            items.len() <= u32::MAX,
        ensures
            r.wf(),
            r.items@ == items@,
            r.outcomes@.len() == 0,
    {
        let r = SyncRun {
            items,
            outcomes: Vec::new(),
            failed_items: Vec::new(),
            errors: Vec::new(),
            synced: 0,
        };
        assert(r.errors@.map_values(|e: String| e@) =~= Seq::<Seq<char>>::empty());
        r
    }

    /// Index of the item to replay next, if any is left.
    pub fn next_index(&self) -> (r: Option<usize>)
        requires
            self.wf(),
        ensures
            match r {
                Some(i) => i == self.outcomes@.len() && i < self.items@.len(),
                None => self.outcomes@.len() == self.items@.len(),
            },
    {
        if self.outcomes.len() < self.items.len() {
            Some(self.outcomes.len())
        } else {
            None
        }
    }

    /// Record the outcome of the next item, and give the event it raises.
    pub fn record(&mut self, outcome: ItemOutcome) -> (ev: ItemEvent)
        requires
            old(self).wf(),
            old(self).outcomes@.len() < old(self).items@.len(),
        ensures
            final(self).wf(),
            final(self).items@ == old(self).items@,
            final(self).outcomes@ == old(self).outcomes@.push(outcome),
            match outcome {
                ItemOutcome::Synced => ev matches ItemEvent::Done { zotero_item_key }
                    && zotero_item_key@ == old(self).items@[old(self).outcomes@.len() as int].zotero_item_key@,
                ItemOutcome::ResolveFailed(e) | ItemOutcome::UpdateFailed(e) => ev matches ItemEvent::Error {
                    zotero_item_key,
                    error,
                } && zotero_item_key@ == old(self).items@[old(self).outcomes@.len() as int].zotero_item_key@
                    && error@ == e@,
            },
    {
        let i = self.outcomes.len();
        let key = self.items[i].zotero_item_key.clone();
        let ev = match &outcome {
            ItemOutcome::Synced => ItemEvent::Done { zotero_item_key: key },
            ItemOutcome::ResolveFailed(e) => ItemEvent::Error { zotero_item_key: key, error: e.clone() },
            ItemOutcome::UpdateFailed(e) => ItemEvent::Error { zotero_item_key: key, error: e.clone() },
        };
        let ghost old_outcomes = self.outcomes@;
        proof {
            lemma_synced_count_bound(old_outcomes);
        }
        let ghost old_errors = self.errors@;
        match &outcome {
            ItemOutcome::Synced => {
                self.synced = self.synced + 1;
            },
            ItemOutcome::ResolveFailed(e) => {
                let item = &self.items[i];
                let msg = concat(
                    &[
                        "[",
                        item.zotero_item_key.as_str(),
                        "] → \"",
                        item.target_collection.as_str(),
                        "\": key resolution failed: ",
                        e.as_str(),
                    ],
                );
                proof {
                    reveal_with_fuel(join_all, 7);
                    assert(msg@ =~= failure_message(self.items@[i as int], outcome));
                }
                self.errors.push(msg);
                let it = item.copy();
                self.failed_items.push(it);
            },
            ItemOutcome::UpdateFailed(e) => {
                let item = &self.items[i];
                let msg = concat(
                    &[
                        "[",
                        item.zotero_item_key.as_str(),
                        "] → \"",
                        item.target_collection.as_str(),
                        "\": ",
                        e.as_str(),
                    ],
                );
                proof {
                    reveal_with_fuel(join_all, 7);
                    assert(msg@ =~= failure_message(self.items@[i as int], outcome));
                }
                self.errors.push(msg);
                let it = item.copy();
                self.failed_items.push(it);
            },
        }
        self.outcomes.push(outcome);
        proof {
            let os = self.outcomes@;
            assert(os.drop_last() =~= old_outcomes);
            assert(self.errors@.map_values(|e: String| e@) =~= messages_of(self.items@, os));
            assert(self.failed_items@ =~= failed_of(self.items@, os));
        }
        ev
    }

    /// The result of the replay and the new queue: exactly the failed
    /// items, in order.
    pub fn finish(self) -> (r: (SyncResult, PendingSyncQueue))
        requires
            self.wf(),
            self.outcomes@.len() == self.items@.len(),
        ensures
            r.0.synced == synced_count(self.outcomes@),
            r.0.errors@.map_values(|e: String| e@) == messages_of(self.items@, self.outcomes@),
            r.0.failed == r.0.errors@.len(),
            r.0.remaining == r.1.items@.len(),
            r.1.items@ == failed_of(self.items@, self.outcomes@),
    {
        proof {
            lemma_failed_len(self.items@, self.outcomes@);
        }
        let remaining = self.failed_items.len() as u32;
        let failed = self.errors.len() as u32;
        (
            SyncResult { synced: self.synced, failed, remaining, errors: self.errors },
            PendingSyncQueue { items: self.failed_items },
        )
    }
}

/// A replay driven to its end: from a fresh run, `next_index` hands out
/// `indices[k]` and `record` takes `outcomes[k]`, in turn, until
/// `next_index` gives `None`; `runs` are the states between the records.
pub open spec fn is_sync_drive(runs: Seq<SyncRun>, indices: Seq<int>, outcomes: Seq<ItemOutcome>) -> bool {
    &&& runs.len() == outcomes.len() + 1
    &&& indices.len() == outcomes.len()
    &&& runs[0].wf()
    &&& runs[0].outcomes@.len() == 0
    &&& forall|k: int|
        0 <= k < outcomes.len() ==> {
            &&& indices[k] == (#[trigger] runs[k]).outcomes@.len()
            &&& indices[k] < runs[k].items@.len()
            &&& runs[k + 1].wf()
            &&& runs[k + 1].items@ == runs[k].items@
            &&& runs[k + 1].outcomes@ == runs[k].outcomes@.push(outcomes[k])
        }
    &&& runs.last().outcomes@.len() == runs.last().items@.len()
}

proof fn lemma_sync_drive_prefix(runs: Seq<SyncRun>, indices: Seq<int>, outcomes: Seq<ItemOutcome>, k: int)
    requires
        is_sync_drive(runs, indices, outcomes),
        0 <= k <= outcomes.len(),
    ensures
        runs[k].outcomes@ == outcomes.take(k),
        runs[k].items@ == runs[0].items@,
    decreases k,
{
    if k > 0 {
        lemma_sync_drive_prefix(runs, indices, outcomes, k - 1);
        assert(indices[k - 1] == runs[k - 1].outcomes@.len());
        assert(outcomes.take(k) =~= outcomes.take(k - 1).push(outcomes[k - 1]));
    }
}

/// Law: a replay driven to its end hands out the items in queue order,
/// `0` to `n - 1`, each once, records one outcome for each, and ends with
/// every item either synced or failed: `synced + failed == n`, with as many
/// failure messages as failed items.
pub proof fn lemma_sync_drive(runs: Seq<SyncRun>, indices: Seq<int>, outcomes: Seq<ItemOutcome>)
    requires
        is_sync_drive(runs, indices, outcomes),
    ensures
        forall|k: int| 0 <= k < indices.len() ==> #[trigger] indices[k] == k,
        outcomes.len() == runs[0].items@.len(),
        runs.last().outcomes@ == outcomes,
        synced_count(outcomes) + failed_of(runs[0].items@, outcomes).len() == runs[0].items@.len(),
        failed_of(runs[0].items@, outcomes).len() == messages_of(runs[0].items@, outcomes).len(),
{
    assert forall|k: int| 0 <= k < indices.len() implies #[trigger] indices[k] == k by {
        lemma_sync_drive_prefix(runs, indices, outcomes, k);
        assert(indices[k] == runs[k].outcomes@.len());
    }
    let n = outcomes.len() as int;
    lemma_sync_drive_prefix(runs, indices, outcomes, n);
    assert(outcomes.take(n) =~= outcomes);
    lemma_failed_len(runs[0].items@, outcomes);
}

proof fn lemma_synced_count_bound(os: Seq<ItemOutcome>)
    ensures
        synced_count(os) <= os.len(),
    decreases os.len(),
{
    if os.len() > 0 {
        lemma_synced_count_bound(os.drop_last());
    }
}

/// Law of the replay: every item is either synced or failed; the failed
/// items and the messages correspond one to one, so `failed == remaining`
/// and `synced + failed` is the number of items.
pub proof fn lemma_failed_len(items: Seq<PendingSyncItem>, os: Seq<ItemOutcome>)
    ensures
        failed_of(items, os).len() == messages_of(items, os).len(),
        synced_count(os) + failed_of(items, os).len() == os.len(),
    decreases os.len(),
{
    if os.len() > 0 {
        lemma_failed_len(items, os.drop_last());
    }
}

} // verus!

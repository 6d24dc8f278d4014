//! State shared by the app's commands and its Zotero watcher, and what the
//! watcher decides on each tick.
use vstd::prelude::*;

use crate::zotero::ZoteroStatus;

verus! {

#[verifier::external_type_specification]
#[verifier::external_body]
#[verifier::reject_recursive_types(T)]
pub struct ExMutex<T: ?Sized>(std::sync::Mutex<T>);

/// State shared between the commands and the background watcher: the
/// content root, set once the user has chosen it.
#[derive(Default)]
pub struct AppState {
    pub content_root: std::sync::Mutex<Option<String>>,
}

/// Where a content root keeps its queue of pending Zotero updates.
pub const QUEUE_SUFFIX: &'static str = "/meta/pending-zotero-sync.json";

/// What the watcher does on a tick.
#[derive(Debug)]
pub struct WatchTick {
    /// The status it reports to every window.
    pub status: ZoteroStatus,
    /// The queue it checks (and syncs when something is pending).
    pub check_queue: Option<String>,
}

/// One tick of the watcher: it reports whether Zotero answered, and only
/// when Zotero has just come back (it did not answer on the tick before)
/// and a content root is known does it check that root's queue.
pub fn watcher_tick(was_connected: bool, is_connected: bool, content_root: Option<&str>) -> (r: WatchTick)
    ensures
        is_connected ==> r.status is Connected,
        !is_connected ==> r.status is Disconnected,
        r.check_queue is Some <==> (is_connected && !was_connected && content_root is Some),
        r.check_queue matches Some(q) ==> q@ == content_root->0@ + QUEUE_SUFFIX@,
{
    let status = if is_connected {
        ZoteroStatus::Connected
    } else {
        ZoteroStatus::Disconnected
    };
    let check_queue = if is_connected && !was_connected {
        match content_root {
            Some(root) => {
                let mut v = crate::text::chars_of(root);
                let s = crate::text::chars_of(QUEUE_SUFFIX);
                crate::text::extend(&mut v, s.as_slice());
                Some(crate::text::string_of(v.as_slice()))
            },
            None => None,
        }
    } else {
        None
    };
    WatchTick { status, check_queue }
}

} // verus!

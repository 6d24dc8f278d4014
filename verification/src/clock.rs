//! Dates and times, through chrono.
use vstd::prelude::*;

verus! {

/// A file's modification time: seconds since the Unix epoch (negative
/// before it) and the nanoseconds within that second, below 10^9.
#[derive(Debug, Clone, Copy, PartialEq, Eq, Structural)]
pub struct FileTime {
    pub secs: i64,
    pub nanos: u32,
}

/// `a` is strictly earlier than `b`.
pub open spec fn earlier(a: FileTime, b: FileTime) -> bool {
    a.secs < b.secs || (a.secs == b.secs && a.nanos < b.nanos)
}

pub fn is_earlier(a: FileTime, b: FileTime) -> (r: bool)
    ensures
        r == earlier(a, b),
{
    a.secs < b.secs || (a.secs == b.secs && a.nanos < b.nanos)
}

/// What chrono's `DateTime::<Utc>::from_timestamp(secs, nanos)` followed by
/// `to_rfc3339()` gives: `None` when chrono cannot represent the instant.
pub uninterp spec fn utc_rfc3339(secs: i64, nanos: u32) -> Option<Seq<char>>;

pub open spec fn opt_string_view(r: Option<String>) -> Option<Seq<char>> {
    match r {
        Some(s) => Some(s@),
        None => None,
    }
}

/// RFC 3339 text of a UTC instant (chrono's `DateTime::<Utc>::from_timestamp`
/// and `DateTime::to_rfc3339`).  The contract names the result and says
/// nothing of its text.
#[verifier::external_body]
pub(crate) fn rfc3339_of(t: FileTime) -> (r: Option<String>)
    ensures
        opt_string_view(r) == utc_rfc3339(t.secs, t.nanos),
{
    match chrono::DateTime::<chrono::Utc>::from_timestamp(t.secs, t.nanos) {
        Some(d) => Some(d.to_rfc3339()),
        None => None,
    }
}

/// The current UTC time in RFC 3339 (chrono's `Utc::now().to_rfc3339()`).
/// It depends on the clock, so nothing is stated of it.
#[verifier::external_body]
pub(crate) fn now_rfc3339() -> String {
    chrono::Utc::now().to_rfc3339()
}

/// Today's UTC date as `YYYY-MM-DD` (chrono's `Utc::now().format("%Y-%m-%d")`).
/// It depends on the clock, so nothing is stated of it.
#[verifier::external_body]
pub(crate) fn today_ymd() -> String {
    chrono::Utc::now().format("%Y-%m-%d").to_string()
}

} // verus!

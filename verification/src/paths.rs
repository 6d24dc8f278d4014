//! File-system paths as strings: joining, and the parts of a path that
//! std's `Path` names.
use vstd::prelude::*;

use crate::text::{chars_of, extend, string_of};

verus! {

/// `Path::join` on Unix: an absolute `b` replaces `a`; otherwise `b` follows
/// `a` after one `/` (none when `a` is empty or already ends in `/`).
pub open spec fn join_path(a: Seq<char>, b: Seq<char>) -> Seq<char> {
    if b.len() > 0 && b[0] == '/' {
        b
    } else if a.len() == 0 {
        b
    } else if a.last() == '/' {
        a + b
    } else {
        a + seq!['/'] + b
    }
}

pub fn join(a: &str, b: &str) -> (r: String)
    ensures
        r@ == join_path(a@, b@),
{
    let x = chars_of(a);
    let y = chars_of(b);
    if y.len() > 0 && y[0] == '/' {
        return string_of(y.as_slice());
    }
    if x.len() == 0 {
        return string_of(y.as_slice());
    }
    let mut v = x;
    if v[v.len() - 1] != '/' {
        v.push('/');
    }
    extend(&mut v, y.as_slice());
    string_of(v.as_slice())
}

/// Names what `Path::file_name` gives for a path, as a string: its last
/// component, or nothing for a path that ends in `..` or has no component
/// there, or whose last component is not valid Unicode.
pub uninterp spec fn path_file_name(p: Seq<char>) -> Option<Seq<char>>;

/// `std::path::Path::file_name`, as a string.
#[verifier::external_body]
pub(crate) fn file_name(p: &str) -> (r: Option<String>)
    ensures
        crate::gemini::opt_string(r) == path_file_name(p@),
{
    std::path::Path::new(p).file_name().and_then(|n| n.to_str()).map(|n| n.to_owned())
}

/// Names what `Path::file_stem` gives for a path, as a string: the file
/// name without its last extension.
pub uninterp spec fn path_file_stem(p: Seq<char>) -> Option<Seq<char>>;

/// `std::path::Path::file_stem`, as a string.
#[verifier::external_body]
pub(crate) fn file_stem(p: &str) -> (r: Option<String>)
    ensures
        crate::gemini::opt_string(r) == path_file_stem(p@),
{
    std::path::Path::new(p).file_stem().and_then(|n| n.to_str()).map(|n| n.to_owned())
}

/// Names what `Path::parent` gives for a path, as a string: the path
/// without its last component, or nothing for a root or an empty path.
pub uninterp spec fn path_parent(p: Seq<char>) -> Option<Seq<char>>;

/// `std::path::Path::parent`, as a string.
#[verifier::external_body]
pub(crate) fn parent(p: &str) -> (r: Option<String>)
    ensures
        crate::gemini::opt_string(r) == path_parent(p@),
{
    std::path::Path::new(p).parent().and_then(|n| n.to_str()).map(|n| n.to_owned())
}

} // verus!

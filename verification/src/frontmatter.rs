//! The YAML frontmatter block at the top of a paper, as the organiser, the
//! importer and the sync queue read it: a `---` line, `key: value` lines,
//! and a closing `---`.
use vstd::prelude::*;

use crate::text::{
    chars_of, find, find_chars, lines, lines_of, slice_chars, starts_with, strip_prefix,
    strip_prefix_chars, trim, trim_by, trim_chars, CharClass, has_prefix,
};

verus! {

/// `s.trim_start_matches(p)`: every leading copy of `p` removed.
pub open spec fn trim_start_str(s: Seq<char>, p: Seq<char>) -> Seq<char>
    decreases s.len(),
{
    if p.len() > 0 && starts_with(s, p) {
        trim_start_str(s.skip(p.len() as int), p)
    } else {
        s
    }
}

pub fn trim_start_str_chars(s: &[char], p: &[char]) -> (r: Vec<char>)
    ensures
        r@ == trim_start_str(s@, p@),
{
    let mut i: usize = 0;
    assert(s@.skip(0) =~= s@);
    if p.len() == 0 {
        return slice_chars(s, 0, s.len());
    }
    while i <= s.len() && p.len() <= s.len() - i && crate::text::matches_at(s, i, p)
        invariant
            i <= s.len(),
            p.len() > 0,
            trim_start_str(s@, p@) == trim_start_str(s@.skip(i as int), p@),
        decreases s.len() - i,
    {
        proof {
            let t = s@.skip(i as int);
            assert(t.subrange(0, p.len() as int) =~= s@.subrange(i as int, i + p.len()));
            assert(t.skip(p.len() as int) =~= s@.skip(i + p.len()));
        }
        i += p.len();
    }
    proof {
        let t = s@.skip(i as int);
        if p.len() <= t.len() {
            assert(t.subrange(0, p.len() as int) =~= s@.subrange(i as int, i + p.len()));
        }
    }
    let r = slice_chars(s, i, s.len());
    assert(r@ =~= s@.skip(i as int));
    r
}

/// The block the simple frontmatter readers scan: nothing unless the text
/// starts with `---`; otherwise the text after every leading `---\n`, up to
/// the first `\n---` (or to the end when there is none).
pub open spec fn simple_yaml(content: Seq<char>) -> Option<Seq<char>> {
    if !starts_with(content, "---"@) {
        None
    } else {
        let after = trim_start_str(content, "---\n"@);
        Some(
            match find(after, "\n---"@) {
                Some(e) => after.take(e),
                None => after,
            },
        )
    }
}

pub fn simple_yaml_block(content: &[char]) -> (r: Option<Vec<char>>)
    ensures
        match r {
            Some(v) => simple_yaml(content@) == Some(v@),
            None => simple_yaml(content@) is None,
        },
{
    let open = chars_of("---");
    if !has_prefix(content, open.as_slice()) {
        return None;
    }
    let open_nl = chars_of("---\n");
    let after = trim_start_str_chars(content, open_nl.as_slice());
    let close = chars_of("\n---");
    match find_chars(after.as_slice(), close.as_slice()) {
        Some(e) => {
            proof {
                crate::text::lemma_find_from(after@, close@, 0);
            }
            let v = slice_chars(after.as_slice(), 0, e);
            assert(v@ =~= after@.take(e as int));
            Some(v)
        },
        None => Some(after),
    }
}

/// A field's value: trimmed, then stripped of wrapping `"` and then `'`.
pub open spec fn field_value(v: Seq<char>) -> Seq<char> {
    trim_by(trim_by(trim(v), CharClass::DoubleQuote), CharClass::SingleQuote)
}

pub fn field_value_chars(v: &[char]) -> (r: Vec<char>)
    ensures
        r@ == field_value(v@),
{
    let a = trim_chars(v, CharClass::Whitespace);
    let b = trim_chars(a.as_slice(), CharClass::DoubleQuote);
    trim_chars(b.as_slice(), CharClass::SingleQuote)
}

/// The value after `key` on a line, once the line is trimmed, if the
/// trimmed line starts with `key`.
pub open spec fn keyed(line: Seq<char>, key: Seq<char>) -> Option<Seq<char>> {
    match strip_prefix(trim(line), key) {
        Some(v) => Some(field_value(v)),
        None => None,
    }
}

pub fn keyed_chars(line: &[char], key: &[char]) -> (r: Option<Vec<char>>)
    ensures
        match r {
            Some(v) => keyed(line@, key@) == Some(v@),
            None => keyed(line@, key@) is None,
        },
{
    let t = trim_chars(line, CharClass::Whitespace);
    match strip_prefix_chars(t.as_slice(), key) {
        Some(v) => Some(field_value_chars(v.as_slice())),
        None => None,
    }
}

/// The value of the last line carrying `key` (empty when there is none).
pub open spec fn last_keyed(ls: Seq<Seq<char>>, key: Seq<char>) -> Seq<char>
    decreases ls.len(),
{
    if ls.len() == 0 {
        seq![]
    } else {
        match keyed(ls.last(), key) {
            Some(v) => v,
            None => last_keyed(ls.drop_last(), key),
        }
    }
}

/// The value of the first line carrying `key` whose value is not empty.
pub open spec fn first_nonempty_keyed(ls: Seq<Seq<char>>, key: Seq<char>) -> Option<Seq<char>>
    decreases ls.len(),
{
    if ls.len() == 0 {
        None
    } else {
        match keyed(ls[0], key) {
            Some(v) if v.len() > 0 => Some(v),
            _ => first_nonempty_keyed(ls.drop_first(), key),
        }
    }
}

/// The YAML block's lines, or no lines when there is no block.
pub open spec fn simple_yaml_lines(content: Seq<char>) -> Seq<Seq<char>> {
    match simple_yaml(content) {
        Some(y) => lines(y),
        None => seq![],
    }
}

pub fn simple_yaml_lines_of(content: &[char]) -> (r: Vec<Vec<char>>)
    ensures
        crate::text::views(r@) == simple_yaml_lines(content@),
{
    match simple_yaml_block(content) {
        Some(y) => lines_of(y.as_slice()),
        None => {
            let r: Vec<Vec<char>> = Vec::new();
            assert(crate::text::views(r@) =~= Seq::<Seq<char>>::empty());
            r
        },
    }
}

/// `last_keyed` over the lines of `content`.
pub fn last_keyed_of(ls: &Vec<Vec<char>>, key: &[char]) -> (r: Vec<char>)
    ensures
        r@ == last_keyed(crate::text::views(ls@), key@),
{
    let ghost vs = crate::text::views(ls@);
    let mut r: Vec<char> = Vec::new();
    let mut i: usize = 0;
    while i < ls.len()
        invariant
            i <= ls.len(),
            vs == crate::text::views(ls@),
            r@ == last_keyed(vs.take(i as int), key@),
        decreases ls.len() - i,
    {
        proof {
            assert(vs.take(i + 1).drop_last() =~= vs.take(i as int));
            assert(vs.take(i + 1).last() == ls@[i as int]@);
        }
        match keyed_chars(ls[i].as_slice(), key) {
            Some(v) => {
                r = v;
            },
            None => {},
        }
        i += 1;
    }
    assert(vs.take(ls.len() as int) =~= vs);
    r
}

/// `first_nonempty_keyed` over the lines of `content`.
pub fn first_nonempty_keyed_of(ls: &Vec<Vec<char>>, key: &[char]) -> (r: Option<Vec<char>>)
    ensures
        match r {
            Some(v) => first_nonempty_keyed(crate::text::views(ls@), key@) == Some(v@),
            None => first_nonempty_keyed(crate::text::views(ls@), key@) is None,
        },
{
    let ghost vs = crate::text::views(ls@);
    let mut i: usize = 0;
    assert(vs.skip(0) =~= vs);
    while i < ls.len()
        invariant
            i <= ls.len(),
            vs == crate::text::views(ls@),
            first_nonempty_keyed(vs, key@) == first_nonempty_keyed(vs.skip(i as int), key@),
        decreases ls.len() - i,
    {
        proof {
            let t = vs.skip(i as int);
            assert(t[0] == ls@[i as int]@);
            assert(t.drop_first() =~= vs.skip(i + 1));
        }
        match keyed_chars(ls[i].as_slice(), key) {
            Some(v) => {
                if v.len() > 0 {
                    return Some(v);
                }
            },
            None => {},
        }
        i += 1;
    }
    assert(vs.skip(ls.len() as int) =~= Seq::<Seq<char>>::empty());
    None
}

} // verus!

//! Character-level text handling shared by every parser of the crate.
//!
//! Strings are modelled by their views, sequences of `char`.  The spec
//! functions here say what std's `trim`, `lines`, `find`, `split_whitespace`
//! and `join` compute; the executable functions work on `&[char]` and are
//! proved against them.
use vstd::prelude::*;

verus! {

// ── Character classes ──────────────────────────────────────────────────────

/// Unicode `White_Space`, the property that `char::is_whitespace` tests.
pub open spec fn is_ws(c: char) -> bool {
    ||| ('\u{9}' <= c && c <= '\u{d}')
    ||| c == ' '
    ||| c == '\u{85}'
    ||| c == '\u{a0}'
    ||| c == '\u{1680}'
    ||| ('\u{2000}' <= c && c <= '\u{200a}')
    ||| c == '\u{2028}'
    ||| c == '\u{2029}'
    ||| c == '\u{202f}'
    ||| c == '\u{205f}'
    ||| c == '\u{3000}'
}

/// `char::is_whitespace`.
pub fn is_whitespace(c: char) -> (b: bool)
    ensures
        b == is_ws(c),
{
    ('\u{9}' <= c && c <= '\u{d}') || c == ' ' || c == '\u{85}' || c == '\u{a0}' || c == '\u{1680}'
        || ('\u{2000}' <= c && c <= '\u{200a}') || c == '\u{2028}' || c == '\u{2029}' || c
        == '\u{202f}' || c == '\u{205f}' || c == '\u{3000}'
}

/// `char::is_ascii_alphanumeric`.
pub open spec fn is_ascii_alnum(c: char) -> bool {
    ('a' <= c && c <= 'z') || ('A' <= c && c <= 'Z') || ('0' <= c && c <= '9')
}

pub fn is_ascii_alphanumeric(c: char) -> (b: bool)
    ensures
        b == is_ascii_alnum(c),
{
    ('a' <= c && c <= 'z') || ('A' <= c && c <= 'Z') || ('0' <= c && c <= '9')
}

/// A set of characters that a trim removes.
#[derive(Clone, Copy, PartialEq, Eq, Structural)]
pub enum CharClass {
    /// `char::is_whitespace`.
    Whitespace,
    /// `"`, `'`, `` ` `` and `.`: the wrapping a model puts around a category.
    CategoryWrap,
    /// `"` alone.
    DoubleQuote,
    /// `'` alone.
    SingleQuote,
    /// `-` alone.
    Dash,
    /// `\n` alone.
    LineFeed,
    /// Everything but whitespace: the characters of a word.
    NonWhitespace,
    /// Whitespace, `_`, `/` and `\\`: what separates the words of a category.
    CategorySep,
    /// Everything but `CategorySep`.
    CategoryWord,
}

pub open spec fn in_class(k: CharClass, c: char) -> bool {
    match k {
        CharClass::Whitespace => is_ws(c),
        CharClass::CategoryWrap => c == '"' || c == '\'' || c == '`' || c == '.',
        CharClass::DoubleQuote => c == '"',
        CharClass::SingleQuote => c == '\'',
        CharClass::Dash => c == '-',
        CharClass::LineFeed => c == '\n',
        CharClass::NonWhitespace => !is_ws(c),
        CharClass::CategorySep => is_ws(c) || c == '_' || c == '/' || c == '\\',
        CharClass::CategoryWord => !(is_ws(c) || c == '_' || c == '/' || c == '\\'),
    }
}

pub fn class_contains(k: CharClass, c: char) -> (b: bool)
    ensures
        b == in_class(k, c),
{
    match k {
        CharClass::Whitespace => is_whitespace(c),
        CharClass::CategoryWrap => c == '"' || c == '\'' || c == '`' || c == '.',
        CharClass::DoubleQuote => c == '"',
        CharClass::SingleQuote => c == '\'',
        CharClass::Dash => c == '-',
        CharClass::LineFeed => c == '\n',
        CharClass::NonWhitespace => !is_whitespace(c),
        CharClass::CategorySep => is_whitespace(c) || c == '_' || c == '/' || c == '\\',
        CharClass::CategoryWord => !(is_whitespace(c) || c == '_' || c == '/' || c == '\\'),
    }
}

// ── Trimming ───────────────────────────────────────────────────────────────

/// How many leading characters of `s` belong to `k`.
pub open spec fn lead_len(s: Seq<char>, k: CharClass) -> nat
    decreases s.len(),
{
    if s.len() > 0 && in_class(k, s[0]) {
        1 + lead_len(s.drop_first(), k)
    } else {
        0
    }
}

/// How many trailing characters of `s` belong to `k`.
pub open spec fn trail_len(s: Seq<char>, k: CharClass) -> nat
    decreases s.len(),
{
    if s.len() > 0 && in_class(k, s.last()) {
        1 + trail_len(s.drop_last(), k)
    } else {
        0
    }
}

/// `trim_start_matches` for a class.
pub open spec fn trim_start_by(s: Seq<char>, k: CharClass) -> Seq<char> {
    s.skip(lead_len(s, k) as int)
}

/// `trim_end_matches` for a class.
pub open spec fn trim_end_by(s: Seq<char>, k: CharClass) -> Seq<char> {
    s.take(s.len() - trail_len(s, k))
}

/// `trim_matches` for a class; with `Whitespace` this is `str::trim`.
pub open spec fn trim_by(s: Seq<char>, k: CharClass) -> Seq<char> {
    trim_end_by(trim_start_by(s, k), k)
}

pub open spec fn trim(s: Seq<char>) -> Seq<char> {
    trim_by(s, CharClass::Whitespace)
}

/// The leading run of class characters is exactly the first `i` characters.
pub proof fn lemma_lead_len(s: Seq<char>, k: CharClass, i: int)
    requires
        0 <= i <= s.len(),
        forall|j: int| 0 <= j < i ==> in_class(k, #[trigger] s[j]),
        i == s.len() || !in_class(k, s[i]),
    ensures
        lead_len(s, k) == i,
    decreases i,
{
    if i > 0 {
        let t = s.drop_first();
        assert forall|j: int| 0 <= j < i - 1 implies in_class(k, #[trigger] t[j]) by {
            assert(t[j] == s[j + 1]);
        }
        if i < s.len() {
            assert(t[i - 1] == s[i]);
        }
        lemma_lead_len(t, k, i - 1);
    }
}

/// The trailing run of class characters is exactly the last `n` characters.
pub proof fn lemma_trail_len(s: Seq<char>, k: CharClass, n: int)
    requires
        0 <= n <= s.len(),
        forall|j: int| s.len() - n <= j < s.len() ==> in_class(k, #[trigger] s[j]),
        n == s.len() || !in_class(k, s[s.len() - n - 1]),
    ensures
        trail_len(s, k) == n,
    decreases n,
{
    if n > 0 {
        let t = s.drop_last();
        assert forall|j: int| t.len() - (n - 1) <= j < t.len() implies in_class(
            k,
            #[trigger] t[j],
        ) by {
            assert(t[j] == s[j]);
        }
        if n < s.len() {
            assert(t[t.len() - (n - 1) - 1] == s[s.len() - n - 1]);
        }
        lemma_trail_len(t, k, n - 1);
    }
}

/// Index of the first character at or after `from` that is not in `k`.
pub fn skip_class(s: &[char], from: usize, k: CharClass) -> (i: usize)
    requires
        from <= s.len(),
        forall|j: int| 0 <= j < from ==> in_class(k, #[trigger] s@[j]),
    ensures
        from <= i <= s.len(),
        i == lead_len(s@, k),
{
    let mut i = from;
    while i < s.len() && class_contains(k, s[i])
        invariant
            from <= i <= s.len(),
            forall|j: int| 0 <= j < i ==> in_class(k, #[trigger] s@[j]),
        decreases s.len() - i,
    {
        i += 1;
    }
    proof {
        lemma_lead_len(s@, k, i as int);
    }
    i
}

/// End index after dropping the trailing class characters of `s[from..to]`.
pub fn back_skip_class(s: &[char], from: usize, to: usize, k: CharClass) -> (j: usize)
    requires
        from <= to <= s.len(),
    ensures
        from <= j <= to,
        j == from + (to - from) - trail_len(s@.subrange(from as int, to as int), k),
{
    let ghost t = s@.subrange(from as int, to as int);
    let mut j = to;
    while j > from && class_contains(k, s[j - 1])
        invariant
            from <= j <= to,
            to <= s.len(),
            forall|m: int| j <= m < to ==> in_class(k, #[trigger] s@[m]),
        decreases j - from,
    {
        j -= 1;
    }
    proof {
        let n = (to - j) as int;
        assert forall|m: int| t.len() - n <= m < t.len() implies in_class(k, #[trigger] t[m]) by {
            assert(t[m] == s@[from + m]);
        }
        if n < t.len() {
            assert(t[t.len() - n - 1] == s@[j - 1]);
        }
        lemma_trail_len(t, k, n);
    }
    j
}

/// Index of the first character of `s[from..to]` that is not in `k`
/// (or `to`).
pub fn skip_class_in(s: &[char], from: usize, to: usize, k: CharClass) -> (i: usize)
    requires
        from <= to <= s.len(),
    ensures
        from <= i <= to,
        i == from + lead_len(s@.subrange(from as int, to as int), k),
{
    let ghost t = s@.subrange(from as int, to as int);
    let mut i = from;
    while i < to && class_contains(k, s[i])
        invariant
            from <= i <= to,
            to <= s.len(),
            forall|m: int| from <= m < i ==> in_class(k, #[trigger] s@[m]),
        decreases to - i,
    {
        i += 1;
    }
    proof {
        assert forall|j: int| 0 <= j < i - from implies in_class(k, #[trigger] t[j]) by {
            assert(t[j] == s@[from + j]);
        }
        if i < to {
            assert(t[i - from] == s@[i as int]);
        }
        lemma_lead_len(t, k, i - from);
    }
    i
}

/// The span of `str::trim` applied to `s[a..b]`.
pub fn trim_span(s: &[char], a: usize, b: usize) -> (r: (usize, usize))
    requires
        a <= b <= s.len(),
    ensures
        a <= r.0 <= r.1 <= b,
        s@.subrange(r.0 as int, r.1 as int) == trim(s@.subrange(a as int, b as int)),
{
    let c = skip_class_in(s, a, b, CharClass::Whitespace);
    let d = back_skip_class(s, c, b, CharClass::Whitespace);
    proof {
        let t = s@.subrange(a as int, b as int);
        let u = s@.subrange(c as int, b as int);
        assert(trim_start_by(t, CharClass::Whitespace) =~= u);
        assert(s@.subrange(c as int, d as int) =~= u.take(u.len() - trail_len(u, CharClass::Whitespace)));
    }
    (c, d)
}

/// The characters `s[a..b]`.
pub fn slice_chars(s: &[char], a: usize, b: usize) -> (v: Vec<char>)
    requires
        a <= b <= s.len(),
    ensures
        v@ == s@.subrange(a as int, b as int),
{
    let mut v: Vec<char> = Vec::new();
    let mut i = a;
    while i < b
        invariant
            a <= i <= b <= s.len(),
            v@ == s@.subrange(a as int, i as int),
        decreases b - i,
    {
        v.push(s[i]);
        assert(s@.subrange(a as int, i + 1) =~= s@.subrange(a as int, i as int).push(s@[i as int]));
        i += 1;
    }
    v
}

/// `trim_matches` for a class.
pub fn trim_chars(s: &[char], k: CharClass) -> (v: Vec<char>)
    ensures
        v@ == trim_by(s@, k),
{
    let a = skip_class(s, 0, k);
    let b = back_skip_class(s, a, s.len(), k);
    let v = slice_chars(s, a, b);
    proof {
        let t = s@.skip(a as int);
        assert(t =~= s@.subrange(a as int, s.len() as int));
        assert(trim_start_by(s@, k) == t);
        assert(v@ =~= t.take(t.len() - trail_len(t, k)));
    }
    v
}

/// `trim_start_matches` for a class.
pub fn trim_start_chars(s: &[char], k: CharClass) -> (v: Vec<char>)
    ensures
        v@ == trim_start_by(s@, k),
{
    let a = skip_class(s, 0, k);
    let v = slice_chars(s, a, s.len());
    assert(v@ =~= s@.skip(a as int));
    v
}

/// `trim_end_matches` for a class.
pub fn trim_end_chars(s: &[char], k: CharClass) -> (v: Vec<char>)
    ensures
        v@ == trim_end_by(s@, k),
{
    let b = back_skip_class(s, 0, s.len(), k);
    let v = slice_chars(s, 0, b);
    assert(s@.subrange(0, s.len() as int) =~= s@);
    assert(v@ =~= s@.take(b as int));
    v
}

// ── Prefixes, suffixes and search ──────────────────────────────────────────

/// `p` occurs in `s` at index `i`.
pub open spec fn occurs_at(s: Seq<char>, p: Seq<char>, i: int) -> bool {
    0 <= i && i + p.len() <= s.len() && s.subrange(i, i + p.len()) == p
}

pub open spec fn starts_with(s: Seq<char>, p: Seq<char>) -> bool {
    occurs_at(s, p, 0)
}

pub open spec fn ends_with(s: Seq<char>, p: Seq<char>) -> bool {
    occurs_at(s, p, s.len() - p.len())
}

/// `str::strip_prefix`.
pub open spec fn strip_prefix(s: Seq<char>, p: Seq<char>) -> Option<Seq<char>> {
    if starts_with(s, p) {
        Some(s.skip(p.len() as int))
    } else {
        None
    }
}

/// `str::strip_suffix`.
pub open spec fn strip_suffix(s: Seq<char>, p: Seq<char>) -> Option<Seq<char>> {
    if ends_with(s, p) {
        Some(s.take(s.len() - p.len()))
    } else {
        None
    }
}

/// First index at or after `i` where `p` occurs in `s`.
pub open spec fn find_from(s: Seq<char>, p: Seq<char>, i: int) -> Option<int>
    decreases s.len() + 1 - i,
{
    if i < 0 || i + p.len() > s.len() {
        None
    } else if occurs_at(s, p, i) {
        Some(i)
    } else {
        find_from(s, p, i + 1)
    }
}

/// `str::find` with a string pattern, counted in characters.
pub open spec fn find(s: Seq<char>, p: Seq<char>) -> Option<int> {
    find_from(s, p, 0)
}

/// `find_from` gives the first occurrence.
pub proof fn lemma_find_from(s: Seq<char>, p: Seq<char>, i: int)
    requires
        0 <= i,
    ensures
        match find_from(s, p, i) {
            Some(j) => i <= j && occurs_at(s, p, j) && forall|m: int|
                i <= m < j ==> !occurs_at(s, p, m),
            None => forall|m: int| i <= m ==> !occurs_at(s, p, m),
        },
    decreases s.len() + 1 - i,
{
    if i + p.len() > s.len() {
    } else if occurs_at(s, p, i) {
    } else {
        lemma_find_from(s, p, i + 1);
    }
}

/// Whether `p` occurs in `s` at index `at`.
pub fn matches_at(s: &[char], at: usize, p: &[char]) -> (b: bool)
    ensures
        b == occurs_at(s@, p@, at as int),
{
    if at > s.len() || p.len() > s.len() - at {
        return false;
    }
    let mut j: usize = 0;
    while j < p.len()
        invariant
            at + p.len() <= s.len(),
            j <= p.len(),
            forall|m: int| 0 <= m < j ==> s@[at + m] == p@[m],
        decreases p.len() - j,
    {
        if s[at + j] != p[j] {
            assert(s@.subrange(at as int, at + p.len())[j as int] != p@[j as int]);
            return false;
        }
        j += 1;
    }
    assert(s@.subrange(at as int, at + p.len()) =~= p@);
    true
}

/// `a == b`.
pub fn chars_eq(a: &[char], b: &[char]) -> (r: bool)
    ensures
        r == (a@ == b@),
{
    if a.len() != b.len() {
        return false;
    }
    let r = matches_at(a, 0, b);
    assert(a@.subrange(0, b.len() as int) =~= a@);
    r
}

/// `s.starts_with(p)`.
pub fn has_prefix(s: &[char], p: &[char]) -> (b: bool)
    ensures
        b == starts_with(s@, p@),
{
    matches_at(s, 0, p)
}

/// `s.ends_with(p)`.
pub fn has_suffix(s: &[char], p: &[char]) -> (b: bool)
    ensures
        b == ends_with(s@, p@),
{
    if p.len() > s.len() {
        false
    } else {
        matches_at(s, s.len() - p.len(), p)
    }
}

/// `str::find` starting at `from`.
pub fn find_chars_from(s: &[char], p: &[char], from: usize) -> (r: Option<usize>)
    ensures
        match r {
            Some(i) => find_from(s@, p@, from as int) == Some(i as int),
            None => find_from(s@, p@, from as int) is None,
        },
{
    let mut i = from;
    while i <= s.len() && p.len() <= s.len() - i
        invariant
            from <= i,
            find_from(s@, p@, from as int) == find_from(s@, p@, i as int),
        decreases s.len() + 1 - i,
    {
        if matches_at(s, i, p) {
            return Some(i);
        }
        if i == s.len() {
            assert(find_from(s@, p@, i + 1) is None);
            return None;
        }
        i += 1;
    }
    None
}

/// `str::find`.
pub fn find_chars(s: &[char], p: &[char]) -> (r: Option<usize>)
    ensures
        match r {
            Some(i) => find(s@, p@) == Some(i as int),
            None => find(s@, p@) is None,
        },
{
    find_chars_from(s, p, 0)
}

/// `str::strip_prefix`.
pub fn strip_prefix_chars(s: &[char], p: &[char]) -> (r: Option<Vec<char>>)
    ensures
        match r {
            Some(v) => strip_prefix(s@, p@) == Some(v@),
            None => strip_prefix(s@, p@) is None,
        },
{
    if has_prefix(s, p) {
        let v = slice_chars(s, p.len(), s.len());
        assert(v@ =~= s@.skip(p.len() as int));
        Some(v)
    } else {
        None
    }
}

/// `str::strip_suffix`.
pub fn strip_suffix_chars(s: &[char], p: &[char]) -> (r: Option<Vec<char>>)
    ensures
        match r {
            Some(v) => strip_suffix(s@, p@) == Some(v@),
            None => strip_suffix(s@, p@) is None,
        },
{
    if has_suffix(s, p) {
        let v = slice_chars(s, 0, s.len() - p.len());
        assert(v@ =~= s@.take(s.len() - p.len()));
        Some(v)
    } else {
        None
    }
}

/// `find_from` on a suffix of `s` is `find_from` on `s`, shifted.
pub proof fn lemma_find_from_skip(s: Seq<char>, p: Seq<char>, k: int, i: int)
    requires
        0 <= k <= s.len(),
        0 <= i,
    ensures
        find_from(s.skip(k), p, i) == (match find_from(s, p, i + k) {
            Some(j) => Some(j - k),
            None => None,
        }),
    decreases s.len() + 1 - (i + k),
{
    let t = s.skip(k);
    if i + p.len() > t.len() {
    } else {
        assert(t.subrange(i, i + p.len()) =~= s.subrange(i + k, i + k + p.len()));
        if !occurs_at(t, p, i) {
            lemma_find_from_skip(s, p, k, i + 1);
        }
    }
}

// ── Lines, words, joining ─────────────────────────────────────────────────

pub open spec fn nl() -> Seq<char> {
    seq!['\n']
}

/// Drops one trailing `\r`.
pub open spec fn strip_cr(x: Seq<char>) -> Seq<char> {
    if x.len() > 0 && x.last() == '\r' {
        x.drop_last()
    } else {
        x
    }
}

/// `str::lines`: split at `\n`, a `\r` before a `\n` belongs to the line
/// ending, and a final empty line is not a line.
pub open spec fn lines(s: Seq<char>) -> Seq<Seq<char>>
    decreases s.len(),
{
    if s.len() == 0 {
        seq![]
    } else {
        match find(s, nl()) {
            Some(i) => {
                proof {
                    lemma_find_from(s, nl(), 0);
                }
                seq![strip_cr(s.take(i))] + lines(s.skip(i + 1))
            },
            None => seq![s],
        }
    }
}

/// The words of `s`: its maximal runs of non-whitespace, as
/// `str::split_whitespace` yields them.
pub open spec fn words(s: Seq<char>) -> Seq<Seq<char>>
    decreases s.len(),
{
    if s.len() == 0 {
        seq![]
    } else if is_ws(s[0]) {
        words(s.drop_first())
    } else {
        let n = lead_len(s, CharClass::NonWhitespace);
        proof {
            lemma_lead_len_bound(s, CharClass::NonWhitespace);
        }
        seq![s.take(n as int)] + words(s.skip(n as int))
    }
}

/// `[String]::join`.
pub open spec fn join(ws: Seq<Seq<char>>, sep: Seq<char>) -> Seq<char>
    decreases ws.len(),
{
    if ws.len() == 0 {
        seq![]
    } else if ws.len() == 1 {
        ws[0]
    } else {
        ws[0] + sep + join(ws.drop_first(), sep)
    }
}

/// The views of a sequence of character vectors.
pub open spec fn views(v: Seq<Vec<char>>) -> Seq<Seq<char>> {
    v.map_values(|x: Vec<char>| x@)
}

pub proof fn lemma_lead_len_bound(s: Seq<char>, k: CharClass)
    ensures
        lead_len(s, k) <= s.len(),
        s.len() > 0 && in_class(k, s[0]) ==> lead_len(s, k) >= 1,
        forall|j: int| 0 <= j < lead_len(s, k) ==> in_class(k, #[trigger] s[j]),
        lead_len(s, k) < s.len() ==> !in_class(k, s[lead_len(s, k) as int]),
    decreases s.len(),
{
    if s.len() > 0 && in_class(k, s[0]) {
        let t = s.drop_first();
        lemma_lead_len_bound(t, k);
        assert forall|j: int| 0 <= j < lead_len(s, k) implies in_class(k, #[trigger] s[j]) by {
            if j > 0 {
                assert(s[j] == t[j - 1]);
            }
        }
        if lead_len(s, k) < s.len() {
            assert(s[lead_len(s, k) as int] == t[lead_len(t, k) as int]);
        }
    }
}

pub proof fn lemma_trail_len_bound(s: Seq<char>, k: CharClass)
    ensures
        trail_len(s, k) <= s.len(),
        trail_len(s, k) < s.len() ==> !in_class(k, s[s.len() - trail_len(s, k) - 1]),
    decreases s.len(),
{
    if s.len() > 0 && in_class(k, s.last()) {
        let t = s.drop_last();
        lemma_trail_len_bound(t, k);
        let n = trail_len(t, k);
        if n < t.len() {
            assert(s[s.len() - (n + 1) - 1] == t[t.len() - n - 1]);
        }
    }
}

/// Law: trimming twice is trimming once.
pub proof fn lemma_trim_idempotent(s: Seq<char>, k: CharClass)
    ensures
        trim_by(trim_by(s, k), k) == trim_by(s, k),
{
    let u = trim_start_by(s, k);
    let a = lead_len(s, k);
    lemma_lead_len_bound(s, k);
    lemma_trail_len_bound(u, k);
    let b = trail_len(u, k);
    let v = trim_by(s, k);
    assert(v == u.take(u.len() - b));
    if v.len() > 0 {
        assert(v[0] == u[0] && u[0] == s[a as int]);
        assert(v[v.len() - 1] == u[u.len() - b - 1]);
        lemma_lead_len(v, k, 0);
        assert(v.skip(0) =~= v);
        lemma_trail_len(v, k, 0);
        assert(v.take(v.len() as int) =~= v);
    } else {
        assert(trim_by(v, k) =~= v);
    }
}

/// Appending a word on the right of a join.
pub proof fn lemma_join_push(ws: Seq<Seq<char>>, w: Seq<char>, sep: Seq<char>)
    ensures
        join(ws.push(w), sep) == if ws.len() == 0 {
            w
        } else {
            join(ws, sep) + sep + w
        },
    decreases ws.len(),
{
    let v = ws.push(w);
    if ws.len() == 0 {
        assert(v.len() == 1 && v[0] == w);
    } else if ws.len() == 1 {
        assert(v.drop_first() =~= seq![w]);
        assert(join(seq![w], sep) == w);
        assert(v[0] == ws[0]);
        assert(join(v, sep) == ws[0] + sep + w);
    } else {
        lemma_join_push(ws.drop_first(), w, sep);
        assert(v.drop_first() =~= ws.drop_first().push(w));
        assert(v[0] == ws[0]);
        assert(join(v, sep) == ws[0] + sep + join(ws.drop_first().push(w), sep));
        assert(ws[0] + sep + (join(ws.drop_first(), sep) + sep + w) =~= (ws[0] + sep + join(
            ws.drop_first(),
            sep,
        )) + sep + w);
    }
}

/// `l` holds no `\n`.
pub open spec fn one_line(l: Seq<char>) -> bool {
    forall|m: int| 0 <= m < l.len() ==> l[m] != '\n'
}

/// `l` ends with `\r`.
pub open spec fn ends_cr(l: Seq<char>) -> bool {
    l.len() > 0 && l.last() == '\r'
}

/// The first `\n` of `a + "\n" + b` is the one after `a` when `a` holds
/// none.
pub proof fn lemma_find_first_newline(a: Seq<char>, b: Seq<char>)
    requires
        one_line(a),
    ensures
        find(a + nl() + b, nl()) == Some(a.len() as int),
{
    let s = a + nl() + b;
    lemma_find_from(s, nl(), 0);
    assert(s.subrange(a.len() as int, (a.len() + 1) as int) =~= nl());
    assert(occurs_at(s, nl(), a.len() as int));
    match find(s, nl()) {
        Some(j) => {
            if j < a.len() {
                assert(s.subrange(j, j + 1)[0] == s[j]);
                assert(s[j] == a[j]);
            }
        },
        None => {},
    }
}

/// A one-line non-empty text is its only line.
pub proof fn lemma_lines_single(x: Seq<char>)
    requires
        x.len() > 0,
        one_line(x),
    ensures
        lines(x) == seq![x],
{
    lemma_find_from(x, nl(), 0);
    match find(x, nl()) {
        Some(j) => {
            assert(x.subrange(j, j + 1)[0] == x[j]);
        },
        None => {},
    }
}

/// The first line is a prefix of the text.
pub proof fn lemma_first_line_prefix(t: Seq<char>)
    requires
        t.len() > 0,
    ensures
        lines(t).len() > 0,
        lines(t)[0].len() <= t.len(),
        t.take(lines(t)[0].len() as int) == lines(t)[0],
{
    lemma_find_from(t, nl(), 0);
    match find(t, nl()) {
        Some(i) => {
            let a = t.take(i);
            if a.len() > 0 && a.last() == '\r' {
                assert(t.take(i - 1) =~= a.drop_last());
            } else {
                assert(t.take(i) =~= a);
            }
        },
        None => {
            assert(t.take(t.len() as int) =~= t);
        },
    }
}

/// The pieces `lines` yields hold no `\n`.
pub proof fn lemma_lines_one_line(s: Seq<char>)
    ensures
        forall|j: int| 0 <= j < lines(s).len() ==> one_line(#[trigger] lines(s)[j]),
    decreases s.len(),
{
    if s.len() > 0 {
        lemma_find_from(s, nl(), 0);
        match find(s, nl()) {
            Some(i) => {
                let t = s.skip(i + 1);
                lemma_lines_one_line(t);
                assert forall|m: int| 0 <= m < i implies s[m] != '\n' by {
                    if s[m] == '\n' {
                        assert(s.subrange(m, m + 1) =~= nl());
                        assert(occurs_at(s, nl(), m));
                    }
                }
                let h = strip_cr(s.take(i));
                assert(one_line(h));
                assert forall|j: int| 0 <= j < lines(s).len() implies one_line(#[trigger] lines(s)[j]) by {
                    if j > 0 {
                        assert(lines(s)[j] == lines(t)[j - 1]);
                    }
                }
            },
            None => {
                assert forall|m: int| 0 <= m < s.len() implies s[m] != '\n' by {
                    if s[m] == '\n' {
                        assert(s.subrange(m, m + 1) =~= nl());
                        assert(occurs_at(s, nl(), m));
                    }
                }
            },
        }
    }
}

/// Splitting the join of one-line pieces, none ending in `\r`, followed by
/// one more non-empty line, gives the pieces back.
pub proof fn lemma_lines_of_join(ls: Seq<Seq<char>>, x: Seq<char>)
    requires
        ls.len() > 0,
        forall|j: int| 0 <= j < ls.len() ==> one_line(#[trigger] ls[j]) && !ends_cr(ls[j]),
        x.len() > 0,
        one_line(x),
    ensures
        lines(join(ls, nl()) + nl() + x) == ls.push(x),
    decreases ls.len(),
{
    let a = ls[0];
    assert(one_line(a) && !ends_cr(a));
    if ls.len() == 1 {
        let s = join(ls, nl()) + nl() + x;
        assert(s == a + nl() + x);
        lemma_find_first_newline(a, x);
        assert(s.take(a.len() as int) =~= a);
        assert(s.skip((a.len() + 1) as int) =~= x);
        lemma_lines_single(x);
        assert(lines(s) =~= ls.push(x));
    } else {
        let rest = ls.drop_first();
        lemma_lines_of_join(rest, x);
        let b = join(rest, nl()) + nl() + x;
        let s = join(ls, nl()) + nl() + x;
        assert(s =~= a + nl() + b);
        lemma_find_first_newline(a, b);
        assert(s.take(a.len() as int) =~= a);
        assert(s.skip((a.len() + 1) as int) =~= b);
        assert(lines(s) =~= ls.push(x));
    }
}
/// `str::lines`, as character vectors.
pub fn lines_of(s: &[char]) -> (out: Vec<Vec<char>>)
    ensures
        views(out@) == lines(s@),
{
    let ghost full = s@;
    let nl_pat: [char; 1] = ['\n'];
    let mut out: Vec<Vec<char>> = Vec::new();
    let mut pos: usize = 0;
    assert(s@.skip(0) =~= s@);
    while pos < s.len()
        invariant
            pos <= s.len(),
            nl_pat@ == nl(),
            lines(s@) == views(out@) + lines(s@.skip(pos as int)),
        decreases s.len() - pos,
    {
        let ghost rest = s@.skip(pos as int);
        proof {
            lemma_find_from_skip(s@, nl(), pos as int, 0);
            lemma_find_from(s@, nl(), pos as int);
        }
        match find_chars_from(s, nl_pat.as_slice(), pos) {
            Some(i) => {
                let mut line = slice_chars(s, pos, i);
                if line.len() > 0 && line[line.len() - 1] == '\r' {
                    line.pop();
                }
                proof {
                    assert(rest.take(i - pos) =~= s@.subrange(pos as int, i as int));
                    assert(rest.skip(i - pos + 1) =~= s@.skip(i + 1));
                    assert(line@ == strip_cr(rest.take(i - pos)));
                }
                let ghost prev = out@;
                out.push(line);
                proof {
                    assert(views(out@) =~= views(prev) + seq![line@]);
                }
                pos = i + 1;
            },
            None => {
                let line = slice_chars(s, pos, s.len());
                assert(line@ =~= rest);
                let ghost prev = out@;
                out.push(line);
                proof {
                    assert(views(out@) =~= views(prev) + seq![line@]);
                    assert(s@.skip(s.len() as int) =~= Seq::<char>::empty());
                }
                pos = s.len();
            },
        }
    }
    proof {
        assert(s@.skip(pos as int) =~= Seq::<char>::empty());
        assert(views(out@) + Seq::<Seq<char>>::empty() =~= views(out@));
    }
    out
}

/// The pieces of `s` that a list of spans `(start, end)` covers.
pub open spec fn span_views(s: Seq<char>, sp: Seq<(usize, usize)>) -> Seq<Seq<char>> {
    sp.map_values(|p: (usize, usize)| s.subrange(p.0 as int, p.1 as int))
}

/// The spans `(start, end)` of the lines of `s`, as `str::lines` yields
/// them (line endings excluded).
pub fn line_spans(s: &[char]) -> (out: Vec<(usize, usize)>)
    ensures
        span_views(s@, out@) == lines(s@),
        forall|i: int| 0 <= i < out@.len() ==> (#[trigger] out@[i]).0 <= out@[i].1 <= s@.len(),
{
    let nl_pat: [char; 1] = ['\n'];
    let mut out: Vec<(usize, usize)> = Vec::new();
    let mut pos: usize = 0;
    assert(s@.skip(0) =~= s@);
    while pos < s.len()
        invariant
            pos <= s.len(),
            nl_pat@ == nl(),
            lines(s@) == span_views(s@, out@)
                + lines(s@.skip(pos as int)),
            forall|i: int| 0 <= i < out@.len() ==> (#[trigger] out@[i]).0 <= out@[i].1 <= s@.len(),
        decreases s.len() - pos,
    {
        let ghost rest = s@.skip(pos as int);
        let ghost prev = out@;
        proof {
            lemma_find_from_skip(s@, nl(), pos as int, 0);
            lemma_find_from(s@, nl(), pos as int);
        }
        match find_chars_from(s, nl_pat.as_slice(), pos) {
            Some(i) => {
                let end = if i > pos && s[i - 1] == '\r' {
                    i - 1
                } else {
                    i
                };
                proof {
                    assert(rest.take(i - pos) =~= s@.subrange(pos as int, i as int));
                    assert(rest.skip(i - pos + 1) =~= s@.skip(i + 1));
                    assert(s@.subrange(pos as int, end as int) == strip_cr(rest.take(i - pos))) by {
                        if i > pos && s@[i - 1] == '\r' {
                            assert(s@.subrange(pos as int, end as int) =~= rest.take(i - pos).drop_last());
                        } else {
                            assert(s@.subrange(pos as int, end as int) =~= rest.take(i - pos));
                        }
                    }
                }
                out.push((pos, end));
                proof {
                    assert(span_views(s@, out@)
                        =~= span_views(s@, prev)
                        + seq![s@.subrange(pos as int, end as int)]);
                }
                pos = i + 1;
            },
            None => {
                proof {
                    assert(s@.subrange(pos as int, s.len() as int) =~= rest);
                }
                out.push((pos, s.len()));
                proof {
                    assert(span_views(s@, out@)
                        =~= span_views(s@, prev)
                        + seq![rest]);
                    assert(s@.skip(s.len() as int) =~= Seq::<char>::empty());
                }
                pos = s.len();
            },
        }
    }
    proof {
        assert(s@.skip(pos as int) =~= Seq::<char>::empty());
    }
    out
}

/// Every occurrence of `from` replaced by `to`.
pub open spec fn replace_char(s: Seq<char>, from: char, to: char) -> Seq<char> {
    s.map_values(|c: char| if c == from { to } else { c })
}

pub fn replace_chars(s: &[char], from: char, to: char) -> (r: Vec<char>)
    ensures
        r@ == replace_char(s@, from, to),
{
    let mut r: Vec<char> = Vec::new();
    let mut i: usize = 0;
    while i < s.len()
        invariant
            i <= s.len(),
            r@ == replace_char(s@.take(i as int), from, to),
        decreases s.len() - i,
    {
        let c = s[i];
        r.push(if c == from { to } else { c });
        assert(r@ =~= replace_char(s@.take(i + 1), from, to));
        i += 1;
    }
    assert(s@.take(s.len() as int) =~= s@);
    r
}

/// `str::split_whitespace`, as character vectors.
pub fn words_of(s: &[char]) -> (out: Vec<Vec<char>>)
    ensures
        views(out@) == words(s@),
{
    let mut out: Vec<Vec<char>> = Vec::new();
    let mut pos: usize = 0;
    assert(s@.skip(0) =~= s@);
    while pos < s.len()
        invariant
            pos <= s.len(),
            words(s@) == views(out@) + words(s@.skip(pos as int)),
        decreases s.len() - pos,
    {
        let ghost rest = s@.skip(pos as int);
        if is_whitespace(s[pos]) {
            assert(rest.drop_first() =~= s@.skip(pos + 1));
            pos += 1;
        } else {
            let mut j = pos + 1;
            while j < s.len() && !is_whitespace(s[j])
                invariant
                    pos < j <= s.len(),
                    forall|m: int| pos <= m < j ==> !is_ws(#[trigger] s@[m]),
                decreases s.len() - j,
            {
                j += 1;
            }
            proof {
                assert forall|m: int| 0 <= m < j - pos implies in_class(
                    CharClass::NonWhitespace,
                    #[trigger] rest[m],
                ) by {
                    assert(rest[m] == s@[pos + m]);
                }
                if j < s.len() {
                    assert(rest[j - pos] == s@[j as int]);
                }
                lemma_lead_len(rest, CharClass::NonWhitespace, j - pos);
                assert(rest.take(j - pos) =~= s@.subrange(pos as int, j as int));
                assert(rest.skip(j - pos) =~= s@.skip(j as int));
            }
            let w = slice_chars(s, pos, j);
            let ghost prev = out@;
            out.push(w);
            proof {
                assert(views(out@) =~= views(prev) + seq![w@]);
            }
            pos = j;
        }
    }
    proof {
        assert(s@.skip(pos as int) =~= Seq::<char>::empty());
        assert(views(out@) + Seq::<Seq<char>>::empty() =~= views(out@));
    }
    out
}

/// `[String]::join`, for character vectors.
pub fn join_chars(ws: &Vec<Vec<char>>, sep: &[char]) -> (out: Vec<char>)
    ensures
        out@ == join(views(ws@), sep@),
{
    let mut out: Vec<char> = Vec::new();
    let mut i: usize = 0;
    while i < ws.len()
        invariant
            i <= ws.len(),
            out@ == join(views(ws@).take(i as int), sep@),
        decreases ws.len() - i,
    {
        proof {
            lemma_join_push(views(ws@).take(i as int), ws@[i as int]@, sep@);
            assert(views(ws@).take(i as int).push(ws@[i as int]@) =~= views(ws@).take(i + 1));
        }
        if i > 0 {
            extend(&mut out, sep);
        }
        extend(&mut out, ws[i].as_slice());
        i += 1;
    }
    assert(views(ws@).take(ws.len() as int) =~= views(ws@));
    out
}

/// `s.split_whitespace().collect::<Vec<_>>().join(" ")`.
pub open spec fn collapse_ws(s: Seq<char>) -> Seq<char> {
    join(words(s), seq![' '])
}

pub fn collapse_whitespace(s: &[char]) -> (out: Vec<char>)
    ensures
        out@ == collapse_ws(s@),
{
    let ws = words_of(s);
    let sp: [char; 1] = [' '];
    assert(sp@ =~= seq![' ']);
    join_chars(&ws, sp.as_slice())
}

// ── Building ───────────────────────────────────────────────────────────────

/// Appends `t` to `v`.
pub fn extend(v: &mut Vec<char>, t: &[char])
    ensures
        final(v)@ == old(v)@ + t@,
{
    let ghost start = v@;
    let mut i: usize = 0;
    while i < t.len()
        invariant
            i <= t.len(),
            v@ == start + t@.take(i as int),
        decreases t.len() - i,
    {
        v.push(t[i]);
        assert(start + t@.take(i + 1) =~= (start + t@.take(i as int)).push(t@[i as int]));
        i += 1;
    }
    assert(t@.take(t.len() as int) =~= t@);
}

/// The characters of a string slice, in order.
pub fn chars_of(s: &str) -> (v: Vec<char>)
    ensures
        v@ == s@,
{
    let mut v: Vec<char> = Vec::new();
    for c in it: s.chars()
        invariant
            v@ == it.seq().take(it.index() as int),
    {
        v.push(c);
    }
    v
}

/// Appends one character to a string: `String::push`.
#[verifier::external_body]
pub(crate) fn push_char(s: &mut String, c: char)
    ensures
        final(s)@ == old(s)@.push(c),
{
    s.push(c);
}

/// A string holding the given characters.
pub fn string_of(v: &[char]) -> (s: String)
    ensures
        s@ == v@,
{
    let mut s = String::new();
    let mut i: usize = 0;
    while i < v.len()
        invariant
            i <= v.len(),
            s@ == v@.take(i as int),
        decreases v.len() - i,
    {
        push_char(&mut s, v[i]);
        assert(v@.take(i as int).push(v@[i as int]) =~= v@.take(i + 1));
        i += 1;
    }
    assert(v@.take(v.len() as int) =~= v@);
    s
}

/// `str::trim`, as a new string.
pub fn trim_str(s: &str) -> (r: String)
    ensures
        r@ == trim(s@),
{
    let v = chars_of(s);
    let t = trim_chars(v.as_slice(), CharClass::Whitespace);
    string_of(t.as_slice())
}

// ── Fields ─────────────────────────────────────────────────────────────────

/// `word` holds exactly the characters that `sep` does not.
pub open spec fn complementary(sep: CharClass, word: CharClass) -> bool {
    forall|c: char| in_class(word, c) == !in_class(sep, c)
}

/// The maximal runs of `word` characters, skipping the `sep` characters
/// between them: with complementary classes, a split at `sep` with the
/// empty pieces left out.
pub open spec fn fields(s: Seq<char>, sep: CharClass, word: CharClass) -> Seq<Seq<char>>
    decreases s.len(),
{
    if s.len() == 0 {
        seq![]
    } else {
        let n = lead_len(s, word);
        proof {
            lemma_lead_len_bound(s, word);
        }
        if in_class(sep, s[0]) || n == 0 {
            fields(s.drop_first(), sep, word)
        } else {
            seq![s.take(n as int)] + fields(s.skip(n as int), sep, word)
        }
    }
}

/// `fields`, as character vectors.
pub fn fields_of(s: &[char], sep: CharClass, word: CharClass) -> (out: Vec<Vec<char>>)
    requires
        complementary(sep, word),
    ensures
        views(out@) == fields(s@, sep, word),
{
    let mut out: Vec<Vec<char>> = Vec::new();
    let mut pos: usize = 0;
    assert(s@.skip(0) =~= s@);
    while pos < s.len()
        invariant
            pos <= s.len(),
            complementary(sep, word),
            fields(s@, sep, word) == views(out@) + fields(s@.skip(pos as int), sep, word),
        decreases s.len() - pos,
    {
        let ghost rest = s@.skip(pos as int);
        proof {
            lemma_lead_len_bound(rest, word);
            assert(rest[0] == s@[pos as int]);
        }
        if class_contains(sep, s[pos]) {
            assert(rest.drop_first() =~= s@.skip(pos + 1));
            pos += 1;
        } else {
            let mut j = pos + 1;
            while j < s.len() && class_contains(word, s[j])
                invariant
                    pos < j <= s.len(),
                    complementary(sep, word),
                    !in_class(sep, s@[pos as int]),
                    forall|m: int| pos < m < j ==> in_class(word, #[trigger] s@[m]),
                decreases s.len() - j,
            {
                j += 1;
            }
            proof {
                assert(in_class(word, s@[pos as int]));
                assert forall|m: int| 0 <= m < j - pos implies in_class(word, #[trigger] rest[m]) by {
                    assert(rest[m] == s@[pos + m]);
                }
                if j < s.len() {
                    assert(rest[j - pos] == s@[j as int]);
                }
                lemma_lead_len(rest, word, j - pos);
                assert(rest.take(j - pos) =~= s@.subrange(pos as int, j as int));
                assert(rest.skip(j - pos) =~= s@.skip(j as int));
            }
            let w = slice_chars(s, pos, j);
            let ghost prev = out@;
            out.push(w);
            proof {
                assert(views(out@) =~= views(prev) + seq![w@]);
            }
            pos = j;
        }
    }
    proof {
        assert(s@.skip(pos as int) =~= Seq::<char>::empty());
        assert(views(out@) + Seq::<Seq<char>>::empty() =~= views(out@));
    }
    out
}

/// Every character of every field is a `word` character.
pub proof fn lemma_fields_word(s: Seq<char>, sep: CharClass, word: CharClass)
    ensures
        forall|j: int, k: int|
            0 <= j < fields(s, sep, word).len() && 0 <= k < fields(s, sep, word)[j].len()
                ==> in_class(word, #[trigger] fields(s, sep, word)[j][k]),
    decreases s.len(),
{
    if s.len() > 0 {
        let n = lead_len(s, word);
        lemma_lead_len_bound(s, word);
        if in_class(sep, s[0]) || n == 0 {
            lemma_fields_word(s.drop_first(), sep, word);
            assert(fields(s, sep, word) == fields(s.drop_first(), sep, word));
        } else {
            lemma_fields_word(s.skip(n as int), sep, word);
            let fs = fields(s, sep, word);
            assert forall|j: int, k: int|
                0 <= j < fs.len() && 0 <= k < fs[j].len() implies in_class(word, #[trigger] fs[j][k]) by {
                if j == 0 {
                    assert(fs[0] == s.take(n as int));
                    assert(fs[0][k] == s[k]);
                } else {
                    assert(fs[j] == fields(s.skip(n as int), sep, word)[j - 1]);
                }
            }
        }
    }
}

// ── Numbers ────────────────────────────────────────────────────────────────

pub open spec fn digit_char(d: nat) -> char {
    if d == 0 {
        '0'
    } else if d == 1 {
        '1'
    } else if d == 2 {
        '2'
    } else if d == 3 {
        '3'
    } else if d == 4 {
        '4'
    } else if d == 5 {
        '5'
    } else if d == 6 {
        '6'
    } else if d == 7 {
        '7'
    } else if d == 8 {
        '8'
    } else {
        '9'
    }
}

/// The decimal digits of `n`, as `Display` writes an unsigned integer.
pub open spec fn decimal(n: nat) -> Seq<char>
    decreases n,
{
    if n < 10 {
        seq![digit_char(n)]
    } else {
        decimal(n / 10).push(digit_char(n % 10))
    }
}

fn digit_of(d: u64) -> (c: char)
    requires
        d < 10,
    ensures
        c == digit_char(d as nat),
{
    if d == 0 {
        '0'
    } else if d == 1 {
        '1'
    } else if d == 2 {
        '2'
    } else if d == 3 {
        '3'
    } else if d == 4 {
        '4'
    } else if d == 5 {
        '5'
    } else if d == 6 {
        '6'
    } else if d == 7 {
        '7'
    } else if d == 8 {
        '8'
    } else {
        '9'
    }
}

/// The decimal digits of `n`.
pub fn decimal_chars(n: u64) -> (v: Vec<char>)
    ensures
        v@ == decimal(n as nat),
    decreases n,
{
    if n < 10 {
        let mut v: Vec<char> = Vec::new();
        v.push(digit_of(n));
        assert(v@ =~= seq![digit_char(n as nat)]);
        v
    } else {
        let mut v = decimal_chars(n / 10);
        v.push(digit_of(n % 10));
        v
    }
}

// ── Case ───────────────────────────────────────────────────────────────────

/// An ASCII character.
pub open spec fn is_ascii_char(c: char) -> bool {
    c <= '\u{7f}'
}

/// One of `A` to `Z`.
pub open spec fn is_ascii_upper(c: char) -> bool {
    'A' <= c && c <= 'Z'
}

/// An ASCII character that is not one of `A` to `Z`.
pub open spec fn is_ascii_lower_char(c: char) -> bool {
    is_ascii_char(c) && !is_ascii_upper(c)
}

/// Every character of `s` satisfies `p`.
pub open spec fn all_chars(s: Seq<char>, p: spec_fn(char) -> bool) -> bool {
    forall|i: int| 0 <= i < s.len() ==> p(#[trigger] s[i])
}

/// Every character of `s` is ASCII.
pub open spec fn all_ascii(s: Seq<char>) -> bool {
    all_chars(s, |c: char| is_ascii_char(c))
}

/// `A` to `Z` mapped to `a` to `z`; every other character kept.
pub open spec fn ascii_lower_char(c: char) -> char {
    if is_ascii_upper(c) {
        ((c as u32) + 32) as char
    } else {
        c
    }
}

/// The text with `A` to `Z` mapped to `a` to `z`.
pub open spec fn ascii_lower(s: Seq<char>) -> Seq<char> {
    s.map_values(|c: char| ascii_lower_char(c))
}

/// Lower-casing ASCII text as ASCII does leaves only ASCII characters that
/// are not `A` to `Z`.
pub proof fn lemma_ascii_lower_is_lower(s: Seq<char>)
    requires
        all_ascii(s),
    ensures
        all_chars(ascii_lower(s), |c: char| is_ascii_lower_char(c)),
{
    assert forall|i: int| 0 <= i < ascii_lower(s).len() implies is_ascii_lower_char(
        #[trigger] ascii_lower(s)[i],
    ) by {
        assert(is_ascii_char(s[i]));
    }
}

/// Text without `A` to `Z` is its own ASCII lower-casing.
pub proof fn lemma_ascii_lower_fixed(s: Seq<char>)
    requires
        all_chars(s, |c: char| !is_ascii_upper(c)),
    ensures
        ascii_lower(s) == s,
{
    assert forall|i: int| 0 <= i < s.len() implies ascii_lower(s)[i] == s[i] by {
        assert(!is_ascii_upper(s[i]));
    }
    assert(ascii_lower(s) =~= s);
}

/// Trimming keeps a property of every character.
pub proof fn lemma_trim_by_chars(s: Seq<char>, k: CharClass, p: spec_fn(char) -> bool)
    requires
        all_chars(s, p),
    ensures
        all_chars(trim_by(s, k), p),
{
    let a = lead_len(s, k);
    lemma_lead_len_bound(s, k);
    let u = s.skip(a as int);
    let b = trail_len(u, k);
    lemma_trail_len_bound(u, k);
    assert(trim_by(s, k) =~= s.subrange(a as int, s.len() - b));
    assert forall|i: int| 0 <= i < trim_by(s, k).len() implies p(#[trigger] trim_by(s, k)[i]) by {
        assert(trim_by(s, k)[i] == s[a + i]);
    }
}

/// The fields of a text keep a property of every character.
pub proof fn lemma_fields_chars(s: Seq<char>, sep: CharClass, word: CharClass, p: spec_fn(char) -> bool)
    requires
        all_chars(s, p),
    ensures
        forall|j: int| 0 <= j < fields(s, sep, word).len() ==> all_chars(#[trigger] fields(s, sep, word)[j], p),
    decreases s.len(),
{
    if s.len() > 0 {
        let n = lead_len(s, word);
        lemma_lead_len_bound(s, word);
        if in_class(sep, s[0]) || n == 0 {
            lemma_fields_chars(s.drop_first(), sep, word, p);
            assert(fields(s, sep, word) == fields(s.drop_first(), sep, word));
        } else {
            lemma_fields_chars(s.skip(n as int), sep, word, p);
            let fs = fields(s, sep, word);
            assert forall|j: int| 0 <= j < fs.len() implies all_chars(#[trigger] fs[j], p) by {
                if j == 0 {
                    assert(fs[0] == s.take(n as int));
                    assert forall|k: int| 0 <= k < fs[0].len() implies p(#[trigger] fs[0][k]) by {
                        assert(fs[0][k] == s[k]);
                    }
                } else {
                    assert(fs[j] == fields(s.skip(n as int), sep, word)[j - 1]);
                }
            }
        }
    }
}

/// A join keeps a property that every word and the separator have.
pub proof fn lemma_join_chars(ws: Seq<Seq<char>>, sep: Seq<char>, p: spec_fn(char) -> bool)
    requires
        forall|j: int| 0 <= j < ws.len() ==> all_chars(#[trigger] ws[j], p),
        all_chars(sep, p),
    ensures
        all_chars(join(ws, sep), p),
    decreases ws.len(),
{
    if ws.len() > 1 {
        let rest = ws.drop_first();
        assert forall|j: int| 0 <= j < rest.len() implies all_chars(#[trigger] rest[j], p) by {
            assert(rest[j] == ws[j + 1]);
        }
        lemma_join_chars(rest, sep, p);
        let w0 = ws[0];
        assert(all_chars(w0, p));
        let jn = join(ws, sep);
        let jr = join(rest, sep);
        assert(jn == w0 + sep + jr);
        assert forall|i: int| 0 <= i < jn.len() implies p(#[trigger] jn[i]) by {
            if i < w0.len() {
                assert(jn[i] == w0[i]);
            } else if i < w0.len() + sep.len() {
                assert(jn[i] == sep[i - w0.len()]);
            } else {
                assert(jn[i] == jr[i - w0.len() - sep.len()]);
            }
        }
    } else if ws.len() == 1 {
        assert(all_chars(ws[0], p));
    }
}

/// Names what `str::to_lowercase` gives: the text lowercased by the
/// Unicode `Lowercase` mapping of std's tables, which can map one character
/// to several and lowercases a capital sigma at the end of a word to the
/// final form `ς`.
pub uninterp spec fn str_lowercase(s: Seq<char>) -> Seq<char>;

/// `str::to_lowercase`; on ASCII text, as std documents, it maps `A` to
/// `Z` to `a` to `z` and keeps every other character.
#[verifier::external_body]
pub(crate) fn to_lowercase(s: &str) -> (r: String)
    ensures
        r@ == str_lowercase(s@),
        all_ascii(s@) ==> r@ == ascii_lower(s@),
{
    s.to_lowercase()
}

} // verus!

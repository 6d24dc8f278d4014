//! Stable sorting by a key, as `slice::sort_by` does with a total order.
use vstd::prelude::*;

verus! {

/// A key type with a total preorder, compared at run time by `le`.
pub trait SortKey: Sized {
    spec fn key_le(self, other: Self) -> bool;

    proof fn lemma_key_total(a: Self, b: Self)
        ensures
            a.key_le(b) || b.key_le(a),
    ;

    proof fn lemma_key_trans(a: Self, b: Self, c: Self)
        requires
            a.key_le(b),
            b.key_le(c),
        ensures
            a.key_le(c),
    ;

    fn le(&self, other: &Self) -> (b: bool)
        ensures
            b == self.key_le(*other),
    ;
}

/// Lexicographic order of character sequences, which is the order of
/// `String`'s `Ord` (UTF-8 byte order agrees with code-point order).
pub open spec fn text_le(a: Seq<char>, b: Seq<char>) -> bool
    decreases a.len(),
{
    if a.len() == 0 {
        true
    } else if b.len() == 0 {
        false
    } else if a[0] != b[0] {
        a[0] < b[0]
    } else {
        text_le(a.drop_first(), b.drop_first())
    }
}

pub proof fn lemma_text_total(a: Seq<char>, b: Seq<char>)
    ensures
        text_le(a, b) || text_le(b, a),
    decreases a.len(),
{
    if a.len() > 0 && b.len() > 0 && a[0] == b[0] {
        lemma_text_total(a.drop_first(), b.drop_first());
    }
}

pub proof fn lemma_text_trans(a: Seq<char>, b: Seq<char>, c: Seq<char>)
    requires
        text_le(a, b),
        text_le(b, c),
    ensures
        text_le(a, c),
    decreases a.len(),
{
    if a.len() > 0 && b.len() > 0 && c.len() > 0 && a[0] == b[0] && b[0] == c[0] {
        lemma_text_trans(a.drop_first(), b.drop_first(), c.drop_first());
    }
}

/// `a <= b` for character sequences.
pub fn text_le_exec(a: &[char], b: &[char]) -> (r: bool)
    ensures
        r == text_le(a@, b@),
{
    let mut i: usize = 0;
    assert(a@.skip(0) =~= a@ && b@.skip(0) =~= b@);
    while i < a.len() && i < b.len() && a[i] == b[i]
        invariant
            i <= a.len(),
            i <= b.len(),
            text_le(a@, b@) == text_le(a@.skip(i as int), b@.skip(i as int)),
        decreases a.len() - i,
    {
        proof {
            assert(a@.skip(i as int).drop_first() =~= a@.skip(i + 1));
            assert(b@.skip(i as int).drop_first() =~= b@.skip(i + 1));
        }
        i += 1;
    }
    if i == a.len() {
        true
    } else if i == b.len() {
        false
    } else {
        assert(a@.skip(i as int)[0] == a@[i as int]);
        assert(b@.skip(i as int)[0] == b@[i as int]);
        a[i] < b[i]
    }
}

impl SortKey for Vec<char> {
    open spec fn key_le(self, other: Self) -> bool {
        text_le(self@, other@)
    }

    proof fn lemma_key_total(a: Self, b: Self) {
        lemma_text_total(a@, b@);
    }

    proof fn lemma_key_trans(a: Self, b: Self, c: Self) {
        lemma_text_trans(a@, b@, c@);
    }

    fn le(&self, other: &Self) -> (b: bool) {
        text_le_exec(self.as_slice(), other.as_slice())
    }
}

impl SortKey for u64 {
    open spec fn key_le(self, other: Self) -> bool {
        self <= other
    }

    proof fn lemma_key_total(a: Self, b: Self) {
    }

    proof fn lemma_key_trans(a: Self, b: Self, c: Self) {
    }

    fn le(&self, other: &Self) -> (b: bool) {
        *self <= *other
    }
}

/// A key ordered the other way round (`b.cmp(a)` in a comparator).
pub struct Desc<K>(pub K);

impl<K: SortKey> SortKey for Desc<K> {
    open spec fn key_le(self, other: Self) -> bool {
        other.0.key_le(self.0)
    }

    proof fn lemma_key_total(a: Self, b: Self) {
        K::lemma_key_total(a.0, b.0);
    }

    proof fn lemma_key_trans(a: Self, b: Self, c: Self) {
        K::lemma_key_trans(c.0, b.0, a.0);
    }

    fn le(&self, other: &Self) -> (b: bool) {
        other.0.le(&self.0)
    }
}

/// Two keys ordered by the first, then by the second (a tuple's `Ord`).
pub struct Lex<A, B>(pub A, pub B);

impl<A: SortKey, B: SortKey> SortKey for Lex<A, B> {
    open spec fn key_le(self, other: Self) -> bool {
        self.0.key_le(other.0) && (!other.0.key_le(self.0) || self.1.key_le(other.1))
    }

    proof fn lemma_key_total(a: Self, b: Self) {
        A::lemma_key_total(a.0, b.0);
        B::lemma_key_total(a.1, b.1);
    }

    proof fn lemma_key_trans(a: Self, b: Self, c: Self) {
        A::lemma_key_trans(a.0, b.0, c.0);
        if c.0.key_le(a.0) {
            A::lemma_key_trans(c.0, a.0, b.0);
            A::lemma_key_trans(b.0, c.0, a.0);
            B::lemma_key_trans(a.1, b.1, c.1);
        }
    }

    fn le(&self, other: &Self) -> (b: bool) {
        self.0.le(&other.0) && (!other.0.le(&self.0) || self.1.le(&other.1))
    }
}

/// Inserts `x` after every element `e` with `le(e, x)`, scanning from the
/// back: the insertion step of a stable insertion sort.
pub open spec fn insert_sorted<T>(s: Seq<T>, x: T, le: spec_fn(T, T) -> bool) -> Seq<T>
    decreases s.len(),
{
    if s.len() == 0 {
        seq![x]
    } else if le(s.last(), x) {
        s.push(x)
    } else {
        insert_sorted(s.drop_last(), x, le).push(s.last())
    }
}

/// Stable sort under the total preorder `le`, as `slice::sort_by` computes
/// it: elements are inserted in turn, each after the ones not greater.
pub open spec fn sort_by<T>(s: Seq<T>, le: spec_fn(T, T) -> bool) -> Seq<T>
    decreases s.len(),
{
    if s.len() == 0 {
        seq![]
    } else {
        insert_sorted(sort_by(s.drop_last(), le), s.last(), le)
    }
}

/// `le` is a total preorder.
pub open spec fn total_preorder<T>(le: spec_fn(T, T) -> bool) -> bool {
    &&& forall|a: T, b: T| #[trigger] le(a, b) || le(b, a)
    &&& forall|a: T, b: T, c: T| #[trigger] le(a, b) && #[trigger] le(b, c) ==> le(a, c)
}

pub open spec fn sorted_by<T>(s: Seq<T>, le: spec_fn(T, T) -> bool) -> bool {
    forall|i: int, j: int| 0 <= i < j < s.len() ==> le(#[trigger] s[i], #[trigger] s[j])
}

/// The order of pairs by their keys.
pub open spec fn key_order<K: SortKey, T>() -> spec_fn((K, T), (K, T)) -> bool {
    |a: (K, T), b: (K, T)| a.0.key_le(b.0)
}

pub proof fn lemma_key_order_total<K: SortKey, T>()
    ensures
        total_preorder(key_order::<K, T>()),
{
    let le = key_order::<K, T>();
    assert forall|a: (K, T), b: (K, T)| #[trigger] le(a, b) || le(b, a) by {
        K::lemma_key_total(a.0, b.0);
    }
    assert forall|a: (K, T), b: (K, T), c: (K, T)| #[trigger] le(a, b) && #[trigger] le(b, c)
        implies le(a, c) by {
        K::lemma_key_trans(a.0, b.0, c.0);
    }
}

pub proof fn lemma_insert_sorted<T>(s: Seq<T>, x: T, le: spec_fn(T, T) -> bool)
    requires
        total_preorder(le),
        sorted_by(s, le),
    ensures
        sorted_by(insert_sorted(s, x, le), le),
        insert_sorted(s, x, le).len() == s.len() + 1,
        insert_sorted(s, x, le).to_multiset() == s.to_multiset().insert(x),
    decreases s.len(),
{
    broadcast use vstd::seq_lib::group_to_multiset_ensures;

    if s.len() == 0 {
        assert(seq![x] =~= Seq::<T>::empty().push(x));
    } else if le(s.last(), x) {
        let r = s.push(x);
        assert forall|i: int, j: int| 0 <= i < j < r.len() implies le(
            #[trigger] r[i],
            #[trigger] r[j],
        ) by {
            if j == s.len() && i < s.len() - 1 {
                assert(le(s[i], s[s.len() - 1]));
                assert(le(s[i], s.last()) && le(s.last(), x));
            }
        }
    } else {
        let p = s.drop_last();
        assert(sorted_by(p, le));
        lemma_insert_sorted(p, x, le);
        let q = insert_sorted(p, x, le);
        let r = q.push(s.last());
        assert(le(s.last(), x) || le(x, s.last()));
        assert forall|i: int, j: int| 0 <= i < j < r.len() implies le(
            #[trigger] r[i],
            #[trigger] r[j],
        ) by {
            if j == q.len() {
                assert(q.to_multiset().count(q[i]) > 0);
                if q[i] != x {
                    assert(p.to_multiset().count(q[i]) > 0);
                    assert(p.contains(q[i]));
                    let k = choose|k: int| 0 <= k < p.len() && p[k] == q[i];
                    assert(s[k] == p[k]);
                    assert(le(s[k], s[s.len() - 1]));
                }
            }
        }
        assert(p.push(s.last()) =~= s);
        assert(s.to_multiset() == p.to_multiset().insert(s.last()));
    }
}

/// Law of the sort: the result is ordered and is a permutation of the input.
pub proof fn lemma_sort_by<T>(s: Seq<T>, le: spec_fn(T, T) -> bool)
    requires
        total_preorder(le),
    ensures
        sorted_by(sort_by(s, le), le),
        sort_by(s, le).len() == s.len(),
        sort_by(s, le).to_multiset() == s.to_multiset(),
    decreases s.len(),
{
    broadcast use vstd::seq_lib::group_to_multiset_ensures;

    if s.len() > 0 {
        lemma_sort_by(s.drop_last(), le);
        lemma_insert_sorted(sort_by(s.drop_last(), le), s.last(), le);
        assert(s.drop_last().push(s.last()) =~= s);
    }
}

pub proof fn lemma_insert_len<T>(s: Seq<T>, x: T, le: spec_fn(T, T) -> bool)
    ensures
        insert_sorted(s, x, le).len() == s.len() + 1,
    decreases s.len(),
{
    if s.len() > 0 && !le(s.last(), x) {
        lemma_insert_len(s.drop_last(), x, le);
    }
}

/// Sorting keeps the length.
pub proof fn lemma_sort_len<T>(s: Seq<T>, le: spec_fn(T, T) -> bool)
    ensures
        sort_by(s, le).len() == s.len(),
    decreases s.len(),
{
    if s.len() > 0 {
        lemma_sort_len(s.drop_last(), le);
        lemma_insert_len(sort_by(s.drop_last(), le), s.last(), le);
    }
}

/// The text orders are total preorders.
pub proof fn lemma_text_order_total<T>(desc: bool)
    ensures
        total_preorder(text_order::<T>(desc)),
{
    let le = text_order::<T>(desc);
    assert forall|a: (Seq<char>, T), b: (Seq<char>, T)| #[trigger] le(a, b) || le(b, a) by {
        lemma_text_total(a.0, b.0);
    }
    assert forall|a: (Seq<char>, T), b: (Seq<char>, T), c: (Seq<char>, T)|
        #[trigger] le(a, b) && #[trigger] le(b, c) implies le(a, c) by {
        if desc {
            lemma_text_trans(c.0, b.0, a.0);
        } else {
            lemma_text_trans(a.0, b.0, c.0);
        }
    }
}

/// Sorting commutes with a map that keeps the order of the elements.
pub proof fn lemma_sort_map<T, U>(
    s: Seq<T>,
    f: spec_fn(T) -> U,
    le1: spec_fn(T, T) -> bool,
    le2: spec_fn(U, U) -> bool,
)
    requires
        forall|a: T, b: T| s.contains(a) && s.contains(b) ==> le1(a, b) == le2(f(a), f(b)),
    ensures
        sort_by(s, le1).map_values(f) == sort_by(s.map_values(f), le2),
    decreases s.len(),
{
    if s.len() > 0 {
        let p = s.drop_last();
        assert forall|a: T, b: T| p.contains(a) && p.contains(b) implies le1(a, b) == le2(
            f(a),
            f(b),
        ) by {
            let i = choose|i: int| 0 <= i < p.len() && p[i] == a;
            let j = choose|j: int| 0 <= j < p.len() && p[j] == b;
            assert(p[i] == s[i] && p[j] == s[j]);
            assert(s.contains(a) && s.contains(b));
        }
        lemma_sort_map(p, f, le1, le2);
        assert(p.map_values(f) =~= s.map_values(f).drop_last());
        lemma_sort_contains(p, le1);
        assert(s.contains(s.last())) by {
            assert(s[s.len() - 1] == s.last());
        }
        assert forall|a: T| sort_by(p, le1).contains(a) implies s.contains(a) by {
            assert(p.contains(a));
            let i = choose|i: int| 0 <= i < p.len() && p[i] == a;
            assert(p[i] == s[i]);
        }
        lemma_insert_map(sort_by(p, le1), s.last(), f, le1, le2, s);
    }
}

pub proof fn lemma_sort_contains<T>(s: Seq<T>, le: spec_fn(T, T) -> bool)
    ensures
        forall|a: T| sort_by(s, le).contains(a) ==> s.contains(a),
    decreases s.len(),
{
    if s.len() > 0 {
        let p = s.drop_last();
        lemma_sort_contains(p, le);
        lemma_insert_contains(sort_by(p, le), s.last(), le);
        assert(sort_by(s, le) == insert_sorted(sort_by(p, le), s.last(), le));
        assert forall|a: T| sort_by(s, le).contains(a) implies s.contains(a) by {
            assert(insert_sorted(sort_by(p, le), s.last(), le).contains(a));
            if a == s.last() {
                assert(s[s.len() - 1] == a);
            } else {
                assert(sort_by(p, le).contains(a));
                assert(p.contains(a));
                let i = choose|i: int| 0 <= i < p.len() && p[i] == a;
                assert(p[i] == s[i]);
                assert(s[i] == a);
            }
        }
    }
}

pub proof fn lemma_insert_contains<T>(s: Seq<T>, x: T, le: spec_fn(T, T) -> bool)
    ensures
        forall|a: T| insert_sorted(s, x, le).contains(a) ==> a == x || s.contains(a),
    decreases s.len(),
{
    if s.len() == 0 {
    } else if le(s.last(), x) {
        assert(insert_sorted(s, x, le) == s.push(x));
        assert forall|a: T| insert_sorted(s, x, le).contains(a) implies a == x || s.contains(a) by {
            assert(s.push(x).contains(a));
            let i = choose|i: int| 0 <= i < s.len() + 1 && s.push(x)[i] == a;
            if i < s.len() {
                assert(s[i] == a);
            }
        }
    } else {
        let p = s.drop_last();
        lemma_insert_contains(p, x, le);
        assert(insert_sorted(s, x, le) == insert_sorted(p, x, le).push(s.last()));
        assert forall|a: T| insert_sorted(s, x, le).contains(a) implies a == x || s.contains(a) by {
            let q = insert_sorted(p, x, le);
            assert(q.push(s.last()).contains(a));
            let i = choose|i: int| 0 <= i < q.len() + 1 && q.push(s.last())[i] == a;
            if i == q.len() {
                assert(s[s.len() - 1] == a);
            } else {
                assert(q[i] == a);
                assert(q.contains(a));
                if a != x {
                    assert(p.contains(a));
                    let j = choose|j: int| 0 <= j < p.len() && p[j] == a;
                    assert(p[j] == s[j]);
                    assert(s[j] == a);
                }
            }
        }
    }
}

pub proof fn lemma_insert_map<T, U>(
    s: Seq<T>,
    x: T,
    f: spec_fn(T) -> U,
    le1: spec_fn(T, T) -> bool,
    le2: spec_fn(U, U) -> bool,
    all: Seq<T>,
)
    requires
        forall|a: T, b: T| all.contains(a) && all.contains(b) ==> le1(a, b) == le2(f(a), f(b)),
        forall|a: T| s.contains(a) ==> all.contains(a),
        all.contains(x),
    ensures
        insert_sorted(s, x, le1).map_values(f) == insert_sorted(s.map_values(f), f(x), le2),
    decreases s.len(),
{
    if s.len() == 0 {
        assert(insert_sorted(s, x, le1).map_values(f) =~= seq![f(x)]);
    } else {
        assert(s.contains(s.last())) by {
            assert(s[s.len() - 1] == s.last());
        }
        assert(s.map_values(f).last() == f(s.last()));
        if le1(s.last(), x) {
            assert(insert_sorted(s, x, le1).map_values(f) =~= s.map_values(f).push(f(x)));
        } else {
            let p = s.drop_last();
            assert forall|a: T| p.contains(a) implies all.contains(a) by {
                let i = choose|i: int| 0 <= i < p.len() && p[i] == a;
                assert(s[i] == a);
            }
            lemma_insert_map(p, x, f, le1, le2, all);
            assert(p.map_values(f) =~= s.map_values(f).drop_last());
            assert(insert_sorted(s, x, le1).map_values(f) =~= insert_sorted(p, x, le1).map_values(
                f,
            ).push(f(s.last())));
        }
    }
}

/// Inserts `x` into the sorted vector `v`, after all elements with a key
/// not greater than its own.
fn insert_into<K: SortKey, T>(v: &mut Vec<(K, T)>, x: (K, T))
    ensures
        final(v)@ == insert_sorted(old(v)@, x, key_order::<K, T>()),
    decreases old(v)@.len(),
{
    if v.len() == 0 {
        v.push(x);
        assert(v@ =~= seq![x]);
    } else {
        let n = v.len();
        if v[n - 1].0.le(&x.0) {
            v.push(x);
        } else {
            let last = v.pop().unwrap();
            insert_into(v, x);
            v.push(last);
        }
    }
}

/// Stable sort of key/value pairs by key.
pub fn sort_pairs<K: SortKey, T>(v: Vec<(K, T)>) -> (r: Vec<(K, T)>)
    ensures
        r@ == sort_by(v@, key_order::<K, T>()),
{
    let ghost all = v@;
    let mut rest = v;
    let mut out: Vec<(K, T)> = Vec::new();
    while rest.len() > 0
        invariant
            rest@.len() <= all.len(),
            rest@ == all.skip(all.len() - rest@.len()),
            out@ == sort_by(all.take(all.len() - rest@.len()), key_order::<K, T>()),
        decreases rest@.len(),
    {
        let ghost k = all.len() - rest@.len();
        let x = rest.remove(0);
        proof {
            assert(x == all[k]);
            assert(all.take(k + 1).drop_last() =~= all.take(k));
            assert(all.take(k + 1).last() == all[k]);
            assert(rest@ =~= all.skip(k + 1));
        }
        insert_into(&mut out, x);
    }
    assert(all.take(all.len() as int) =~= all);
    out
}

/// The second components of the pairs.
pub fn seconds<K, T>(v: Vec<(K, T)>) -> (r: Vec<T>)
    ensures
        r@ == v@.map_values(|p: (K, T)| p.1),
{
    let ghost all = v@;
    let mut rest = v;
    let mut out: Vec<T> = Vec::new();
    while rest.len() > 0
        invariant
            rest@.len() <= all.len(),
            rest@ == all.skip(all.len() - rest@.len()),
            out@ == all.take(all.len() - rest@.len()).map_values(|p: (K, T)| p.1),
        decreases rest@.len(),
    {
        let ghost k = all.len() - rest@.len();
        let x = rest.remove(0);
        out.push(x.1);
        proof {
            assert(rest@ =~= all.skip(k + 1));
            assert(out@ =~= all.take(k + 1).map_values(|p: (K, T)| p.1));
        }
    }
    assert(all.take(all.len() as int) =~= all);
    out
}

/// Sorting pairs by key and dropping the keys sorts the values by the
/// order the keys stand for.
pub proof fn lemma_sort_values<K: SortKey, T>(pairs: Seq<(K, T)>, le: spec_fn(T, T) -> bool)
    requires
        forall|i: int, j: int|
            0 <= i < pairs.len() && 0 <= j < pairs.len() ==> (#[trigger] pairs[i]).0.key_le(
                (#[trigger] pairs[j]).0,
            ) == le(pairs[i].1, pairs[j].1),
    ensures
        sort_by(pairs, key_order::<K, T>()).map_values(|p: (K, T)| p.1) == sort_by(
            pairs.map_values(|p: (K, T)| p.1),
            le,
        ),
{
    let f = |p: (K, T)| p.1;
    assert forall|a: (K, T), b: (K, T)| pairs.contains(a) && pairs.contains(b) implies (key_order::<
        K,
        T,
    >())(a, b) == le(f(a), f(b)) by {
        let i = choose|i: int| 0 <= i < pairs.len() && pairs[i] == a;
        let j = choose|j: int| 0 <= j < pairs.len() && pairs[j] == b;
    }
    lemma_sort_map(pairs, f, key_order::<K, T>(), le);
}

/// Order of keyed values by their text keys, ascending or descending.
pub open spec fn text_order<T>(desc: bool) -> spec_fn((Seq<char>, T), (Seq<char>, T)) -> bool {
    |a: (Seq<char>, T), b: (Seq<char>, T)|
        if desc {
            text_le(b.0, a.0)
        } else {
            text_le(a.0, b.0)
        }
}

/// The values of keyed pairs sorted by their keys.
pub open spec fn sorted_values<T>(s: Seq<(Seq<char>, T)>, desc: bool) -> Seq<T> {
    sort_by(s, text_order(desc)).map_values(|p: (Seq<char>, T)| p.1)
}

/// `r` is ordered by `key`: ascending, or descending for `desc`.
pub open spec fn ordered_by<T>(r: Seq<T>, desc: bool, key: spec_fn(T) -> Seq<char>) -> bool {
    forall|i: int, j: int|
        0 <= i < j < r.len() ==> if desc {
            text_le(key(#[trigger] r[j]), key(#[trigger] r[i]))
        } else {
            text_le(key(r[i]), key(r[j]))
        }
}

/// Law of sorting by text keys: when each pair's key is `key` of its
/// value, the values come out ordered by `key`, none lost or added.
pub proof fn lemma_sorted_values<T>(s: Seq<(Seq<char>, T)>, desc: bool, key: spec_fn(T) -> Seq<char>)
    requires
        forall|i: int| 0 <= i < s.len() ==> (#[trigger] s[i]).0 == key(s[i].1),
    ensures
        sorted_values(s, desc).len() == s.len(),
        ordered_by(sorted_values(s, desc), desc, key),
        sort_by(s, text_order(desc)).to_multiset() == s.to_multiset(),
{
    let le = text_order::<T>(desc);
    lemma_text_order_total::<T>(desc);
    lemma_sort_by(s, le);
    lemma_sort_contains(s, le);
    let q = sort_by(s, le);
    let r = sorted_values(s, desc);
    assert forall|i: int, j: int| 0 <= i < j < r.len() implies if desc {
        text_le(key(#[trigger] r[j]), key(#[trigger] r[i]))
    } else {
        text_le(key(r[i]), key(r[j]))
    } by {
        assert(r.len() == q.len());
        assert(le(q[i], q[j]));
        assert(q.contains(q[i]) && q.contains(q[j]));
        assert(s.contains(q[i]) && s.contains(q[j]));
        let a = choose|k: int| 0 <= k < s.len() && s[k] == q[i];
        let b = choose|k: int| 0 <= k < s.len() && s[k] == q[j];
        assert(s[a].0 == key(s[a].1) && s[b].0 == key(s[b].1));
        assert(r[i] == q[i].1 && r[j] == q[j].1);
    }
}

/// Sorts values by text keys (`keys[i]` belongs to `items[i]`).
pub fn sort_by_text_keys<T>(keys: Vec<Vec<char>>, items: Vec<T>, desc: bool) -> (r: Vec<T>)
    requires
        keys.len() == items.len(),
    ensures
        r@ == sort_by(Seq::new(items@.len(), |i: int| (keys@[i]@, items@[i])), text_order(desc)).map_values(
            |p: (Seq<char>, T)| p.1,
        ),
{
    let ghost ks = keys@;
    let ghost its = items@;
    let ghost tagged = Seq::new(its.len(), |i: int| (ks[i]@, its[i]));
    let ghost le = text_order::<T>(desc);
    let mut ks_rest = keys;
    let mut it_rest = items;
    if desc {
        let mut pairs: Vec<(Desc<Vec<char>>, (Vec<char>, T))> = Vec::new();
        while it_rest.len() > 0
            invariant
                ks_rest.len() == it_rest.len(),
                ks.len() == its.len(),
                it_rest@.len() <= its.len(),
                ks_rest@ == ks.skip(its.len() - it_rest@.len()),
                it_rest@ == its.skip(its.len() - it_rest@.len()),
                pairs@.len() == its.len() - it_rest@.len(),
                forall|i: int|
                    0 <= i < pairs@.len() ==> (#[trigger] pairs@[i]).0.0@ == ks[i]@ && pairs@[i].1.0@
                        == ks[i]@ && pairs@[i].1.1 == its[i],
            decreases it_rest@.len(),
        {
            let ghost k = its.len() - it_rest@.len();
            assert(ks_rest@[0] == ks[k] && it_rest@[0] == its[k]);
            let key = ks_rest.remove(0);
            let item = it_rest.remove(0);
            let key2 = key.clone();
            pairs.push((Desc(key), (key2, item)));
            proof {
                assert(ks_rest@ =~= ks.skip(k + 1));
                assert(it_rest@ =~= its.skip(k + 1));
            }
        }
        let ghost pv = pairs@;
        let sorted = sort_pairs(pairs);
        let r = seconds(sorted);
        let mut out: Vec<T> = Vec::new();
        let mut rest = r;
        let ghost rv = rest@;
        proof {
            let g = |p: (Desc<Vec<char>>, (Vec<char>, T))| p.1;
            let h = |p: (Vec<char>, T)| (p.0@, p.1);
            let le1 = |a: (Vec<char>, T), b: (Vec<char>, T)| text_le(b.0@, a.0@);
            lemma_sort_values(pv, le1);
            lemma_sort_map(pv.map_values(g), h, le1, le);
            assert(pv.map_values(g).map_values(h) =~= tagged);
        }
        while rest.len() > 0
            invariant
                rest@.len() <= rv.len(),
                rest@ == rv.skip(rv.len() - rest@.len()),
                out@ == rv.take(rv.len() - rest@.len()).map_values(|p: (Vec<char>, T)| p.1),
            decreases rest@.len(),
        {
            let ghost k = rv.len() - rest@.len();
            let x = rest.remove(0);
            out.push(x.1);
            proof {
                assert(rest@ =~= rv.skip(k + 1));
                assert(out@ =~= rv.take(k + 1).map_values(|p: (Vec<char>, T)| p.1));
            }
        }
        proof {
            assert(rv.take(rv.len() as int) =~= rv);
            let h = |p: (Vec<char>, T)| (p.0@, p.1);
            assert(rv.map_values(|p: (Vec<char>, T)| p.1) =~= rv.map_values(h).map_values(
                |p: (Seq<char>, T)| p.1,
            ));
        }
        out
    } else {
        let mut pairs: Vec<(Vec<char>, (Vec<char>, T))> = Vec::new();
        while it_rest.len() > 0
            invariant
                ks_rest.len() == it_rest.len(),
                ks.len() == its.len(),
                it_rest@.len() <= its.len(),
                ks_rest@ == ks.skip(its.len() - it_rest@.len()),
                it_rest@ == its.skip(its.len() - it_rest@.len()),
                pairs@.len() == its.len() - it_rest@.len(),
                forall|i: int|
                    0 <= i < pairs@.len() ==> (#[trigger] pairs@[i]).0@ == ks[i]@ && pairs@[i].1.0@
                        == ks[i]@ && pairs@[i].1.1 == its[i],
            decreases it_rest@.len(),
        {
            let ghost k = its.len() - it_rest@.len();
            assert(ks_rest@[0] == ks[k] && it_rest@[0] == its[k]);
            let key = ks_rest.remove(0);
            let item = it_rest.remove(0);
            let key2 = key.clone();
            pairs.push((key, (key2, item)));
            proof {
                assert(ks_rest@ =~= ks.skip(k + 1));
                assert(it_rest@ =~= its.skip(k + 1));
            }
        }
        let ghost pv = pairs@;
        let sorted = sort_pairs(pairs);
        let r = seconds(sorted);
        let mut out: Vec<T> = Vec::new();
        let mut rest = r;
        let ghost rv = rest@;
        proof {
            let g = |p: (Vec<char>, (Vec<char>, T))| p.1;
            let h = |p: (Vec<char>, T)| (p.0@, p.1);
            let le1 = |a: (Vec<char>, T), b: (Vec<char>, T)| text_le(a.0@, b.0@);
            lemma_sort_values(pv, le1);
            lemma_sort_map(pv.map_values(g), h, le1, le);
            assert(pv.map_values(g).map_values(h) =~= tagged);
        }
        while rest.len() > 0
            invariant
                rest@.len() <= rv.len(),
                rest@ == rv.skip(rv.len() - rest@.len()),
                out@ == rv.take(rv.len() - rest@.len()).map_values(|p: (Vec<char>, T)| p.1),
            decreases rest@.len(),
        {
            let ghost k = rv.len() - rest@.len();
            let x = rest.remove(0);
            out.push(x.1);
            proof {
                assert(rest@ =~= rv.skip(k + 1));
                assert(out@ =~= rv.take(k + 1).map_values(|p: (Vec<char>, T)| p.1));
            }
        }
        proof {
            assert(rv.take(rv.len() as int) =~= rv);
            let h = |p: (Vec<char>, T)| (p.0@, p.1);
            assert(rv.map_values(|p: (Vec<char>, T)| p.1) =~= rv.map_values(h).map_values(
                |p: (Seq<char>, T)| p.1,
            ));
        }
        out
    }
}

proof fn lemma_insert_sorted_map<T, U>(s: Seq<T>, x: T, le: spec_fn(T, T) -> bool, f: spec_fn(T) -> U)
    ensures
        insert_sorted(s, x, le).map_values(f).to_multiset() == s.map_values(f).to_multiset().insert(
            f(x),
        ),
    decreases s.len(),
{
    broadcast use vstd::seq_lib::group_to_multiset_ensures;

    if s.len() == 0 {
        assert(seq![x].map_values(f) =~= Seq::<U>::empty().push(f(x)));
        assert(s.map_values(f) =~= Seq::<U>::empty());
    } else if le(s.last(), x) {
        assert(s.push(x).map_values(f) =~= s.map_values(f).push(f(x)));
    } else {
        let p = s.drop_last();
        lemma_insert_sorted_map(p, x, le, f);
        let q = insert_sorted(p, x, le);
        assert(q.push(s.last()).map_values(f) =~= q.map_values(f).push(f(s.last())));
        assert(s.map_values(f) =~= p.map_values(f).push(f(s.last())));
        let m = p.map_values(f).to_multiset();
        assert(m.insert(f(x)).insert(f(s.last())) =~= m.insert(f(s.last())).insert(f(x)));
    }
}

/// Sorting keeps, for any function of the items, the multiset of its
/// values.
pub proof fn lemma_sort_map_multiset<T, U>(s: Seq<T>, le: spec_fn(T, T) -> bool, f: spec_fn(T) -> U)
    ensures
        sort_by(s, le).map_values(f).to_multiset() == s.map_values(f).to_multiset(),
    decreases s.len(),
{
    broadcast use vstd::seq_lib::group_to_multiset_ensures;

    if s.len() == 0 {
        assert(sort_by(s, le).map_values(f) =~= Seq::<U>::empty());
        assert(s.map_values(f) =~= Seq::<U>::empty());
    } else {
        let p = s.drop_last();
        lemma_sort_map_multiset(p, le, f);
        lemma_insert_sorted_map(sort_by(p, le), s.last(), le, f);
        assert(s.map_values(f) =~= p.map_values(f).push(f(s.last())));
    }
}

/// A prefix holds no item more often than the whole.
pub proof fn lemma_take_multiset<T>(s: Seq<T>, m: int)
    requires
        0 <= m <= s.len(),
    ensures
        forall|x: T| #[trigger] s.take(m).to_multiset().count(x) <= s.to_multiset().count(x),
{
    broadcast use vstd::multiset::group_multiset_axioms;

    assert(s =~= s.take(m) + s.skip(m));
    vstd::seq_lib::lemma_multiset_commutative(s.take(m), s.skip(m));
}

/// Sorting keeps, for any function of the items, which values occur.
pub proof fn lemma_sort_map_contains<T, U>(s: Seq<T>, le: spec_fn(T, T) -> bool, f: spec_fn(T) -> U)
    ensures
        forall|x: U| #[trigger] sort_by(s, le).map_values(f).contains(x) <==> s.map_values(f).contains(x),
{
    lemma_sort_map_multiset(s, le, f);
    assert forall|x: U| #[trigger] sort_by(s, le).map_values(f).contains(x) <==> s.map_values(
        f,
    ).contains(x) by {
        vstd::seq_lib::to_multiset_contains(sort_by(s, le).map_values(f), x);
        vstd::seq_lib::to_multiset_contains(s.map_values(f), x);
    }
}

} // verus!

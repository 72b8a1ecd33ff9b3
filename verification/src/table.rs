//! Tables: sequences of entries with text keys.
//!
//! Two disciplines share the lookups. An *ordered* table keeps the order in which keys were
//! first written (the members of a JSON object); a *sorted* table keeps its keys in
//! lexicographic order (variables and outputs, whose listing has to be stable).
use crate::text::{chars_of, copy_text, same, views, Duplicate};
use vstd::prelude::*;

verus! {

/// The first position from `i` on whose entry has the key `k`, or the length.
pub open spec fn key_at<T>(s: Seq<(Seq<char>, T)>, k: Seq<char>, i: int) -> int
    decreases s.len() - i,
{
    if i >= s.len() {
        s.len() as int
    } else if s[i].0 == k {
        i
    } else {
        key_at(s, k, i + 1)
    }
}

/// What `key_at` finds.
pub proof fn lemma_key_at<T>(s: Seq<(Seq<char>, T)>, k: Seq<char>, i: int)
    requires
        0 <= i <= s.len(),
    ensures
        i <= key_at(s, k, i) <= s.len(),
        key_at(s, k, i) < s.len() ==> s[key_at(s, k, i)].0 == k,
        forall|j: int| i <= j < key_at(s, k, i) ==> (#[trigger] s[j]).0 != k,
    decreases s.len() - i,
{
    if i < s.len() && s[i].0 != k {
        lemma_key_at(s, k, i + 1);
    }
}

/// A position below which no entry has the key is where the search ends up.
pub proof fn lemma_key_at_is<T>(s: Seq<(Seq<char>, T)>, k: Seq<char>, i: int, j: int)
    requires
        0 <= i <= j <= s.len(),
        j < s.len() ==> s[j].0 == k,
        forall|m: int| i <= m < j ==> (#[trigger] s[m]).0 != k,
    ensures
        key_at(s, k, i) == j,
    decreases j - i,
{
    if i < j {
        assert(s[i].0 != k);
        lemma_key_at_is(s, k, i + 1, j);
    }
}

/// The value of a key.
pub open spec fn lookup<T>(s: Seq<(Seq<char>, T)>, k: Seq<char>) -> Option<T> {
    let i = key_at(s, k, 0);
    if i < s.len() {
        Some(s[i].1)
    } else {
        None
    }
}

/// Whether a key is in a table.
pub open spec fn has_key<T>(s: Seq<(Seq<char>, T)>, k: Seq<char>) -> bool {
    lookup(s, k) is Some
}

/// An ordered table with `k` set to `v`: in place if the key is there, else at the end.
pub open spec fn put<T>(s: Seq<(Seq<char>, T)>, k: Seq<char>, v: T) -> Seq<(Seq<char>, T)> {
    let i = key_at(s, k, 0);
    if i < s.len() {
        s.update(i, (k, v))
    } else {
        s.push((k, v))
    }
}

/// An ordered table without `k`: the last entry takes the place of the removed one.
pub open spec fn drop_key<T>(s: Seq<(Seq<char>, T)>, k: Seq<char>) -> Seq<(Seq<char>, T)> {
    let i = key_at(s, k, 0);
    if i < s.len() {
        s.update(i, s.last()).drop_last()
    } else {
        s
    }
}

/// No two entries have the same key.
pub open spec fn distinct<T>(s: Seq<(Seq<char>, T)>) -> bool {
    forall|i: int, j: int| 0 <= i < j < s.len() ==> (#[trigger] s[i]).0 != (#[trigger] s[j]).0
}

/// Writing a key and reading it gives back what was written; other keys are not affected;
/// and keys stay distinct.
pub proof fn law_put<T>(s: Seq<(Seq<char>, T)>, k: Seq<char>, v: T, other: Seq<char>)
    ensures
        lookup(put(s, k, v), k) == Some(v),
        other != k ==> lookup(put(s, k, v), other) == lookup(s, other),
        distinct(s) ==> distinct(put(s, k, v)),
{
    let i = key_at(s, k, 0);
    let t = put(s, k, v);
    lemma_key_at(s, k, 0);
    lemma_key_at_is(t, k, 0, i);
    if other != k {
        let j = key_at(s, other, 0);
        lemma_key_at(s, other, 0);
        if j < s.len() {
            lemma_key_at_is(t, other, 0, j);
        } else {
            lemma_key_at_is(t, other, 0, t.len() as int);
        }
    }
}

/// Removing a key from a table with distinct keys leaves the others as they were.
pub proof fn law_drop_key<T>(s: Seq<(Seq<char>, T)>, k: Seq<char>, other: Seq<char>)
    requires
        distinct(s),
    ensures
        lookup(drop_key(s, k), k) is None,
        other != k ==> lookup(drop_key(s, k), other) == lookup(s, other),
        distinct(drop_key(s, k)),
{
    let i = key_at(s, k, 0);
    let t = drop_key(s, k);
    lemma_key_at(s, k, 0);
    if i < s.len() {
        assert forall|m: int| 0 <= m < t.len() implies (#[trigger] t[m]).0 != k by {
            if m == i {
                assert(s[i].0 != s[s.len() - 1].0);
            } else {
                assert(t[m] == s[m]);
                if m < i {
                    assert(s[m].0 != s[i].0);
                } else {
                    assert(s[i].0 != s[m].0);
                }
            }
        }
        lemma_key_at_is(t, k, 0, t.len() as int);
        assert(distinct(t)) by {
            assert forall|a: int, b: int| 0 <= a < b < t.len() implies (#[trigger] t[a]).0 != (
            #[trigger] t[b]).0 by {
                let a2 = if a == i { s.len() - 1 } else { a };
                let b2 = if b == i { s.len() - 1 } else { b };
                assert(t[a] == s[a2] && t[b] == s[b2]);
                if a2 < b2 {
                    assert(s[a2].0 != s[b2].0);
                } else {
                    assert(s[b2].0 != s[a2].0);
                }
            }
        }
    }
    if other != k {
        let j = key_at(s, other, 0);
        lemma_key_at(s, other, 0);
        if i < s.len() {
            if j < s.len() {
                let j2 = if j == s.len() - 1 { i } else { j };
                assert(t[j2].0 == other);
                assert forall|m: int| 0 <= m < j2 implies (#[trigger] t[m]).0 != other by {
                    if t[m].0 == other {
                        assert(t[m].0 != t[j2].0);
                    }
                }
                lemma_key_at_is(t, other, 0, j2);
            } else {
                assert forall|m: int| 0 <= m < t.len() implies (#[trigger] t[m]).0 != other by {
                    if m == i {
                        assert(s[s.len() - 1].0 != other);
                    } else {
                        assert(t[m] == s[m]);
                    }
                }
                lemma_key_at_is(t, other, 0, t.len() as int);
            }
        }
    }
}

// ---- lexicographic order ---------------------------------------------------------------

/// Lexicographic order of texts by code point.
pub open spec fn less(a: Seq<char>, b: Seq<char>) -> bool
    decreases a.len(),
{
    if b.len() == 0 {
        false
    } else if a.len() == 0 {
        true
    } else if a[0] == b[0] {
        less(a.drop_first(), b.drop_first())
    } else {
        (a[0] as u32) < (b[0] as u32)
    }
}

/// Characters with the same code point are equal.
pub proof fn lemma_code_points(a: char, b: char)
    ensures
        a as u32 == b as u32 ==> a == b,
{
}

/// The order is total.
pub proof fn lemma_less_total(a: Seq<char>, b: Seq<char>)
    ensures
        less(a, b) || less(b, a) || a == b,
        !(less(a, b) && less(b, a)),
        !less(a, a),
    decreases a.len(),
{
    if a.len() > 0 && b.len() > 0 {
        lemma_less_total(a.drop_first(), b.drop_first());
        lemma_code_points(a[0], b[0]);
        if a[0] == b[0] && a.drop_first() == b.drop_first() {
            assert(a =~= seq![a[0]] + a.drop_first());
            assert(b =~= seq![b[0]] + b.drop_first());
        }
    } else if a.len() == 0 && b.len() == 0 {
        assert(a =~= b);
    }
    if a.len() > 0 {
        lemma_less_total(a.drop_first(), a.drop_first());
    }
}

/// The order is transitive.
pub proof fn lemma_less_transitive(a: Seq<char>, b: Seq<char>, c: Seq<char>)
    requires
        less(a, b),
        less(b, c),
    ensures
        less(a, c),
    decreases a.len(),
{
    if a.len() > 0 && a[0] == b[0] && b[0] == c[0] {
        lemma_less_transitive(a.drop_first(), b.drop_first(), c.drop_first());
    }
}

/// Whether a text comes before another.
pub fn before(a: &str, b: &str) -> (r: bool)
    ensures
        r == less(a@, b@),
{
    let x: Vec<char> = chars_of(a);
    let y: Vec<char> = chars_of(b);
    let mut i: usize = 0;
    assert(a@.skip(0) =~= a@ && b@.skip(0) =~= b@);
    while i < x.len() && i < y.len()
        invariant
            i <= x@.len(),
            i <= y@.len(),
            x@ == a@,
            y@ == b@,
            less(a@, b@) == less(a@.skip(i as int), b@.skip(i as int)),
        decreases x@.len() - i,
    {
        if x[i] != y[i] {
            return (x[i] as u32) < (y[i] as u32);
        }
        assert(a@.skip(i as int).drop_first() =~= a@.skip(i + 1));
        assert(b@.skip(i as int).drop_first() =~= b@.skip(i + 1));
        i = i + 1;
    }
    i == x.len() && i < y.len()
}

/// The first position from `i` on whose key does not come before `k`.
pub open spec fn place<T>(s: Seq<(Seq<char>, T)>, k: Seq<char>, i: int) -> int
    decreases s.len() - i,
{
    if i >= s.len() {
        s.len() as int
    } else if less(s[i].0, k) {
        place(s, k, i + 1)
    } else {
        i
    }
}

/// What `place` finds.
pub proof fn lemma_place<T>(s: Seq<(Seq<char>, T)>, k: Seq<char>, i: int)
    requires
        0 <= i <= s.len(),
    ensures
        i <= place(s, k, i) <= s.len(),
        place(s, k, i) < s.len() ==> !less(s[place(s, k, i)].0, k),
        forall|j: int| i <= j < place(s, k, i) ==> less((#[trigger] s[j]).0, k),
    decreases s.len() - i,
{
    if i < s.len() && less(s[i].0, k) {
        lemma_place(s, k, i + 1);
    }
}

/// A sorted table with `k` set to `v`.
pub open spec fn put_sorted<T>(s: Seq<(Seq<char>, T)>, k: Seq<char>, v: T) -> Seq<(Seq<char>, T)> {
    let i = place(s, k, 0);
    if i < s.len() && s[i].0 == k {
        s.update(i, (k, v))
    } else {
        s.insert(i, (k, v))
    }
}

/// Keys come in strictly increasing order.
pub open spec fn sorted<T>(s: Seq<(Seq<char>, T)>) -> bool {
    forall|i: int, j: int| 0 <= i < j < s.len() ==> less((#[trigger] s[i]).0, (#[trigger] s[j]).0)
}

/// Writing a key of a sorted table keeps it sorted, and reading gives back what was written.
pub proof fn law_put_sorted<T>(s: Seq<(Seq<char>, T)>, k: Seq<char>, v: T, other: Seq<char>)
    requires
        sorted(s),
    ensures
        sorted(put_sorted(s, k, v)),
        lookup(put_sorted(s, k, v), k) == Some(v),
        other != k ==> lookup(put_sorted(s, k, v), other) == lookup(s, other),
{
    let i = place(s, k, 0);
    let t = put_sorted(s, k, v);
    lemma_place(s, k, 0);
    let replaced = i < s.len() && s[i].0 == k;
    assert forall|m: int| i <= m < s.len() && !(m == i && replaced) implies less(
        k,
        (#[trigger] s[m]).0,
    ) by {
        lemma_less_total(s[i].0, k);
        if m > i {
            assert(less(s[i].0, s[m].0));
            if less(k, s[i].0) {
                lemma_less_transitive(k, s[i].0, s[m].0);
            }
        }
    }
    assert(sorted(t)) by {
        assert forall|a: int, b: int| 0 <= a < b < t.len() implies less(
            (#[trigger] t[a]).0,
            (#[trigger] t[b]).0,
        ) by {
            if replaced {
                assert(t[a].0 == s[a].0 && t[b].0 == s[b].0);
            } else {
                let a2 = if a < i { a } else { a - 1 };
                let b2 = if b < i { b } else { b - 1 };
                if a != i {
                    assert(t[a] == s[a2]);
                }
                if b != i {
                    assert(t[b] == s[b2]);
                }
            }
        }
    }
    assert forall|m: int| 0 <= m < i implies (#[trigger] t[m]).0 != k by {
        assert(t[m] == s[m]);
        lemma_less_total(s[m].0, k);
    }
    lemma_key_at_is(t, k, 0, i);
    if other != k {
        let j = key_at(s, other, 0);
        lemma_key_at(s, other, 0);
        let j2 = if replaced || j < i {
            j
        } else {
            j + 1
        };
        assert forall|m: int| 0 <= m < j2 implies (#[trigger] t[m]).0 != other by {
            if replaced {
                assert(t[m].0 == s[m].0);
            } else if m < i {
                assert(t[m] == s[m]);
            } else if m > i {
                assert(t[m] == s[m - 1]);
            }
        }
        if j < s.len() {
            assert(t[j2].0 == other && t[j2].1 == s[j].1);
        }
        lemma_key_at_is(t, other, 0, j2);
    }
}

/// The value of a key in one table behind another: the first one that has the key counts.
pub proof fn lemma_concat<T>(a: Seq<(Seq<char>, T)>, b: Seq<(Seq<char>, T)>, k: Seq<char>)
    ensures
        lookup(a + b, k) == (match lookup(a, k) {
            Some(v) => Some(v),
            None => lookup(b, k),
        }),
{
    let s = a + b;
    lemma_key_at(a, k, 0);
    lemma_key_at(b, k, 0);
    lemma_key_at(s, k, 0);
    let j = key_at(a, k, 0);
    if j < a.len() {
        assert(s[j] == a[j]);
        assert forall|i: int| 0 <= i < j implies (#[trigger] s[i]).0 != k by {
            assert(s[i] == a[i]);
        }
        lemma_key_at_is(s, k, 0, j);
    } else {
        let j2 = key_at(b, k, 0);
        assert forall|i: int| 0 <= i < a.len() + j2 implies (#[trigger] s[i]).0 != k by {
            if i < a.len() {
                assert(s[i] == a[i]);
            } else {
                assert(s[i] == b[i - a.len()]);
            }
        }
        if j2 < b.len() {
            assert(s[a.len() + j2] == b[j2]);
            lemma_key_at_is(s, k, 0, a.len() + j2);
        } else if key_at(s, k, 0) < s.len() {
            assert(s[key_at(s, k, 0)].0 == k);
        }
    }
}

/// The values of all keys in one table behind another.
pub proof fn lemma_concats<T>(a: Seq<(Seq<char>, T)>, b: Seq<(Seq<char>, T)>)
    ensures
        forall|k: Seq<char>| #[trigger]
            lookup(a + b, k) == (match lookup(a, k) {
                Some(v) => Some(v),
                None => lookup(b, k),
            }),
{
    assert forall|k: Seq<char>| #[trigger]
        lookup(a + b, k) == (match lookup(a, k) {
            Some(v) => Some(v),
            None => lookup(b, k),
        }) by {
        lemma_concat(a, b, k);
    }
}

/// The empty table.
pub proof fn lemma_none<T>()
    ensures
        forall|k: Seq<char>| #[trigger] lookup(Seq::<(Seq<char>, T)>::empty(), k) is None,
{
}

/// A table of one entry.
pub proof fn lemma_one<T>(m: Seq<(Seq<char>, T)>)
    requires
        m.len() == 1,
    ensures
        forall|k: Seq<char>| #[trigger]
            lookup(m, k) == (if k == m[0].0 {
                Some(m[0].1)
            } else {
                None
            }),
{
    reveal_with_fuel(key_at, 2);
}

/// A table of two entries.
pub proof fn lemma_two<T>(m: Seq<(Seq<char>, T)>)
    requires
        m.len() == 2,
    ensures
        forall|k: Seq<char>| #[trigger]
            lookup(m, k) == (if k == m[0].0 {
                Some(m[0].1)
            } else if k == m[1].0 {
                Some(m[1].1)
            } else {
                None
            }),
{
    reveal_with_fuel(key_at, 3);
}

/// A table of three entries.
pub proof fn lemma_three<T>(m: Seq<(Seq<char>, T)>)
    requires
        m.len() == 3,
    ensures
        forall|k: Seq<char>| #[trigger]
            lookup(m, k) == (if k == m[0].0 {
                Some(m[0].1)
            } else if k == m[1].0 {
                Some(m[1].1)
            } else if k == m[2].0 {
                Some(m[2].1)
            } else {
                None
            }),
{
    reveal_with_fuel(key_at, 4);
}

/// Two tables without a key in common, one behind the other, have distinct keys.
pub proof fn lemma_distinct_concat<T>(a: Seq<(Seq<char>, T)>, b: Seq<(Seq<char>, T)>)
    requires
        distinct(a),
        distinct(b),
        forall|k: Seq<char>| #[trigger] lookup(a, k) is Some ==> lookup(b, k) is None,
    ensures
        distinct(a + b),
{
    let s = a + b;
    assert forall|i: int, j: int| 0 <= i < j < s.len() implies (#[trigger] s[i]).0 != (#[trigger] s[
    j]).0 by {
        if j < a.len() {
            assert(s[i] == a[i] && s[j] == a[j]);
        } else if i >= a.len() {
            assert(s[i] == b[i - a.len()] && s[j] == b[j - a.len()]);
        } else if s[i].0 == s[j].0 {
            let k = s[i].0;
            lemma_key_at(a, k, 0);
            lemma_key_at(b, k, 0);
            assert(a[i].0 == k);
            assert(b[j - a.len()].0 == k);
            assert(lookup(a, k) is Some);
            assert(lookup(b, k) is Some);
        }
    }
}

/// Every entry set in turn in an empty table that keeps the order of first writing.
pub open spec fn put_all<T>(es: Seq<(Seq<char>, T)>) -> Seq<(Seq<char>, T)>
    decreases es.len(),
{
    if es.len() == 0 {
        seq![]
    } else {
        put(put_all(es.drop_last()), es.last().0, es.last().1)
    }
}

/// Setting entries with distinct keys in turn gives the entries as they are.
pub proof fn lemma_put_all_distinct<T>(es: Seq<(Seq<char>, T)>)
    requires
        distinct(es),
    ensures
        put_all(es) == es,
    decreases es.len(),
{
    if es.len() > 0 {
        let d = es.drop_last();
        let k = es.last().0;
        assert(distinct(d)) by {
            assert forall|i: int, j: int| 0 <= i < j < d.len() implies (#[trigger] d[i]).0 != (
            #[trigger] d[j]).0 by {
                assert(d[i] == es[i] && d[j] == es[j]);
            }
        }
        lemma_put_all_distinct(d);
        assert forall|m: int| 0 <= m < d.len() implies (#[trigger] d[m]).0 != k by {
            assert(es[m].0 != es[es.len() - 1].0);
        }
        lemma_key_at_is(d, k, 0, d.len() as int);
        assert(d.push(es.last()) =~= es);
        assert(es.last() == (k, es.last().1));
    } else {
        assert(put_all(es) =~= es);
    }
}

/// A sorted table with every entry of `es` set in turn.
pub open spec fn put_all_sorted<T>(s: Seq<(Seq<char>, T)>, es: Seq<(Seq<char>, T)>) -> Seq<
    (Seq<char>, T),
>
    decreases es.len(),
{
    if es.len() == 0 {
        s
    } else {
        put_sorted(put_all_sorted(s, es.drop_last()), es.last().0, es.last().1)
    }
}

/// Setting entries with distinct keys in turn: each key has the value of its entry, and the
/// other keys are not affected.
pub proof fn lemma_put_all_sorted<T>(s: Seq<(Seq<char>, T)>, es: Seq<(Seq<char>, T)>, k: Seq<char>)
    requires
        sorted(s),
        distinct(es),
    ensures
        sorted(put_all_sorted(s, es)),
        lookup(put_all_sorted(s, es), k) == (match lookup(es, k) {
            Some(v) => Some(v),
            None => lookup(s, k),
        }),
    decreases es.len(),
{
    if es.len() > 0 {
        let d = es.drop_last();
        let e = es.last();
        assert(distinct(d)) by {
            assert forall|i: int, j: int| 0 <= i < j < d.len() implies (#[trigger] d[i]).0 != (
            #[trigger] d[j]).0 by {
                assert(d[i] == es[i] && d[j] == es[j]);
            }
        }
        lemma_put_all_sorted(s, d, k);
        law_put_sorted(put_all_sorted(s, d), e.0, e.1, k);
        law_put_sorted(put_all_sorted(s, d), e.0, e.1, e.0);
        lemma_key_at(d, k, 0);
        lemma_key_at(es, k, 0);
        let i = key_at(d, k, 0);
        assert(forall|j: int| 0 <= j < d.len() ==> #[trigger] d[j] == es[j]);
        if e.0 == k {
            assert forall|m: int| 0 <= m < es.len() - 1 implies (#[trigger] es[m]).0 != k by {
                assert(es[m].0 != es[es.len() - 1].0);
            }
            lemma_key_at_is(es, k, 0, es.len() - 1);
        } else if i < d.len() {
            lemma_key_at_is(es, k, 0, i);
        } else {
            assert forall|m: int| 0 <= m < es.len() implies (#[trigger] es[m]).0 != k by {
                if m < d.len() {
                    assert(d[m] == es[m]);
                }
            }
            lemma_key_at_is(es, k, 0, es.len() as int);
        }
    }
}

/// An entry of a sorted table.
#[derive(Debug, Clone, PartialEq)]
pub struct Entry<V> {
    pub key: String,
    pub value: V,
}

impl<V: View> View for Entry<V> {
    type V = (Seq<char>, V::V);

    open spec fn view(&self) -> (Seq<char>, V::V) {
        (self.key@, self.value@)
    }
}

impl<V: Duplicate> Duplicate for Entry<V> {
    fn duplicate(&self) -> (r: Self) {
        Entry { key: copy_text(self.key.as_str()), value: self.value.duplicate() }
    }
}

/// A table with its keys in lexicographic order.
#[derive(Debug, Clone, PartialEq)]
pub struct SortedMap<V> {
    pub entries: Vec<Entry<V>>,
}

impl<V: View> View for SortedMap<V> {
    type V = Seq<(Seq<char>, V::V)>;

    open spec fn view(&self) -> Seq<(Seq<char>, V::V)> {
        views(self.entries@)
    }
}

impl<V: Duplicate> Duplicate for SortedMap<V> {
    fn duplicate(&self) -> (r: Self) {
        SortedMap { entries: crate::text::duplicates(&self.entries) }
    }
}

impl<V: View> SortedMap<V> {
    /// The empty table.
    pub fn new() -> (r: Self)
        ensures
            r@ == Seq::<(Seq<char>, V::V)>::empty(),
    {
        let r: SortedMap<V> = SortedMap { entries: Vec::new() };
        assert(r@ =~= Seq::<(Seq<char>, V::V)>::empty());
        r
    }

    /// The number of entries.
    pub fn len(&self) -> (r: usize)
        ensures
            r == self@.len(),
    {
        self.entries.len()
    }

    /// Whether there is no entry.
    pub fn is_empty(&self) -> (r: bool)
        ensures
            r == (self@.len() == 0),
    {
        self.entries.len() == 0
    }

    /// The value of a key.
    pub fn get(&self, k: &str) -> (r: Option<&V>)
        ensures
            match r {
                Some(v) => lookup(self@, k@) == Some(v@),
                None => lookup(self@, k@) is None,
            },
    {
        let mut i: usize = 0;
        while i < self.entries.len()
            invariant
                i <= self.entries@.len(),
                key_at(self@, k@, 0) == key_at(self@, k@, i as int),
            decreases self.entries@.len() - i,
        {
            if same(self.entries[i].key.as_str(), k) {
                assert(self@[i as int] == self.entries@[i as int]@);
                return Some(&self.entries[i].value);
            }
            i = i + 1;
        }
        None
    }

    /// Sets a key to a value.
    pub fn insert(&mut self, k: String, v: V)
        ensures
            final(self)@ == put_sorted(old(self)@, k@, v@),
    {
        let ghost start = self@;
        let mut i: usize = 0;
        while i < self.entries.len() && before(self.entries[i].key.as_str(), k.as_str())
            invariant
                i <= self.entries@.len(),
                self@ == start,
                place(start, k@, 0) == place(start, k@, i as int),
            decreases self.entries@.len() - i,
        {
            i = i + 1;
        }
        let found: bool = i < self.entries.len() && same(
            self.entries[i].key.as_str(),
            k.as_str(),
        );
        let ghost kv = k@;
        let ghost vv = v@;
        if found {
            self.entries.set(i, Entry { key: k, value: v });
            assert(self@ =~= start.update(i as int, (kv, vv)));
        } else {
            self.entries.insert(i, Entry { key: k, value: v });
            assert(self@ =~= start.insert(i as int, (kv, vv)));
        }
    }
}

} // verus!

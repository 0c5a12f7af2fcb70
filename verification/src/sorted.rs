//! A map from texts to values that keeps its entries in the order of their
//! keys.

use vstd::prelude::*;

use crate::order::{key_before, relate, Relation};
#[allow(unused_imports)]
use crate::order::{key_order_irreflexive, key_order_total, key_order_transitive};

verus! {

/// A value that can be copied without a change that its view shows.
pub trait Duplicate: View + Sized {
    /// A copy with the same view.
    fn duplicate(&self) -> (r: Self)
        ensures
            r@ == self@,
    ;
}

/// Whether the entries stand in the strict order of their keys.
pub open spec fn ascending<T>(s: Seq<(Seq<char>, T)>) -> bool {
    forall|i: int, j: int|
        0 <= i < j < s.len() ==> key_before(#[trigger] s[i].0, #[trigger] s[j].0)
}

/// Whether `k` is the key of one of the entries.
pub open spec fn has_key<T>(s: Seq<(Seq<char>, T)>, k: Seq<char>) -> bool {
    exists|i: int| 0 <= i < s.len() && #[trigger] s[i].0 == k
}

/// The value of an entry with the key `k`.
pub open spec fn value_at<T>(s: Seq<(Seq<char>, T)>, k: Seq<char>) -> T {
    s[choose|i: int| 0 <= i < s.len() && #[trigger] s[i].0 == k].1
}

/// The map that the entries make up.
pub open spec fn as_map<T>(s: Seq<(Seq<char>, T)>) -> Map<Seq<char>, T> {
    Map::new(|k: Seq<char>| has_key(s, k), |k: Seq<char>| value_at(s, k))
}

/// In ordered entries a key occurs once, so its value is the one that stands
/// beside it.
pub proof fn lemma_value_at<T>(s: Seq<(Seq<char>, T)>, i: int)
    requires
        ascending(s),
        0 <= i < s.len(),
    ensures
        has_key(s, s[i].0),
        value_at(s, s[i].0) == s[i].1,
{
    let k = s[i].0;
    let c = choose|j: int| 0 <= j < s.len() && #[trigger] s[j].0 == k;
    assert(0 <= c < s.len() && s[c].0 == k);
    key_order_irreflexive(k);
    if c < i {
        assert(key_before(s[c].0, s[i].0));
    } else if i < c {
        assert(key_before(s[i].0, s[c].0));
    }
}

/// Entries in order are determined by the map that they make up.
pub proof fn entries_are_canonical<T>(a: Seq<(Seq<char>, T)>, b: Seq<(Seq<char>, T)>)
    requires
        ascending(a),
        ascending(b),
        as_map(a) == as_map(b),
    ensures
        a == b,
    decreases a.len(),
{
    if a.len() == 0 {
        if b.len() > 0 {
            lemma_value_at(b, 0);
            assert(as_map(b).dom().contains(b[0].0));
            assert(has_key(a, b[0].0));
        }
        assert(a =~= b);
    } else {
        let ka = a.last().0;
        lemma_value_at(a, a.len() - 1);
        assert(as_map(a).dom().contains(ka));
        assert(has_key(b, ka));
        let kb = b.last().0;
        lemma_value_at(b, b.len() - 1);
        assert(as_map(b).dom().contains(kb));
        assert(has_key(a, kb));
        let i = choose|i: int| 0 <= i < a.len() && #[trigger] a[i].0 == kb;
        let j = choose|j: int| 0 <= j < b.len() && #[trigger] b[j].0 == ka;
        if ka != kb {
            assert(key_before(a[i].0, a[a.len() - 1].0));
            assert(key_before(b[j].0, b[b.len() - 1].0));
            key_order_transitive(ka, kb, ka);
            key_order_irreflexive(ka);
        }
        assert(ka == kb);
        assert(as_map(a)[ka] == a.last().1);
        assert(as_map(b)[kb] == b.last().1);
        assert(a.last() == b.last());
        lemma_without_last(a);
        lemma_without_last(b);
        entries_are_canonical(a.drop_last(), b.drop_last());
        assert(a =~= a.drop_last().push(a.last()));
        assert(b =~= b.drop_last().push(b.last()));
    }
}

proof fn lemma_without_last<T>(a: Seq<(Seq<char>, T)>)
    requires
        ascending(a),
        a.len() > 0,
    ensures
        ascending(a.drop_last()),
        as_map(a.drop_last()) == as_map(a).remove(a.last().0),
{
    let b = a.drop_last();
    let m = as_map(a).remove(a.last().0);
    assert forall|i: int, j: int| 0 <= i < j < b.len() implies key_before(
        #[trigger] b[i].0,
        #[trigger] b[j].0,
    ) by {
        assert(key_before(a[i].0, a[j].0));
    }
    assert forall|k: Seq<char>| as_map(b).dom().contains(k) <==> m.dom().contains(k) by {
        if has_key(b, k) {
            let i = choose|i: int| 0 <= i < b.len() && #[trigger] b[i].0 == k;
            assert(a[i].0 == k);
            assert(key_before(a[i].0, a[a.len() - 1].0));
            key_order_irreflexive(k);
        }
        if m.dom().contains(k) {
            let i = choose|i: int| 0 <= i < a.len() && #[trigger] a[i].0 == k;
            assert(b[i].0 == k);
        }
    }
    assert forall|k: Seq<char>| as_map(b).dom().contains(k) implies as_map(b)[k] == m[k] by {
        let i = choose|i: int| 0 <= i < b.len() && #[trigger] b[i].0 == k;
        lemma_value_at(b, i);
        assert(a[i].0 == k);
        lemma_value_at(a, i);
        assert(key_before(a[i].0, a[a.len() - 1].0));
        key_order_irreflexive(k);
    }
    assert(as_map(b) =~= m);
}

/// Putting an entry in its place among ordered entries keeps the order and adds
/// the entry to the map.
proof fn lemma_inserted<T>(s: Seq<(Seq<char>, T)>, i: int, k: Seq<char>, v: T)
    requires
        ascending(s),
        0 <= i <= s.len(),
        forall|j: int| 0 <= j < i ==> key_before(#[trigger] s[j].0, k),
        forall|j: int| i <= j < s.len() ==> key_before(k, #[trigger] s[j].0),
    ensures
        ascending(s.insert(i, (k, v))),
        !has_key(s, k),
        as_map(s.insert(i, (k, v))) == as_map(s).insert(k, v),
{
    let t = s.insert(i, (k, v));
    let m = as_map(s).insert(k, v);
    key_order_irreflexive(k);
    assert forall|a: int, b: int| 0 <= a < b < t.len() implies key_before(
        #[trigger] t[a].0,
        #[trigger] t[b].0,
    ) by {
        let x = if a < i { a } else { a - 1 };
        let y = if b < i { b } else { b - 1 };
        if a != i {
            assert(t[a] == s[x]);
        }
        if b != i {
            assert(t[b] == s[y]);
        }
    }
    assert forall|q: Seq<char>| as_map(t).dom().contains(q) <==> m.dom().contains(q) by {
        if has_key(t, q) {
            let j = choose|j: int| 0 <= j < t.len() && #[trigger] t[j].0 == q;
            if j != i {
                let x = if j < i { j } else { j - 1 };
                assert(s[x].0 == q);
            }
        }
        if has_key(s, q) {
            let j = choose|j: int| 0 <= j < s.len() && #[trigger] s[j].0 == q;
            let x = if j < i { j } else { j + 1 };
            assert(t[x].0 == q);
        }
        assert(t[i].0 == k);
    }
    assert forall|q: Seq<char>| as_map(t).dom().contains(q) implies as_map(t)[q] == m[q] by {
        let j = choose|j: int| 0 <= j < t.len() && #[trigger] t[j].0 == q;
        lemma_value_at(t, j);
        if j != i {
            let x = if j < i { j } else { j - 1 };
            assert(s[x] == t[j]);
            lemma_value_at(s, x);
        }
    }
    assert(as_map(t) =~= m);
}

/// Giving an entry another value keeps the order and changes the map there.
proof fn lemma_replaced<T>(s: Seq<(Seq<char>, T)>, i: int, v: T)
    requires
        ascending(s),
        0 <= i < s.len(),
    ensures
        ascending(s.update(i, (s[i].0, v))),
        as_map(s.update(i, (s[i].0, v))) == as_map(s).insert(s[i].0, v),
{
    let k = s[i].0;
    let t = s.update(i, (k, v));
    let m = as_map(s).insert(k, v);
    assert forall|a: int, b: int| 0 <= a < b < t.len() implies key_before(
        #[trigger] t[a].0,
        #[trigger] t[b].0,
    ) by {
        assert(key_before(s[a].0, s[b].0));
    }
    assert forall|q: Seq<char>| as_map(t).dom().contains(q) <==> m.dom().contains(q) by {
        if has_key(t, q) {
            let j = choose|j: int| 0 <= j < t.len() && #[trigger] t[j].0 == q;
            assert(s[j].0 == q);
        }
        if has_key(s, q) {
            let j = choose|j: int| 0 <= j < s.len() && #[trigger] s[j].0 == q;
            assert(t[j].0 == q);
        }
        assert(t[i].0 == k);
    }
    assert forall|q: Seq<char>| as_map(t).dom().contains(q) implies as_map(t)[q] == m[q] by {
        let j = choose|j: int| 0 <= j < t.len() && #[trigger] t[j].0 == q;
        lemma_value_at(t, j);
        lemma_value_at(s, j);
        if j != i {
            key_order_irreflexive(q);
            if j < i {
                assert(key_before(s[j].0, s[i].0));
            } else {
                assert(key_before(s[i].0, s[j].0));
            }
        }
    }
    assert(as_map(t) =~= m);
}

/// A map from texts to values, ordered by key.
#[derive(Debug)]
pub struct SortedMap<V: View> {
    entries: Vec<(String, V)>,
}

impl<V: View> View for SortedMap<V> {
    type V = Seq<(Seq<char>, V::V)>;

    closed spec fn view(&self) -> Seq<(Seq<char>, V::V)> {
        self.entries@.map_values(|e: (String, V)| (e.0@, e.1@))
    }
}

impl<V: View> SortedMap<V> {
    /// The entries stand in the strict order of their keys.
    #[verifier::type_invariant]
    pub open spec fn wf(self) -> bool {
        ascending(self@)
    }

    /// An empty map.
    pub fn new() -> (r: Self)
        ensures
            r.wf(),
            r@ == Seq::<(Seq<char>, V::V)>::empty(),
    {
        let entries: Vec<(String, V)> = Vec::new();
        assert(entries@.map_values(|e: (String, V)| (e.0@, e.1@)) =~= Seq::<
            (Seq<char>, V::V),
        >::empty());
        SortedMap { entries }
    }

    /// The number of entries.
    pub fn len(&self) -> (n: usize)
        ensures
            n == self@.len(),
    {
        self.entries.len()
    }

    /// Whether there is no entry.
    pub fn is_empty(&self) -> (b: bool)
        ensures
            b == (self@.len() == 0),
    {
        self.entries.len() == 0
    }

    /// The key of the entry at place `i`.
    pub fn key(&self, i: usize) -> (k: &String)
        requires
            i < self@.len(),
        ensures
            k@ == self@[i as int].0,
    {
        &self.entries[i].0
    }

    /// The value of the entry at place `i`.
    pub fn value(&self, i: usize) -> (v: &V)
        requires
            i < self@.len(),
        ensures
            v@ == self@[i as int].1,
    {
        &self.entries[i].1
    }

    /// All entries, in the order of their keys.
    pub fn entries(&self) -> (r: Vec<(&String, &V)>)
        ensures
            r@.map_values(|e: (&String, &V)| (e.0@, e.1@)) == self@,
    {
        let mut r: Vec<(&String, &V)> = Vec::new();
        let mut i: usize = 0;
        while i < self.entries.len()
            invariant
                i <= self@.len(),
                self@.len() == self.entries@.len(),
                r@.len() == i,
                forall|j: int| 0 <= j < i ==> ((#[trigger] r@[j]).0@, r@[j].1@) == self@[j],
            decreases self@.len() - i,
        {
            r.push((self.key(i), self.value(i)));
            i = i + 1;
        }
        assert(r@.map_values(|e: (&String, &V)| (e.0@, e.1@)) =~= self@);
        r
    }

    /// The place of the first entry whose key does not come before `key`, and
    /// whether its key is `key`.
    fn place(&self, key: &str) -> (r: (usize, bool))
        ensures
            r.0 <= self@.len(),
            forall|j: int| 0 <= j < r.0 ==> key_before(#[trigger] self@[j].0, key@),
            r.1 ==> r.0 < self@.len() && self@[r.0 as int].0 == key@,
            !r.1 ==> forall|j: int| r.0 <= j < self@.len() ==> key_before(key@, #[trigger] self@[j].0),
    {
        proof {
            use_type_invariant(self);
        }
        let mut low: usize = 0;
        let mut high: usize = self.entries.len();
        while low < high
            invariant
                low <= high <= self@.len(),
                self@.len() == self.entries@.len(),
                ascending(self@),
                forall|j: int| 0 <= j < low ==> key_before(#[trigger] self@[j].0, key@),
                forall|j: int| high <= j < self@.len() ==> key_before(key@, #[trigger] self@[j].0),
            decreases high - low,
        {
            let mid: usize = low + (high - low) / 2;
            let ghost k = self@[mid as int].0;
            match relate(self.entries[mid].0.as_str(), key) {
                Relation::Before => {
                    assert forall|j: int| 0 <= j < mid + 1 implies key_before(
                        #[trigger] self@[j].0,
                        key@,
                    ) by {
                        if j < mid {
                            assert(key_before(self@[j].0, k));
                            key_order_transitive(self@[j].0, k, key@);
                        }
                    }
                    low = mid + 1;
                },
                Relation::Same => {
                    return (mid, true);
                },
                Relation::After => {
                    assert forall|j: int| mid <= j < self@.len() implies key_before(
                        key@,
                        #[trigger] self@[j].0,
                    ) by {
                        if j > mid {
                            assert(key_before(k, self@[j].0));
                            key_order_transitive(key@, k, self@[j].0);
                        }
                    }
                    high = mid;
                },
            }
        }
        (low, false)
    }

    /// The value under `key`, if there is one.
    pub fn get(&self, key: &str) -> (r: Option<&V>)
        ensures
            r is Some <==> has_key(self@, key@),
            r matches Some(v) ==> v@ == as_map(self@)[key@],
    {
        proof {
            use_type_invariant(self);
        }
        let (i, found) = self.place(key);
        if found {
            proof {
                lemma_value_at(self@, i as int);
            }
            Some(&self.entries[i].1)
        } else {
            proof {
                key_order_irreflexive(key@);
            }
            None
        }
    }

    /// Puts `value` under `key` and hands back the value that stood there.
    pub fn insert(&mut self, key: String, value: V) -> (r: Option<V>)
        ensures
            final(self).wf(),
            as_map(final(self)@) == as_map(old(self)@).insert(key@, value@),
            r is Some <==> has_key(old(self)@, key@),
            r matches Some(v) ==> v@ == as_map(old(self)@)[key@],
    {
        proof {
            use_type_invariant(&*self);
        }
        let ghost before = self@;
        let (i, found) = self.place(key.as_str());
        let mut entries: Vec<(String, V)> = Vec::new();
        assert(entries@.map_values(|e: (String, V)| (e.0@, e.1@)) =~= Seq::<
            (Seq<char>, V::V),
        >::empty());
        std::mem::swap(&mut self.entries, &mut entries);
        let ghost shown = |e: (String, V)| (e.0@, e.1@);
        assert(before == entries@.map_values(shown));
        let ghost k = key@;
        let ghost v = value@;
        let r: Option<V>;
        if found {
            let ghost held = entries@;
            let (_, old_value) = entries.remove(i);
            entries.insert(i, (key, value));
            assert(entries@ =~= held.update(i as int, (key, value)));
            assert(entries@.map_values(shown) =~= before.update(i as int, (k, v)));
            proof {
                lemma_value_at(before, i as int);
                lemma_replaced(before, i as int, v);
            }
            r = Some(old_value);
        } else {
            entries.insert(i, (key, value));
            assert(entries@.map_values(shown) =~= before.insert(i as int, (k, v)));
            proof {
                lemma_inserted(before, i as int, k, v);
            }
            r = None;
        }
        self.entries = entries;
        r
    }

    /// The entries, in the order of their keys.
    pub fn into_entries(self) -> (r: Vec<(String, V)>)
        ensures
            r@.map_values(|e: (String, V)| (e.0@, e.1@)) == self@,
    {
        self.entries
    }

    /// Puts an entry behind all others.
    pub fn push(&mut self, key: String, value: V)
        requires
            forall|j: int|
                0 <= j < old(self)@.len() ==> key_before(#[trigger] old(self)@[j].0, key@),
        ensures
            final(self).wf(),
            final(self)@ == old(self)@.push((key@, value@)),
    {
        proof {
            use_type_invariant(&*self);
        }
        let ghost before = self@;
        let mut entries: Vec<(String, V)> = Vec::new();
        assert(entries@.map_values(|e: (String, V)| (e.0@, e.1@)) =~= Seq::<
            (Seq<char>, V::V),
        >::empty());
        std::mem::swap(&mut self.entries, &mut entries);
        let ghost shown = |e: (String, V)| (e.0@, e.1@);
        let ghost k = key@;
        let ghost v = value@;
        entries.push((key, value));
        assert(entries@.map_values(shown) =~= before.push((k, v)));
        assert(before.push((k, v)) =~= before.insert(before.len() as int, (k, v)));
        proof {
            lemma_inserted(before, before.len() as int, k, v);
        }
        self.entries = entries;
    }
}

impl<V: Duplicate> SortedMap<V> {
    /// A copy of the entries from place `start` up to place `end`.
    pub fn range(&self, start: usize, end: usize) -> (r: Self)
        requires
            start <= end <= self@.len(),
        ensures
            r.wf(),
            r@ == self@.subrange(start as int, end as int),
    {
        let mut r: SortedMap<V> = SortedMap::new();
        let mut i: usize = start;
        proof {
            use_type_invariant(self);
        }
        assert(r@ =~= self@.subrange(start as int, start as int));
        while i < end
            invariant
                start <= i <= end <= self@.len(),
                ascending(self@),
                r.wf(),
                r@ == self@.subrange(start as int, i as int),
            decreases end - i,
        {
            assert forall|j: int| 0 <= j < r@.len() implies key_before(
                #[trigger] r@[j].0,
                self@[i as int].0,
            ) by {
                assert(r@[j] == self@[start + j]);
            }
            r.push(self.key(i).clone(), self.value(i).duplicate());
            assert(r@ =~= self@.subrange(start as int, i + 1));
            i = i + 1;
        }
        r
    }
}

impl<V: Duplicate> Duplicate for SortedMap<V> {
    fn duplicate(&self) -> (r: Self) {
        let r = self.range(0, self.len());
        assert(r@ =~= self@);
        r
    }
}

/// Entries are ordered exactly if every key comes before all later ones.
pub proof fn ordered_entries_by_their_keys<T>(s: Seq<(Seq<char>, T)>)
    ensures
        (forall|i: int, j: int|
            0 <= i < j < s.len() ==> key_before(#[trigger] s[i].0, #[trigger] s[j].0))
            <==> ascending(s),
{
}

/// The map of ordered entries has the keys of the entries and no others, and each key has
/// the value that stands beside it.
pub proof fn map_has_the_entries<T>(s: Seq<(Seq<char>, T)>, k: Seq<char>)
    requires
        ascending(s),
    ensures
        as_map(s).dom().contains(k) <==> exists|i: int| 0 <= i < s.len() && #[trigger] s[i].0 == k,
        has_key(s, k) <==> exists|i: int| 0 <= i < s.len() && #[trigger] s[i].0 == k,
        forall|i: int| 0 <= i < s.len() ==> as_map(s)[(#[trigger] s[i]).0] == s[i].1,
{
    assert forall|i: int| 0 <= i < s.len() implies as_map(s)[(#[trigger] s[i]).0] == s[i].1 by {
        lemma_value_at(s, i);
    }
}

} // verus!

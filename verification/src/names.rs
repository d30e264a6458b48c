use crate::order::{compare_names, lemma_name_lt_total, lemma_name_lt_transitive, name_lt, Order};
use crate::value::Duplicate;
use vstd::prelude::*;

verus! {

/// Names strictly increasing in `str` order, hence pairwise distinct.
pub open spec fn names_sorted<W>(s: Seq<(Seq<char>, W)>) -> bool {
    forall|i: int, j: int| #![trigger s[i], s[j]] 0 <= i < j < s.len() ==> name_lt(s[i].0, s[j].0)
}

/// The keys of the pairs are pairwise different.
pub open spec fn keys_distinct<K, W>(s: Seq<(K, W)>) -> bool {
    forall|i: int, j: int| #![trigger s[i], s[j]] 0 <= i < j < s.len() ==> s[i].0 != s[j].0
}

pub open spec fn has_name<K, W>(s: Seq<(K, W)>, k: K) -> bool {
    exists|i: int| 0 <= i < s.len() && #[trigger] s[i].0 == k
}

pub open spec fn index_of<K, W>(s: Seq<(K, W)>, k: K) -> int {
    choose|i: int| 0 <= i < s.len() && #[trigger] s[i].0 == k
}

pub open spec fn value_of<K, W>(s: Seq<(K, W)>, k: K) -> W {
    s[index_of(s, k)].1
}

/// A sequence of pairs with distinct keys read as a map from keys to values.
pub open spec fn as_map<K, W>(s: Seq<(K, W)>) -> Map<K, W> {
    Map::new(|k: K| has_name(s, k), |k: K| value_of(s, k))
}

pub proof fn lemma_sorted_distinct<W>(s: Seq<(Seq<char>, W)>)
    requires
        names_sorted(s),
    ensures
        keys_distinct(s),
{
    assert forall|i: int, j: int| 0 <= i < j < s.len() implies #[trigger] s[i].0 != #[trigger] s[j].0 by {
        lemma_name_lt_total(s[i].0, s[j].0);
    }
}

/// With distinct keys a key sits at one index only.
pub proof fn lemma_index_of<K, W>(s: Seq<(K, W)>, i: int)
    requires
        keys_distinct(s),
        0 <= i < s.len(),
    ensures
        has_name(s, s[i].0),
        index_of(s, s[i].0) == i,
        value_of(s, s[i].0) == s[i].1,
        as_map(s).contains_key(s[i].0),
        as_map(s)[s[i].0] == s[i].1,
{
    let k = s[i].0;
    assert(s[i].0 == k);
    let j = index_of(s, k);
    if j < i {
        assert(s[j].0 != s[i].0);
    } else if j > i {
        assert(s[i].0 != s[j].0);
    }
}

pub proof fn lemma_as_map_push<K, W>(s: Seq<(K, W)>, k: K, v: W)
    requires
        keys_distinct(s),
        !has_name(s, k),
    ensures
        keys_distinct(s.push((k, v))),
        as_map(s.push((k, v))) == as_map(s).insert(k, v),
{
    let t = s.push((k, v));
    assert forall|i: int, j: int| 0 <= i < j < t.len() implies #[trigger] t[i].0 != #[trigger] t[j].0 by {
        if j == s.len() {
            assert(t[i] == s[i]);
        } else {
            assert(t[i] == s[i] && t[j] == s[j]);
        }
    }
    assert forall|n: K| #[trigger] as_map(t).contains_key(n) == as_map(s).insert(k, v).contains_key(n) by {
        if has_name(t, n) {
            let i = choose|i: int| 0 <= i < t.len() && #[trigger] t[i].0 == n;
            if i < s.len() {
                assert(s[i].0 == n);
            }
        }
        if has_name(s, n) {
            let i = choose|i: int| 0 <= i < s.len() && #[trigger] s[i].0 == n;
            assert(t[i].0 == n);
        }
        assert(t[s.len() as int].0 == k);
    }
    assert forall|n: K| #[trigger] as_map(t).contains_key(n) implies as_map(t)[n] == as_map(s).insert(k, v)[n] by {
        let i = choose|i: int| 0 <= i < t.len() && #[trigger] t[i].0 == n;
        lemma_index_of(t, i);
        if i < s.len() {
            assert(s[i] == t[i]);
            lemma_index_of(s, i);
        }
    }
    assert(as_map(t) =~= as_map(s).insert(k, v));
}

/// Replacing the value at one index is inserting under that index's key.
pub proof fn lemma_as_map_update<K, W>(s: Seq<(K, W)>, i: int, v: W)
    requires
        keys_distinct(s),
        0 <= i < s.len(),
    ensures
        keys_distinct(s.update(i, (s[i].0, v))),
        as_map(s.update(i, (s[i].0, v))) == as_map(s).insert(s[i].0, v),
{
    let t = s.update(i, (s[i].0, v));
    let k = s[i].0;
    assert forall|a: int, b: int| 0 <= a < b < t.len() implies #[trigger] t[a].0 != #[trigger] t[b].0 by {
        assert(t[a].0 == s[a].0 && t[b].0 == s[b].0);
    }
    assert forall|n: K| #[trigger] as_map(t).contains_key(n) == as_map(s).insert(k, v).contains_key(n) by {
        if has_name(t, n) {
            let j = choose|j: int| 0 <= j < t.len() && #[trigger] t[j].0 == n;
            assert(s[j].0 == n);
        }
        if has_name(s, n) {
            let j = choose|j: int| 0 <= j < s.len() && #[trigger] s[j].0 == n;
            assert(t[j].0 == n);
        }
        assert(t[i].0 == k);
    }
    assert forall|n: K| #[trigger] as_map(t).contains_key(n) implies as_map(t)[n] == as_map(s).insert(k, v)[n] by {
        let j = choose|j: int| 0 <= j < t.len() && #[trigger] t[j].0 == n;
        lemma_index_of(t, j);
        if j != i {
            lemma_index_of(s, j);
            assert(s[j].0 != s[i].0);
        }
    }
    assert(as_map(t) =~= as_map(s).insert(k, v));
}

/// Dropping the first pair of a sequence with distinct keys drops its key.
proof fn lemma_as_map_drop_first<K, W>(s: Seq<(K, W)>)
    requires
        keys_distinct(s),
        s.len() > 0,
    ensures
        keys_distinct(s.drop_first()),
        as_map(s.drop_first()) == as_map(s).remove(s[0].0),
{
    let t = s.drop_first();
    assert forall|i: int, j: int| 0 <= i < j < t.len() implies #[trigger] t[i].0 != #[trigger] t[j].0 by {
        assert(t[i] == s[i + 1] && t[j] == s[j + 1]);
    }
    assert forall|n: K| #[trigger] as_map(t).contains_key(n) == as_map(s).remove(s[0].0).contains_key(n) by {
        if has_name(t, n) {
            let i = choose|i: int| 0 <= i < t.len() && #[trigger] t[i].0 == n;
            assert(s[i + 1].0 == n);
            assert(s[0].0 != s[i + 1].0);
        }
        if has_name(s, n) && n != s[0].0 {
            let i = choose|i: int| 0 <= i < s.len() && #[trigger] s[i].0 == n;
            assert(i > 0);
            assert(t[i - 1].0 == n);
        }
    }
    assert forall|n: K| #[trigger] as_map(t).contains_key(n) implies as_map(t)[n] == as_map(s).remove(s[0].0)[n] by {
        let i = choose|i: int| 0 <= i < t.len() && #[trigger] t[i].0 == n;
        lemma_index_of(t, i);
        assert(t[i] == s[i + 1]);
        lemma_index_of(s, i + 1);
    }
    assert(as_map(t) =~= as_map(s).remove(s[0].0));
}

/// Two name-sorted sequences that make the same map are the same sequence.
pub proof fn lemma_sorted_unique<W>(a: Seq<(Seq<char>, W)>, b: Seq<(Seq<char>, W)>)
    requires
        names_sorted(a),
        names_sorted(b),
        as_map(a) == as_map(b),
    ensures
        a == b,
    decreases a.len(),
{
    lemma_sorted_distinct(a);
    lemma_sorted_distinct(b);
    if a.len() == 0 {
        if b.len() > 0 {
            assert(has_name(b, b[0].0));
            assert(as_map(b).contains_key(b[0].0));
        }
        assert(a =~= b);
    } else if b.len() == 0 {
        assert(has_name(a, a[0].0));
        assert(as_map(a).contains_key(a[0].0));
    } else {
        assert(has_name(a, a[0].0));
        assert(as_map(b).contains_key(a[0].0));
        let j = choose|j: int| 0 <= j < b.len() && #[trigger] b[j].0 == a[0].0;
        assert(has_name(b, b[0].0));
        assert(as_map(a).contains_key(b[0].0));
        let i = choose|i: int| 0 <= i < a.len() && #[trigger] a[i].0 == b[0].0;
        if j > 0 {
            assert(name_lt(b[0].0, b[j].0));
            if i > 0 {
                assert(name_lt(a[0].0, a[i].0));
                lemma_name_lt_total(a[0].0, b[0].0);
            } else {
                lemma_name_lt_total(b[0].0, b[0].0);
            }
        }
        assert(b[0].0 == a[0].0);
        lemma_index_of(a, 0);
        lemma_index_of(b, 0);
        assert(a[0] == b[0]);
        lemma_as_map_drop_first(a);
        lemma_as_map_drop_first(b);
        assert(names_sorted(a.drop_first())) by {
            assert forall|x: int, y: int| 0 <= x < y < a.drop_first().len() implies
                name_lt(#[trigger] a.drop_first()[x].0, #[trigger] a.drop_first()[y].0) by {
                assert(a.drop_first()[x] == a[x + 1] && a.drop_first()[y] == a[y + 1]);
            }
        }
        assert(names_sorted(b.drop_first())) by {
            assert forall|x: int, y: int| 0 <= x < y < b.drop_first().len() implies
                name_lt(#[trigger] b.drop_first()[x].0, #[trigger] b.drop_first()[y].0) by {
                assert(b.drop_first()[x] == b[x + 1] && b.drop_first()[y] == b[y + 1]);
            }
        }
        lemma_sorted_unique(a.drop_first(), b.drop_first());
        assert(a =~= seq![a[0]] + a.drop_first());
        assert(b =~= seq![b[0]] + b.drop_first());
    }
}

/// Names sorted stay sorted when only values change.
pub proof fn lemma_sorted_update<W>(s: Seq<(Seq<char>, W)>, i: int, v: W)
    requires
        names_sorted(s),
        0 <= i < s.len(),
    ensures
        names_sorted(s.update(i, (s[i].0, v))),
{
    let t = s.update(i, (s[i].0, v));
    assert forall|a: int, b: int| 0 <= a < b < t.len() implies name_lt(#[trigger] t[a].0, #[trigger] t[b].0) by {
        assert(t[a].0 == s[a].0 && t[b].0 == s[b].0);
    }
}

/// A map from names to values, kept sorted by name as `BTreeMap<String, _>` is.
#[derive(Clone, Debug, PartialEq, Eq)]
pub struct NameMap<V> {
    entries: Vec<(String, V)>,
}

impl<V: View> View for NameMap<V> {
    type V = Seq<(Seq<char>, V::V)>;

    open spec fn view(&self) -> Seq<(Seq<char>, V::V)> {
        self.items().map_values(|e: (String, V)| (e.0@, e.1@))
    }
}

impl<V: View> NameMap<V> {
    /// The pairs as stored, in name order.
    pub closed spec fn items(&self) -> Seq<(String, V)> {
        self.entries@
    }

    pub open spec fn wf(&self) -> bool {
        names_sorted(self@)
    }

    /// The pairs read as a map.
    pub open spec fn map(&self) -> Map<Seq<char>, V::V> {
        as_map(self@)
    }

    pub fn new() -> (r: Self)
        ensures
            r.wf(),
            r@ == Seq::<(Seq<char>, V::V)>::empty(),
            r.items().len() == 0,
    {
        let r = NameMap { entries: Vec::new() };
        assert(r@ =~= Seq::<(Seq<char>, V::V)>::empty());
        r
    }

    pub fn len(&self) -> (r: usize)
        ensures
            r == self@.len(),
    {
        self.entries.len()
    }

    pub fn is_empty(&self) -> (r: bool)
        ensures
            r == (self@.len() == 0),
    {
        self.entries.len() == 0
    }

    /// The name at position `i`.
    pub fn name_at(&self, i: usize) -> (r: &String)
        requires
            i < self@.len(),
        ensures
            r@ == self@[i as int].0,
            *r == self.items()[i as int].0,
    {
        &self.entries[i].0
    }

    /// The value at position `i`.
    pub fn value_at(&self, i: usize) -> (r: &V)
        requires
            i < self@.len(),
        ensures
            r@ == self@[i as int].1,
            *r == self.items()[i as int].1,
    {
        &self.entries[i].1
    }

    /// Exchanges the value at position `i` with `value`.
    pub fn swap_value_at(&mut self, i: usize, value: &mut V)
        requires
            i < old(self)@.len(),
        ensures
            final(self)@ == old(self)@.update(i as int, (old(self)@[i as int].0, old(value)@)),
            final(self).items()[i as int].1 == *old(value),
            *final(value) == old(self).items()[i as int].1,
            final(value)@ == old(self)@[i as int].1,
            forall|j: int| 0 <= j < old(self)@.len() && j != i ==> final(self).items()[j] == old(self).items()[j],
            final(self).items()[i as int].0 == old(self).items()[i as int].0,
            final(self).items().len() == old(self).items().len(),
    {
        core::mem::swap(&mut self.entries[i].1, value);
        assert(self@ =~= old(self)@.update(i as int, (old(self)@[i as int].0, old(value)@)));
    }

    /// Where `name` is, or where it would go.
    pub fn position(&self, name: &str) -> (r: (usize, bool))
        requires
            self.wf(),
        ensures
            r.0 <= self@.len(),
            forall|i: int| 0 <= i < r.0 ==> name_lt(#[trigger] self@[i].0, name@),
            r.1 ==> r.0 < self@.len() && self@[r.0 as int].0 == name@,
            !r.1 ==> forall|i: int| r.0 <= i < self@.len() ==> name_lt(name@, #[trigger] self@[i].0),
            r.1 == has_name(self@, name@),
    {
        let mut i: usize = 0;
        while i < self.entries.len()
            invariant
                self.wf(),
                i <= self@.len(),
                forall|j: int| 0 <= j < i ==> name_lt(#[trigger] self@[j].0, name@),
            decreases self@.len() - i,
        {
            let c = compare_names(self.entries[i].0.as_str(), name);
            match c {
                Order::Less => {
                    i = i + 1;
                },
                Order::Equal => {
                    return (i, true);
                },
                Order::Greater => {
                    assert forall|j: int| i <= j < self@.len() implies name_lt(name@, #[trigger] self@[j].0) by {
                        if j > i {
                            assert(name_lt(self@[i as int].0, self@[j].0));
                            lemma_name_lt_transitive(name@, self@[i as int].0, self@[j].0);
                        }
                    }
                    assert forall|j: int| 0 <= j < self@.len() implies #[trigger] self@[j].0 != name@ by {
                        if j < i {
                            lemma_name_lt_total(self@[j].0, name@);
                        } else {
                            lemma_name_lt_total(name@, self@[j].0);
                        }
                    }
                    return (i, false);
                },
            }
        }
        assert forall|j: int| 0 <= j < self@.len() implies #[trigger] self@[j].0 != name@ by {
            lemma_name_lt_total(self@[j].0, name@);
        }
        (i, false)
    }

    /// Adds `name` after every name held.
    pub fn push(&mut self, name: String, value: V)
        requires
            old(self).wf(),
            forall|i: int| 0 <= i < old(self)@.len() ==> name_lt(#[trigger] old(self)@[i].0, name@),
        ensures
            final(self).wf(),
            final(self)@ == old(self)@.push((name@, value@)),
            final(self).items() == old(self).items().push((name, value)),
    {
        let ghost old_view = self@;
        let ghost nv = name@;
        let ghost vv = value@;
        self.entries.push((name, value));
        assert(self@ =~= old_view.push((nv, vv)));
        assert forall|a: int, b: int| 0 <= a < b < self@.len() implies name_lt(#[trigger] self@[a].0, #[trigger] self@[b].0) by {
            if b < old_view.len() {
                assert(self@[a] == old_view[a] && self@[b] == old_view[b]);
            } else {
                assert(self@[a] == old_view[a]);
            }
        }
    }

    /// The value held under `name`.
    pub fn get(&self, name: &str) -> (r: Option<&V>)
        requires
            self.wf(),
        ensures
            r is Some == self.map().contains_key(name@),
            r is Some ==> r.unwrap()@ == self.map()[name@],
    {
        let (i, found) = self.position(name);
        if found {
            proof {
                lemma_sorted_distinct(self@);
                lemma_index_of(self@, i as int);
            }
            Some(&self.entries[i].1)
        } else {
            None
        }
    }

    pub fn contains_key(&self, name: &str) -> (r: bool)
        requires
            self.wf(),
        ensures
            r == self.map().contains_key(name@),
    {
        let (_, found) = self.position(name);
        found
    }

    /// Puts `value` under `name`, replacing what was there.
    pub fn insert(&mut self, name: String, value: V)
        requires
            old(self).wf(),
        ensures
            final(self).wf(),
            final(self).map() == old(self).map().insert(name@, value@),
            final(self)@.len() == old(self)@.len() + if old(self).map().contains_key(name@) { 0int } else { 1int },
            forall|i: int| 0 <= i < final(self).items().len() ==> (#[trigger] final(self).items()[i]) == (name, value)
                || old(self).items().contains(final(self).items()[i]),
    {
        let ghost old_view = self@;
        let ghost nv = name@;
        let ghost vv = value@;
        let (i, found) = self.position(name.as_str());
        proof { lemma_sorted_distinct(old_view); }
        if found {
            self.entries.set(i, (name, value));
            assert(self@ =~= old_view.update(i as int, (nv, vv)));
            assert forall|j: int| 0 <= j < self.items().len() && j != i implies old(self).items().contains(#[trigger] self.items()[j]) by {
                assert(old(self).items()[j] == self.items()[j]);
            }
            assert(self.wf()) by {
                assert forall|a: int, b: int| 0 <= a < b < self@.len() implies name_lt(#[trigger] self@[a].0, #[trigger] self@[b].0) by {
                    assert(self@[a].0 == old_view[a].0);
                    assert(self@[b].0 == old_view[b].0);
                }
            }
            proof {
                lemma_sorted_distinct(self@);
                assert forall|k: Seq<char>| #[trigger] self.map().contains_key(k) == as_map(old_view).insert(nv, vv).contains_key(k) by {
                    if has_name(self@, k) {
                        let j = choose|j: int| 0 <= j < self@.len() && #[trigger] self@[j].0 == k;
                        assert(old_view[j].0 == k);
                    }
                    if has_name(old_view, k) {
                        let j = choose|j: int| 0 <= j < old_view.len() && #[trigger] old_view[j].0 == k;
                        assert(self@[j].0 == k);
                    }
                }
                assert forall|k: Seq<char>| #[trigger] self.map().contains_key(k) implies self.map()[k] == as_map(old_view).insert(nv, vv)[k] by {
                    let j = choose|j: int| 0 <= j < self@.len() && #[trigger] self@[j].0 == k;
                    lemma_index_of(self@, j);
                    if j != i {
                        assert(old_view[j] == self@[j]);
                        lemma_index_of(old_view, j);
                        lemma_index_of(old_view, i as int);
                        lemma_index_of(self@, i as int);
                    } else {
                        assert(self@[i as int].0 == nv);
                    }
                }
                assert(self.map() =~= as_map(old_view).insert(nv, vv));
            }
        } else {
            self.entries.insert(i, (name, value));
            assert(self@ =~= old_view.insert(i as int, (nv, vv)));
            assert forall|j: int| 0 <= j < self.items().len() && j != i implies old(self).items().contains(#[trigger] self.items()[j]) by {
                if j < i {
                    assert(old(self).items()[j] == self.items()[j]);
                } else {
                    assert(old(self).items()[j - 1] == self.items()[j]);
                }
            }
            assert(self.wf()) by {
                assert forall|a: int, b: int| 0 <= a < b < self@.len() implies name_lt(#[trigger] self@[a].0, #[trigger] self@[b].0) by {
                    if b < i {
                        assert(self@[a] == old_view[a] && self@[b] == old_view[b]);
                    } else if b == i {
                        assert(self@[a] == old_view[a]);
                    } else if a < i {
                        assert(self@[a] == old_view[a] && self@[b] == old_view[b - 1]);
                        lemma_name_lt_transitive(self@[a].0, nv, self@[b].0);
                    } else if a == i {
                        assert(self@[b] == old_view[b - 1]);
                    } else {
                        assert(self@[a] == old_view[a - 1] && self@[b] == old_view[b - 1]);
                    }
                }
            }
            proof {
                lemma_sorted_distinct(self@);
                assert forall|k: Seq<char>| #[trigger] self.map().contains_key(k) == as_map(old_view).insert(nv, vv).contains_key(k) by {
                    if has_name(self@, k) {
                        let j = choose|j: int| 0 <= j < self@.len() && #[trigger] self@[j].0 == k;
                        if j < i {
                            assert(old_view[j].0 == k);
                        } else if j > i {
                            assert(old_view[j - 1].0 == k);
                        }
                    }
                    if has_name(old_view, k) {
                        let j = choose|j: int| 0 <= j < old_view.len() && #[trigger] old_view[j].0 == k;
                        if j < i {
                            assert(self@[j].0 == k);
                        } else {
                            assert(self@[j + 1].0 == k);
                        }
                    }
                    assert(self@[i as int].0 == nv);
                }
                assert forall|k: Seq<char>| #[trigger] self.map().contains_key(k) implies self.map()[k] == as_map(old_view).insert(nv, vv)[k] by {
                    let j = choose|j: int| 0 <= j < self@.len() && #[trigger] self@[j].0 == k;
                    lemma_index_of(self@, j);
                    if j < i {
                        assert(old_view[j] == self@[j]);
                        lemma_index_of(old_view, j);
                    } else if j > i {
                        assert(old_view[j - 1] == self@[j]);
                        lemma_index_of(old_view, j - 1);
                    }
                }
                assert(self.map() =~= as_map(old_view).insert(nv, vv));
            }
        }
    }
}

impl<V: Duplicate> Duplicate for NameMap<V> {
    fn duplicate(&self) -> (r: Self) {
        let mut entries: Vec<(String, V)> = Vec::new();
        let mut i: usize = 0;
        while i < self.entries.len()
            invariant
                i <= self@.len(),
                entries@.len() == i,
                forall|j: int| 0 <= j < i ==> (#[trigger] entries@[j]).0@ == self@[j].0 && entries@[j].1@ == self@[j].1,
            decreases self@.len() - i,
        {
            let name = self.entries[i].0.clone();
            let value = self.entries[i].1.duplicate();
            entries.push((name, value));
            i = i + 1;
        }
        let r = NameMap { entries };
        assert(r@ =~= self@);
        r
    }
}

} // verus!

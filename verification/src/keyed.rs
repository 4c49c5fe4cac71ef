//! Association lists keyed by strings, viewed as finite maps.
//!
//! Directory contents, route captures and registries are all small
//! string-keyed tables. [`Assoc`] keeps its entries in a vector with
//! pairwise-distinct keys and is specified as a `Map` from the keys'
//! character sequences to the values.

use vstd::prelude::*;
use crate::text::str_eq;

verus! {

/// A key that can be read as a string slice with the same characters.
pub trait KeyStr: View<V = Seq<char>> {
    fn key_str(&self) -> (r: &str)
        ensures
            r@ == self@;
}

impl KeyStr for &'static str {
    fn key_str(&self) -> (r: &str) {
        *self
    }
}

impl KeyStr for String {
    fn key_str(&self) -> (r: &str) {
        self.as_str()
    }
}

/// A vector of `(key, value)` pairs whose keys are pairwise distinct.
pub struct Assoc<K, V> {
    pub entries: Vec<(K, V)>,
}

impl<K: KeyStr, V> Assoc<K, V> {
    /// Keys are pairwise distinct.
    pub open spec fn wf(&self) -> bool {
        forall|i: int, j: int|
            0 <= i < j < self.entries@.len() ==> #[trigger] self.entries@[i].0@ != #[trigger] self.entries@[j].0@
    }

    /// Some entry has key `k`.
    pub open spec fn has(&self, k: Seq<char>) -> bool {
        exists|i: int| 0 <= i < self.entries@.len() && #[trigger] self.entries@[i].0@ == k
    }

    /// An index whose key is `k` (meaningful when `has(k)`).
    pub open spec fn index_of(&self, k: Seq<char>) -> int {
        choose|i: int| 0 <= i < self.entries@.len() && #[trigger] self.entries@[i].0@ == k
    }

    /// The entries as a map from key characters to values.
    pub open spec fn view(&self) -> Map<Seq<char>, V> {
        Map::new(|k: Seq<char>| self.has(k), |k: Seq<char>| self.entries@[self.index_of(k)].1)
    }

    /// Entry `i` is what the map holds under its key.
    pub proof fn lemma_entry(&self, i: int)
        requires
            self.wf(),
            0 <= i < self.entries@.len(),
        ensures
            self.view().contains_key(self.entries@[i].0@),
            self.view()[self.entries@[i].0@] == self.entries@[i].1,
            self.index_of(self.entries@[i].0@) == i,
    {
        assert(self.has(self.entries@[i].0@));
        let j = self.index_of(self.entries@[i].0@);
        if j != i {
            if j < i {
                assert(self.entries@[j].0@ != self.entries@[i].0@);
            } else {
                assert(self.entries@[i].0@ != self.entries@[j].0@);
            }
        }
    }

    /// Entries at distinct indices have distinct keys.
    pub proof fn lemma_distinct(&self, a: int, b: int)
        requires
            self.wf(),
            0 <= a < self.entries@.len(),
            0 <= b < self.entries@.len(),
            a != b,
        ensures
            self.entries@[a].0@ != self.entries@[b].0@,
    {
        if a < b {
            assert(self.entries@[a].0@ != self.entries@[b].0@);
        } else {
            assert(self.entries@[b].0@ != self.entries@[a].0@);
        }
    }

    /// The map's keys are exactly the entries' keys.
    pub proof fn lemma_dom(&self)
        requires
            self.wf(),
        ensures
            forall|k: Seq<char>| #[trigger] self.view().contains_key(k) <==> self.has(k),
            self.view().dom().finite(),
            self.view().dom().len() == self.entries@.len(),
    {
        let keys = Seq::new(self.entries@.len(), |i: int| self.entries@[i].0@);
        assert(keys.no_duplicates()) by {
            assert forall|i: int, j: int| 0 <= i < keys.len() && 0 <= j < keys.len() && i != j implies keys[i] != keys[j] by {
                if i < j {
                    assert(self.entries@[i].0@ != self.entries@[j].0@);
                } else {
                    assert(self.entries@[j].0@ != self.entries@[i].0@);
                }
            }
        }
        assert(self.view().dom() =~= keys.to_set()) by {
            assert forall|k: Seq<char>| self.view().dom().contains(k) implies keys.to_set().contains(k) by {
                let i = self.index_of(k);
                assert(keys[i] == k);
            }
            assert forall|k: Seq<char>| keys.to_set().contains(k) implies self.view().dom().contains(k) by {
                let i = choose|i: int| 0 <= i < keys.len() && keys[i] == k;
                assert(self.entries@[i].0@ == k);
            }
        }
        keys.unique_seq_to_set();
    }

    /// An empty table.
    pub fn new() -> (r: Self)
        ensures
            r.wf(),
            r.view() == Map::<Seq<char>, V>::empty(),
            r.entries@.len() == 0,
    {
        let r = Assoc { entries: Vec::new() };
        assert(r.view() =~= Map::<Seq<char>, V>::empty());
        r
    }

    /// Number of entries.
    pub fn len(&self) -> (r: usize)
        ensures
            r == self.entries@.len(),
    {
        self.entries.len()
    }

    /// The index of the entry with key `key`, if any.
    pub fn find(&self, key: &str) -> (r: Option<usize>)
        requires
            self.wf(),
        ensures
            r is None <==> !self.view().contains_key(key@),
            r matches Some(i) ==> i < self.entries@.len() && self.entries@[i as int].0@ == key@
                && self.index_of(key@) == i,
    {
        let n = self.entries.len();
        let mut i: usize = 0;
        while i < n
            invariant
                n == self.entries@.len(),
                i <= n,
                self.wf(),
                forall|j: int| 0 <= j < i ==> #[trigger] self.entries@[j].0@ != key@,
            decreases n - i,
        {
            if str_eq(self.entries[i].0.key_str(), key) {
                proof { self.lemma_entry(i as int); }
                return Some(i);
            }
            i = i + 1;
        }
        None
    }

    /// The value stored under `key`, if any.
    pub fn get(&self, key: &str) -> (r: Option<&V>)
        requires
            self.wf(),
        ensures
            r is Some <==> self.view().contains_key(key@),
            r matches Some(v) ==> *v == self.view()[key@],
    {
        match self.find(key) {
            Some(i) => {
                proof { self.lemma_entry(i as int); }
                Some(&self.entries[i].1)
            },
            None => None,
        }
    }

    /// Remove the entry at index `i`, returning it.
    pub fn remove_at(&mut self, i: usize) -> (r: (K, V))
        requires
            old(self).wf(),
            i < old(self).entries@.len(),
        ensures
            final(self).wf(),
            r == old(self).entries@[i as int],
            final(self).entries@ == old(self).entries@.remove(i as int),
            final(self).view() == old(self).view().remove(r.0@),
    {
        proof { old(self).lemma_entry(i as int); }
        let r = self.entries.remove(i);
        let ghost o = old(self).entries@;
        assert(self.wf()) by {
            assert forall|a: int, b: int| 0 <= a < b < self.entries@.len() implies
                #[trigger] self.entries@[a].0@ != #[trigger] self.entries@[b].0@ by {
                let oa = if a < i { a } else { a + 1 };
                let ob = if b < i { b } else { b + 1 };
                assert(self.entries@[a] == o[oa]);
                assert(self.entries@[b] == o[ob]);
                assert(o[oa].0@ != o[ob].0@);
            }
        }
        assert(self.view() =~= old(self).view().remove(r.0@)) by {
            assert forall|k: Seq<char>| #[trigger] self.view().contains_key(k) <==> old(self).view().remove(r.0@).contains_key(k) by {
                if self.has(k) {
                    let a = choose|a: int| 0 <= a < self.entries@.len() && #[trigger] self.entries@[a].0@ == k;
                    let oa = if a < i { a } else { a + 1 };
                    assert(o[oa].0@ == k);
                    assert(oa != i);
                    if k == r.0@ {
                        if oa < i {
                            assert(o[oa].0@ != o[i as int].0@);
                        } else {
                            assert(o[i as int].0@ != o[oa].0@);
                        }
                    }
                }
                if old(self).has(k) && k != r.0@ {
                    let oa = choose|a: int| 0 <= a < o.len() && #[trigger] o[a].0@ == k;
                    assert(oa != i);
                    let a = if oa < i { oa } else { oa - 1 };
                    assert(self.entries@[a].0@ == k);
                }
            }
            assert forall|k: Seq<char>| #[trigger] self.view().contains_key(k) implies
                self.view()[k] == old(self).view().remove(r.0@)[k] by {
                let a = self.index_of(k);
                self.lemma_entry(a);
                let oa = if a < i { a } else { a + 1 };
                assert(o[oa] == self.entries@[a]);
                old(self).lemma_entry(oa);
            }
        }
        r
    }

    /// Remove the entry with key `key`, returning its value if it existed.
    pub fn remove(&mut self, key: &str) -> (r: Option<V>)
        requires
            old(self).wf(),
        ensures
            final(self).wf(),
            final(self).view() == old(self).view().remove(key@),
            r is Some <==> old(self).view().contains_key(key@),
            r matches Some(v) ==> v == old(self).view()[key@],
    {
        match self.find(key) {
            Some(i) => {
                proof { self.lemma_entry(i as int); }
                let (_, v) = self.remove_at(i);
                Some(v)
            },
            None => {
                assert(self.view() =~= old(self).view().remove(key@));
                None
            },
        }
    }

    /// Replacing the value at index `i` keeps the keys and updates the map.
    pub proof fn lemma_update_value(&self, other: &Self, i: int, v: V)
        requires
            self.wf(),
            0 <= i < self.entries@.len(),
            other.entries@ == self.entries@.update(i, (self.entries@[i].0, v)),
        ensures
            other.wf(),
            other.view() == self.view().insert(self.entries@[i].0@, v),
    {
        assert(other.wf()) by {
            assert forall|a: int, b: int| 0 <= a < b < other.entries@.len() implies
                #[trigger] other.entries@[a].0@ != #[trigger] other.entries@[b].0@ by {
                assert(other.entries@[a].0 == self.entries@[a].0);
                assert(other.entries@[b].0 == self.entries@[b].0);
            }
        }
        self.lemma_entry(i);
        assert(other.view() =~= self.view().insert(self.entries@[i].0@, v)) by {
            assert forall|k: Seq<char>| #[trigger] other.view().contains_key(k) <==> self.view().insert(self.entries@[i].0@, v).contains_key(k) by {
                if other.has(k) {
                    let a = choose|a: int| 0 <= a < other.entries@.len() && #[trigger] other.entries@[a].0@ == k;
                    assert(self.entries@[a].0@ == k);
                }
                if self.has(k) {
                    let a = choose|a: int| 0 <= a < self.entries@.len() && #[trigger] self.entries@[a].0@ == k;
                    assert(other.entries@[a].0@ == k);
                }
                if k == self.entries@[i].0@ {
                    assert(other.entries@[i].0@ == k);
                }
            }
            assert forall|k: Seq<char>| #[trigger] other.view().contains_key(k) implies
                other.view()[k] == self.view().insert(self.entries@[i].0@, v)[k] by {
                let a = other.index_of(k);
                other.lemma_entry(a);
                if a != i {
                    assert(other.entries@[a] == self.entries@[a]);
                    self.lemma_entry(a);
                }
            }
        }
    }

    /// The value at index `i`, mutably; the keys stay as they are.
    pub fn value_mut(&mut self, i: usize) -> (r: &mut V)
        requires
            i < old(self).entries@.len(),
        ensures
            *r == old(self).entries@[i as int].1,
            final(self).entries@ == old(self).entries@.update(i as int, (old(self).entries@[i as int].0, *final(r))),
    {
        &mut self.entries[i].1
    }

    /// Insert or replace the value under `key`, returning the previous value.
    pub fn insert(&mut self, key: K, value: V) -> (r: Option<V>)
        requires
            old(self).wf(),
        ensures
            final(self).wf(),
            final(self).view() == old(self).view().insert(key@, value),
            r is Some <==> old(self).view().contains_key(key@),
            r matches Some(v) ==> v == old(self).view()[key@],
    {
        let r = self.remove(key.key_str());
        let ghost mid = self.entries@;
        let ghost mid_view = self.view();
        let ghost mid_self: Assoc<K, V> = *self;
        assert(!self.view().contains_key(key@));
        self.entries.push((key, value));
        let ghost n = self.entries@;
        assert(self.wf()) by {
            assert forall|a: int, b: int| 0 <= a < b < n.len() implies
                #[trigger] n[a].0@ != #[trigger] n[b].0@ by {
                assert(n[a] == mid[a]);
                if b < mid.len() {
                    assert(n[b] == mid[b]);
                } else {
                    if n[a].0@ == key@ {
                        assert(self.has(key@)) by {
                            assert(mid[a].0@ == key@);
                        }
                        assert(mid_view.contains_key(key@)) by {
                            assert(mid[a].0@ == key@);
                        }
                    }
                }
            }
        }
        assert(self.view() =~= old(self).view().insert(key@, value)) by {
            assert forall|k: Seq<char>| #[trigger] self.view().contains_key(k) <==> old(self).view().insert(key@, value).contains_key(k) by {
                if k == key@ {
                    assert(n[mid.len() as int].0@ == key@);
                } else {
                    if self.has(k) {
                        let a = choose|a: int| 0 <= a < n.len() && #[trigger] n[a].0@ == k;
                        assert(a < mid.len());
                        assert(mid[a].0@ == k);
                    }
                    if mid_view.contains_key(k) {
                        let a = choose|a: int| 0 <= a < mid.len() && #[trigger] mid[a].0@ == k;
                        assert(n[a].0@ == k);
                    }
                }
            }
            assert forall|k: Seq<char>| #[trigger] self.view().contains_key(k) implies
                self.view()[k] == old(self).view().insert(key@, value)[k] by {
                let a = self.index_of(k);
                self.lemma_entry(a);
                if a < mid.len() {
                    assert(n[a] == mid[a]);
                    mid_self.lemma_entry(a);
                    assert(k != key@);
                } else {
                    assert(a == mid.len());
                }
            }
        }
        r
    }
}


/// A vector of `(number, value)` pairs whose numbers are pairwise distinct.
pub struct IntTable<V> {
    pub entries: Vec<(u64, V)>,
}

impl<V> IntTable<V> {
    /// Keys are pairwise distinct.
    pub open spec fn wf(&self) -> bool {
        forall|i: int, j: int|
            0 <= i < j < self.entries@.len() ==> #[trigger] self.entries@[i].0 != #[trigger] self.entries@[j].0
    }

    /// Some entry has key `k`.
    pub open spec fn has(&self, k: u64) -> bool {
        exists|i: int| 0 <= i < self.entries@.len() && #[trigger] self.entries@[i].0 == k
    }

    /// An index whose key is `k` (meaningful when `has(k)`).
    pub open spec fn index_of(&self, k: u64) -> int {
        choose|i: int| 0 <= i < self.entries@.len() && #[trigger] self.entries@[i].0 == k
    }

    /// The entries as a map from numbers to values.
    pub open spec fn view(&self) -> Map<u64, V> {
        Map::new(|k: u64| self.has(k), |k: u64| self.entries@[self.index_of(k)].1)
    }

    /// Entry `i` is what the map holds under its key.
    pub proof fn lemma_entry(&self, i: int)
        requires
            self.wf(),
            0 <= i < self.entries@.len(),
        ensures
            self.view().contains_key(self.entries@[i].0),
            self.view()[self.entries@[i].0] == self.entries@[i].1,
            self.index_of(self.entries@[i].0) == i,
    {
        assert(self.has(self.entries@[i].0));
        let j = self.index_of(self.entries@[i].0);
        if j != i {
            if j < i {
                assert(self.entries@[j].0 != self.entries@[i].0);
            } else {
                assert(self.entries@[i].0 != self.entries@[j].0);
            }
        }
    }

    /// Entries at distinct indices have distinct keys.
    pub proof fn lemma_distinct(&self, a: int, b: int)
        requires
            self.wf(),
            0 <= a < self.entries@.len(),
            0 <= b < self.entries@.len(),
            a != b,
        ensures
            self.entries@[a].0 != self.entries@[b].0,
    {
        if a < b {
            assert(self.entries@[a].0 != self.entries@[b].0);
        } else {
            assert(self.entries@[b].0 != self.entries@[a].0);
        }
    }

    /// The map's keys are exactly the entries' keys.
    pub proof fn lemma_dom(&self)
        requires
            self.wf(),
        ensures
            forall|k: u64| #[trigger] self.view().contains_key(k) <==> self.has(k),
            self.view().dom().finite(),
            self.view().dom().len() == self.entries@.len(),
    {
        let keys = Seq::new(self.entries@.len(), |i: int| self.entries@[i].0);
        assert(keys.no_duplicates()) by {
            assert forall|i: int, j: int| 0 <= i < keys.len() && 0 <= j < keys.len() && i != j implies keys[i] != keys[j] by {
                if i < j {
                    assert(self.entries@[i].0 != self.entries@[j].0);
                } else {
                    assert(self.entries@[j].0 != self.entries@[i].0);
                }
            }
        }
        assert(self.view().dom() =~= keys.to_set()) by {
            assert forall|k: u64| self.view().dom().contains(k) implies keys.to_set().contains(k) by {
                let i = self.index_of(k);
                assert(keys[i] == k);
            }
            assert forall|k: u64| keys.to_set().contains(k) implies self.view().dom().contains(k) by {
                let i = choose|i: int| 0 <= i < keys.len() && keys[i] == k;
                assert(self.entries@[i].0 == k);
            }
        }
        keys.unique_seq_to_set();
    }

    /// An empty table.
    pub fn new() -> (r: Self)
        ensures
            r.wf(),
            r.view() == Map::<u64, V>::empty(),
            r.entries@.len() == 0,
    {
        let r = IntTable { entries: Vec::new() };
        assert(r.view() =~= Map::<u64, V>::empty());
        r
    }

    /// Number of entries.
    pub fn len(&self) -> (r: usize)
        ensures
            r == self.entries@.len(),
    {
        self.entries.len()
    }

    /// The index of the entry with key `key`, if any.
    pub fn find(&self, key: u64) -> (r: Option<usize>)
        requires
            self.wf(),
        ensures
            r is None <==> !self.view().contains_key(key),
            r matches Some(i) ==> i < self.entries@.len() && self.entries@[i as int].0 == key
                && self.index_of(key) == i,
    {
        let n = self.entries.len();
        let mut i: usize = 0;
        while i < n
            invariant
                n == self.entries@.len(),
                i <= n,
                self.wf(),
                forall|j: int| 0 <= j < i ==> #[trigger] self.entries@[j].0 != key,
            decreases n - i,
        {
            if self.entries[i].0 == key {
                proof { self.lemma_entry(i as int); }
                return Some(i);
            }
            i = i + 1;
        }
        None
    }

    /// The value stored under `key`, if any.
    pub fn get(&self, key: u64) -> (r: Option<&V>)
        requires
            self.wf(),
        ensures
            r is Some <==> self.view().contains_key(key),
            r matches Some(v) ==> *v == self.view()[key],
    {
        match self.find(key) {
            Some(i) => {
                proof { self.lemma_entry(i as int); }
                Some(&self.entries[i].1)
            },
            None => None,
        }
    }

    /// Remove the entry at index `i`, returning it.
    pub fn remove_at(&mut self, i: usize) -> (r: (u64, V))
        requires
            old(self).wf(),
            i < old(self).entries@.len(),
        ensures
            final(self).wf(),
            r == old(self).entries@[i as int],
            final(self).entries@ == old(self).entries@.remove(i as int),
            final(self).view() == old(self).view().remove(r.0),
    {
        proof { old(self).lemma_entry(i as int); }
        let r = self.entries.remove(i);
        let ghost o = old(self).entries@;
        assert(self.wf()) by {
            assert forall|a: int, b: int| 0 <= a < b < self.entries@.len() implies
                #[trigger] self.entries@[a].0 != #[trigger] self.entries@[b].0 by {
                let oa = if a < i { a } else { a + 1 };
                let ob = if b < i { b } else { b + 1 };
                assert(self.entries@[a] == o[oa]);
                assert(self.entries@[b] == o[ob]);
                assert(o[oa].0 != o[ob].0);
            }
        }
        assert(self.view() =~= old(self).view().remove(r.0)) by {
            assert forall|k: u64| #[trigger] self.view().contains_key(k) <==> old(self).view().remove(r.0).contains_key(k) by {
                if self.has(k) {
                    let a = choose|a: int| 0 <= a < self.entries@.len() && #[trigger] self.entries@[a].0 == k;
                    let oa = if a < i { a } else { a + 1 };
                    assert(o[oa].0 == k);
                    assert(oa != i);
                    if k == r.0 {
                        if oa < i {
                            assert(o[oa].0 != o[i as int].0);
                        } else {
                            assert(o[i as int].0 != o[oa].0);
                        }
                    }
                }
                if old(self).has(k) && k != r.0 {
                    let oa = choose|a: int| 0 <= a < o.len() && #[trigger] o[a].0 == k;
                    assert(oa != i);
                    let a = if oa < i { oa } else { oa - 1 };
                    assert(self.entries@[a].0 == k);
                }
            }
            assert forall|k: u64| #[trigger] self.view().contains_key(k) implies
                self.view()[k] == old(self).view().remove(r.0)[k] by {
                let a = self.index_of(k);
                self.lemma_entry(a);
                let oa = if a < i { a } else { a + 1 };
                assert(o[oa] == self.entries@[a]);
                old(self).lemma_entry(oa);
            }
        }
        r
    }

    /// Remove the entry with key `key`, returning its value if it existed.
    pub fn remove(&mut self, key: u64) -> (r: Option<V>)
        requires
            old(self).wf(),
        ensures
            final(self).wf(),
            final(self).view() == old(self).view().remove(key),
            r is Some <==> old(self).view().contains_key(key),
            r matches Some(v) ==> v == old(self).view()[key],
    {
        match self.find(key) {
            Some(i) => {
                proof { self.lemma_entry(i as int); }
                let (_, v) = self.remove_at(i);
                Some(v)
            },
            None => {
                assert(self.view() =~= old(self).view().remove(key));
                None
            },
        }
    }

    /// Insert or replace the value under `key`, returning the previous value.
    pub fn insert(&mut self, key: u64, value: V) -> (r: Option<V>)
        requires
            old(self).wf(),
        ensures
            final(self).wf(),
            final(self).view() == old(self).view().insert(key, value),
            r is Some <==> old(self).view().contains_key(key),
            r matches Some(v) ==> v == old(self).view()[key],
    {
        let r = self.remove(key);
        let ghost mid = self.entries@;
        let ghost mid_view = self.view();
        let ghost mid_self: IntTable<V> = *self;
        assert(!self.view().contains_key(key));
        self.entries.push((key, value));
        let ghost n = self.entries@;
        assert(self.wf()) by {
            assert forall|a: int, b: int| 0 <= a < b < n.len() implies
                #[trigger] n[a].0 != #[trigger] n[b].0 by {
                assert(n[a] == mid[a]);
                if b < mid.len() {
                    assert(n[b] == mid[b]);
                } else {
                    if n[a].0 == key {
                        assert(self.has(key)) by {
                            assert(mid[a].0 == key);
                        }
                        assert(mid_view.contains_key(key)) by {
                            assert(mid[a].0 == key);
                        }
                    }
                }
            }
        }
        assert(self.view() =~= old(self).view().insert(key, value)) by {
            assert forall|k: u64| #[trigger] self.view().contains_key(k) <==> old(self).view().insert(key, value).contains_key(k) by {
                if k == key {
                    assert(n[mid.len() as int].0 == key);
                } else {
                    if self.has(k) {
                        let a = choose|a: int| 0 <= a < n.len() && #[trigger] n[a].0 == k;
                        assert(a < mid.len());
                        assert(mid[a].0 == k);
                    }
                    if mid_view.contains_key(k) {
                        let a = choose|a: int| 0 <= a < mid.len() && #[trigger] mid[a].0 == k;
                        assert(n[a].0 == k);
                    }
                }
            }
            assert forall|k: u64| #[trigger] self.view().contains_key(k) implies
                self.view()[k] == old(self).view().insert(key, value)[k] by {
                let a = self.index_of(k);
                self.lemma_entry(a);
                if a < mid.len() {
                    assert(n[a] == mid[a]);
                    mid_self.lemma_entry(a);
                    assert(k != key);
                } else {
                    assert(a == mid.len());
                }
            }
        }
        r
    }
}

} // verus!

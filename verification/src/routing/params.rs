//! Accumulated route captures.

use vstd::prelude::*;
use crate::keyed::Assoc;

verus! {

/// Captures accumulated while walking a route tree. Captures of parent
/// segments propagate to every handler below them.
pub struct RouteParams {
    singles: Assoc<&'static str, String>,
    rest: Assoc<&'static str, Vec<String>>,
}

/// Mathematical view of route captures.
pub ghost struct ParamsView {
    pub singles: Map<Seq<char>, Seq<char>>,
    pub rest: Map<Seq<char>, Seq<Seq<char>>>,
}

/// No captures.
pub open spec fn empty_params() -> ParamsView {
    ParamsView { singles: Map::empty(), rest: Map::empty() }
}

/// The characters of each string in `v`.
pub open spec fn strings_view(v: Seq<String>) -> Seq<Seq<char>> {
    v.map_values(|s: String| s@)
}

impl RouteParams {
    #[verifier::type_invariant]
    spec fn inv(&self) -> bool {
        self.singles.wf() && self.rest.wf()
    }

    /// Single-segment captures by name.
    pub closed spec fn single_map(&self) -> Map<Seq<char>, Seq<char>> {
        self.singles@.map_values(|s: String| s@)
    }

    /// Rest captures by name.
    pub closed spec fn rest_map(&self) -> Map<Seq<char>, Seq<Seq<char>>> {
        self.rest@.map_values(|v: Vec<String>| strings_view(v@))
    }

    /// Both capture maps.
    pub open spec fn pv(&self) -> ParamsView {
        ParamsView { singles: self.single_map(), rest: self.rest_map() }
    }

    /// No captures at all.
    pub fn new() -> (r: Self)
        ensures
            r.single_map() == Map::<Seq<char>, Seq<char>>::empty(),
            r.rest_map() == Map::<Seq<char>, Seq<Seq<char>>>::empty(),
    {
        let r = RouteParams { singles: Assoc::new(), rest: Assoc::new() };
        assert(r.single_map() =~= Map::<Seq<char>, Seq<char>>::empty());
        assert(r.rest_map() =~= Map::<Seq<char>, Seq<Seq<char>>>::empty());
        r
    }

    /// Insert a single-segment capture, replacing one of the same name.
    pub fn insert_single(&mut self, name: &'static str, value: String)
        ensures
            final(self).single_map() == old(self).single_map().insert(name@, value@),
            final(self).rest_map() == old(self).rest_map(),
    {
        proof { use_type_invariant(&*self); }
        let ghost v = value@;
        let mut singles = Assoc::new();
        std::mem::swap(&mut singles, &mut self.singles);
        singles.insert(name, value);
        self.singles = singles;
        assert(self.single_map() =~= old(self).single_map().insert(name@, v));
    }

    /// Insert a rest capture (one or more segments), replacing one of the same name.
    pub fn insert_rest(&mut self, name: &'static str, segments: Vec<String>)
        ensures
            final(self).rest_map() == old(self).rest_map().insert(name@, strings_view(segments@)),
            final(self).single_map() == old(self).single_map(),
    {
        proof { use_type_invariant(&*self); }
        let ghost v = strings_view(segments@);
        let mut rest = Assoc::new();
        std::mem::swap(&mut rest, &mut self.rest);
        rest.insert(name, segments);
        self.rest = rest;
        assert(self.rest_map() =~= old(self).rest_map().insert(name@, v));
    }

    /// The single-segment capture named `name`.
    ///
    /// A missing capture is a programming error in the route declaration,
    /// so the name must be one the route ancestry captures.
    pub fn get(&self, name: &str) -> (r: &str)
        requires
            self.single_map().contains_key(name@),
        ensures
            r@ == self.single_map()[name@],
    {
        proof { use_type_invariant(self); }
        match self.singles.get(name) {
            Some(v) => v.as_str(),
            None => {
                proof { assert(false); }
                ""
            },
        }
    }

    /// The rest capture named `name` (one or more segments).
    pub fn get_rest(&self, name: &str) -> (r: &[String])
        requires
            self.rest_map().contains_key(name@),
        ensures
            strings_view(r@) == self.rest_map()[name@],
    {
        proof { use_type_invariant(self); }
        match self.rest.get(name) {
            Some(v) => v.as_slice(),
            None => {
                proof { assert(false); }
                &[]
            },
        }
    }

    /// The single-segment capture named `name`, if there is one.
    pub fn find(&self, name: &str) -> (r: Option<&str>)
        ensures
            r is Some <==> self.single_map().contains_key(name@),
            r matches Some(v) ==> v@ == self.single_map()[name@],
    {
        proof { use_type_invariant(self); }
        match self.singles.get(name) {
            Some(v) => Some(v.as_str()),
            None => None,
        }
    }

    /// An independent copy with the same captures.
    pub fn duplicate(&self) -> (r: Self)
        ensures
            r.single_map() == self.single_map(),
            r.rest_map() == self.rest_map(),
    {
        proof { use_type_invariant(self); }
        let mut singles: Vec<(&'static str, String)> = Vec::new();
        let n = self.singles.entries.len();
        let mut i: usize = 0;
        while i < n
            invariant
                n == self.singles.entries@.len(),
                i <= n,
                singles@.len() == i,
                forall|j: int| 0 <= j < i ==> #[trigger] singles@[j].0 == self.singles.entries@[j].0
                    && singles@[j].1@ == self.singles.entries@[j].1@,
            decreases n - i,
        {
            let e = &self.singles.entries[i];
            singles.push((e.0, e.1.clone()));
            i = i + 1;
        }
        let mut rest: Vec<(&'static str, Vec<String>)> = Vec::new();
        let m = self.rest.entries.len();
        let mut i: usize = 0;
        while i < m
            invariant
                m == self.rest.entries@.len(),
                i <= m,
                rest@.len() == i,
                forall|j: int| 0 <= j < i ==> #[trigger] rest@[j].0 == self.rest.entries@[j].0
                    && strings_view(rest@[j].1@) == strings_view(self.rest.entries@[j].1@),
            decreases m - i,
        {
            let e = &self.rest.entries[i];
            rest.push((e.0, copy_strings(&e.1)));
            i = i + 1;
        }
        proof { use_type_invariant(self); }
        let ghost gs = singles@;
        let ghost gr = rest@;
        let r = RouteParams { singles: Assoc { entries: singles }, rest: Assoc { entries: rest } };
        assert(r.singles.wf()) by {
            assert forall|a: int, b: int| 0 <= a < b < r.singles.entries@.len() implies
                #[trigger] r.singles.entries@[a].0@ != #[trigger] r.singles.entries@[b].0@ by {
                self.singles.lemma_distinct(a, b);
            }
        }
        assert(r.rest.wf()) by {
            assert forall|a: int, b: int| 0 <= a < b < r.rest.entries@.len() implies
                #[trigger] r.rest.entries@[a].0@ != #[trigger] r.rest.entries@[b].0@ by {
                self.rest.lemma_distinct(a, b);
            }
        }
        assert(r.single_map() =~= self.single_map()) by {
            assert forall|k: Seq<char>| #[trigger] r.singles@.contains_key(k) <==> self.singles@.contains_key(k) by {
                if r.singles.has(k) {
                    let a = choose|a: int| 0 <= a < r.singles.entries@.len() && #[trigger] r.singles.entries@[a].0@ == k;
                    assert(gs[a].0 == self.singles.entries@[a].0);
                    assert(self.singles.entries@[a].0@ == k);
                    assert(self.singles.has(k));
                }
                if self.singles.has(k) {
                    let a = choose|a: int| 0 <= a < self.singles.entries@.len() && #[trigger] self.singles.entries@[a].0@ == k;
                    assert(gs[a].0 == self.singles.entries@[a].0);
                    assert(r.singles.entries@[a].0@ == k);
                    r.singles.lemma_entry(a);
                }
            }
            assert forall|k: Seq<char>| #[trigger] r.singles@.contains_key(k) implies
                r.singles@[k]@ == self.singles@[k]@ by {
                let a = r.singles.index_of(k);
                r.singles.lemma_entry(a);
                self.singles.lemma_entry(a);
            }
        }
        assert(r.rest_map() =~= self.rest_map()) by {
            assert forall|k: Seq<char>| #[trigger] r.rest@.contains_key(k) <==> self.rest@.contains_key(k) by {
                if r.rest.has(k) {
                    let a = choose|a: int| 0 <= a < r.rest.entries@.len() && #[trigger] r.rest.entries@[a].0@ == k;
                    assert(gr[a].0 == self.rest.entries@[a].0);
                    assert(self.rest.entries@[a].0@ == k);
                    assert(self.rest.has(k));
                }
                if self.rest.has(k) {
                    let a = choose|a: int| 0 <= a < self.rest.entries@.len() && #[trigger] self.rest.entries@[a].0@ == k;
                    assert(gr[a].0 == self.rest.entries@[a].0);
                    assert(r.rest.entries@[a].0@ == k);
                    r.rest.lemma_entry(a);
                }
            }
            assert forall|k: Seq<char>| #[trigger] r.rest@.contains_key(k) implies
                strings_view(r.rest@[k]@) == strings_view(self.rest@[k]@) by {
                let a = r.rest.index_of(k);
                r.rest.lemma_entry(a);
                self.rest.lemma_entry(a);
            }
        }
        r
    }
}

/// A fresh vector holding the same strings.
pub fn copy_strings(v: &Vec<String>) -> (r: Vec<String>)
    ensures
        strings_view(r@) == strings_view(v@),
{
    let mut r: Vec<String> = Vec::new();
    let n = v.len();
    let mut i: usize = 0;
    while i < n
        invariant
            n == v@.len(),
            i <= n,
            r@.len() == i,
            forall|j: int| 0 <= j < i ==> #[trigger] r@[j]@ == v@[j]@,
        decreases n - i,
    {
        r.push(v[i].clone());
        i = i + 1;
    }
    assert(strings_view(r@) =~= strings_view(v@));
    r
}

impl Default for RouteParams {
    fn default() -> (r: Self)
        ensures
            r.single_map() == Map::<Seq<char>, Seq<char>>::empty(),
            r.rest_map() == Map::<Seq<char>, Seq<Seq<char>>>::empty(),
    {
        RouteParams::new()
    }
}

} // verus!

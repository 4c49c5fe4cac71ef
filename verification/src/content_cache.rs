//! The content cache: generated file data by inode, checked for freshness
//! against per-file generation counters.

use vstd::prelude::*;
use crate::keyed::{Assoc, IntTable};
use crate::path::{join_segments, VfsPath};
use crate::provider::ProviderId;

verus! {

/// The generation recorded for the path with text `key` (0 if never bumped).
pub open spec fn generation_of(m: Map<Seq<char>, u64>, key: Seq<char>) -> u64 {
    if m.contains_key(key) {
        m[key]
    } else {
        0
    }
}

/// Monotonic per-file generation counters, keyed by path text.
pub struct FileGenerations {
    generations: Assoc<String, u64>,
}

impl View for FileGenerations {
    type V = Map<Seq<char>, u64>;

    closed spec fn view(&self) -> Map<Seq<char>, u64> {
        self.generations.view()
    }
}

impl FileGenerations {
    #[verifier::type_invariant]
    spec fn inv(&self) -> bool {
        self.generations.wf()
    }

    /// No file has been bumped yet.
    pub fn new() -> (r: Self)
        ensures
            r@ == Map::<Seq<char>, u64>::empty(),
    {
        FileGenerations { generations: Assoc::new() }
    }

    /// Bump the generation of `path`, returning the new value.
    pub fn bump(&mut self, path: &VfsPath) -> (r: u64)
        requires
            generation_of(old(self)@, join_segments(path@)) < u64::MAX,
        ensures
            r == generation_of(old(self)@, join_segments(path@)) + 1,
            final(self)@ == old(self)@.insert(join_segments(path@), r),
    {
        proof { use_type_invariant(&*self); }
        let key = path.as_string();
        let current = match self.generations.get(key.as_str()) {
            Some(g) => *g,
            None => 0,
        };
        let next = current + 1;
        let mut table = Assoc::new();
        std::mem::swap(&mut table, &mut self.generations);
        table.insert(key, next);
        self.generations = table;
        next
    }

    /// The current generation of `path` (0 if never bumped).
    pub fn get(&self, path: &VfsPath) -> (r: u64)
        ensures
            r == generation_of(self@, join_segments(path@)),
    {
        proof { use_type_invariant(self); }
        match self.generations.get(path.as_str()) {
            Some(g) => *g,
            None => 0,
        }
    }
}

impl Default for FileGenerations {
    fn default() -> (r: Self)
        ensures
            r@ == Map::<Seq<char>, u64>::empty(),
    {
        FileGenerations::new()
    }
}

/// One cached piece of content.
pub struct ContentEntry {
    pub data: Vec<u8>,
    pub provider_id: ProviderId,
    /// The source file and its generation when cached, if the content was
    /// derived from one.
    pub source_generation: Option<(VfsPath, u64)>,
}

/// Whether `e` was derived from a file whose generation has since advanced.
pub open spec fn is_stale(e: ContentEntry, gens: Map<Seq<char>, u64>) -> bool {
    match e.source_generation {
        Some((p, g)) => generation_of(gens, join_segments(p@)) > g,
        None => false,
    }
}

/// The content cache: generated file content by inode.
pub struct ContentCache {
    entries: IntTable<ContentEntry>,
    /// The generation counters that decide freshness.
    pub file_generations: FileGenerations,
}

impl ContentCache {
    /// The entries are well formed.
    pub closed spec fn wf(&self) -> bool {
        self.entries.wf()
    }

    /// The generation counters' view.
    pub closed spec fn gens(&self) -> Map<Seq<char>, u64> {
        self.file_generations@
    }

    /// The cached entries by inode.
    pub closed spec fn contents(&self) -> Map<u64, ContentEntry> {
        self.entries.view()
    }

    /// An empty cache checked against `file_generations`.
    pub fn new(file_generations: FileGenerations) -> (r: Self)
        ensures
            r.wf(),
            r.contents() == Map::<u64, ContentEntry>::empty(),
            r.gens() == file_generations@,
    {
        ContentCache { entries: IntTable::new(), file_generations }
    }

    /// Whether an entry's source file has been modified since caching.
    fn entry_is_stale(&self, entry: &ContentEntry) -> (r: bool)
        ensures
            r == is_stale(*entry, self.file_generations@),
    {
        match &entry.source_generation {
            Some((source_file, cached_gen)) => self.file_generations.get(source_file) > *cached_gen,
            None => false,
        }
    }

    /// The cached data for `inode` if it is present and fresh; a stale
    /// entry is evicted.
    fn get_if_fresh(&mut self, inode: u64) -> (r: Option<Vec<u8>>)
        requires
            old(self).wf(),
        ensures
            final(self).wf(),
            final(self).gens() == old(self).gens(),
            old(self).contents().contains_key(inode) && !is_stale(old(self).contents()[inode], old(self).gens())
                ==> (r matches Some(d) && d@ == old(self).contents()[inode].data@
                    && final(self).contents() == old(self).contents()),
            !(old(self).contents().contains_key(inode) && !is_stale(old(self).contents()[inode], old(self).gens()))
                ==> r is None && final(self).contents() == old(self).contents().remove(inode),
    {
        match self.entries.get(inode) {
            Some(entry) => {
                if !self.entry_is_stale(entry) {
                    let d = entry.data.clone();
                    assert(d@ =~= entry.data@);
                    return Some(d);
                }
            },
            None => {},
        }
        self.entries.remove(inode);
        None
    }

    /// The cached content for `inode`: `None`, and the entry evicted, when
    /// its source file was modified after it was cached.
    pub fn get(&mut self, inode: u64) -> (r: Option<Vec<u8>>)
        requires
            old(self).wf(),
        ensures
            final(self).wf(),
            final(self).gens() == old(self).gens(),
            old(self).contents().contains_key(inode) && !is_stale(old(self).contents()[inode], old(self).gens())
                ==> (r matches Some(d) && d@ == old(self).contents()[inode].data@
                    && final(self).contents() == old(self).contents()),
            !(old(self).contents().contains_key(inode) && !is_stale(old(self).contents()[inode], old(self).gens()))
                ==> r is None && final(self).contents() == old(self).contents().remove(inode),
    {
        self.get_if_fresh(inode)
    }

    /// The size of the cached data for `inode` if it is present and fresh;
    /// a stale entry is evicted.
    pub fn get_size(&mut self, inode: u64) -> (r: Option<u64>)
        requires
            old(self).wf(),
        ensures
            final(self).wf(),
            final(self).gens() == old(self).gens(),
            old(self).contents().contains_key(inode) && !is_stale(old(self).contents()[inode], old(self).gens())
                ==> r == Some(old(self).contents()[inode].data@.len() as u64)
                    && final(self).contents() == old(self).contents(),
            !(old(self).contents().contains_key(inode) && !is_stale(old(self).contents()[inode], old(self).gens()))
                ==> r is None && final(self).contents() == old(self).contents().remove(inode),
    {
        match self.get_if_fresh(inode) {
            Some(d) => Some(d.len() as u64),
            None => None,
        }
    }

    /// Store `data` for `inode`, recording the current generation of
    /// `source_file`; returns a copy of the stored data.
    pub fn insert(&mut self, inode: u64, data: Vec<u8>, provider_id: ProviderId, source_file: Option<&VfsPath>) -> (r: Vec<u8>)
        requires
            old(self).wf(),
        ensures
            final(self).wf(),
            final(self).gens() == old(self).gens(),
            r@ == data@,
            final(self).contents().dom() == old(self).contents().dom().insert(inode),
            forall|k: u64| k != inode && #[trigger] old(self).contents().contains_key(k)
                ==> final(self).contents()[k] == old(self).contents()[k],
            final(self).contents()[inode].data@ == data@,
            final(self).contents()[inode].provider_id == provider_id,
            match source_file {
                Some(sf) => (final(self).contents()[inode].source_generation matches Some((p, g))
                    && p@ == sf@ && g == generation_of(old(self).gens(), join_segments(sf@))),
                None => final(self).contents()[inode].source_generation is None,
            },
    {
        let source_generation = match source_file {
            Some(sf) => Some((sf.duplicate(), self.file_generations.get(sf))),
            None => None,
        };
        let copy = data.clone();
        assert(copy@ =~= data@);
        self.entries.insert(inode, ContentEntry { data, provider_id, source_generation });
        copy
    }

    /// The current generation of the file `path`.
    pub fn file_generation(&self, path: &VfsPath) -> (r: u64)
        ensures
            r == generation_of(self.gens(), join_segments(path@)),
    {
        self.file_generations.get(path)
    }

    /// Advance the generation of the file `path`, so that content derived
    /// from it is stale, returning the new generation.
    pub fn bump_file_generation(&mut self, path: &VfsPath) -> (r: u64)
        requires
            generation_of(old(self).gens(), join_segments(path@)) < u64::MAX,
        ensures
            r == generation_of(old(self).gens(), join_segments(path@)) + 1,
            final(self).gens() == old(self).gens().insert(join_segments(path@), r),
            final(self).contents() == old(self).contents(),
            final(self).wf() == old(self).wf(),
    {
        self.file_generations.bump(path)
    }

    /// Drop the content cached for `inode`.
    pub fn invalidate(&mut self, inode: u64)
        requires
            old(self).wf(),
        ensures
            final(self).wf(),
            final(self).gens() == old(self).gens(),
            final(self).contents() == old(self).contents().remove(inode),
    {
        self.entries.remove(inode);
    }

    /// Drop all content cached by `provider_id`.
    pub fn invalidate_provider(&mut self, provider_id: ProviderId)
        requires
            old(self).wf(),
        ensures
            final(self).wf(),
            final(self).gens() == old(self).gens(),
            final(self).contents() == Map::new(
                |k: u64| old(self).contents().contains_key(k) && old(self).contents()[k].provider_id@ != provider_id@,
                |k: u64| old(self).contents()[k],
            ),
    {
        let ghost o = self.entries;
        let mut i: usize = self.entries.entries.len();
        while i > 0
            invariant
                o.wf(),
                self.entries.wf(),
                self.file_generations@ == old(self).file_generations@,
                o == old(self).entries,
                i <= o.entries@.len(),
                i <= self.entries.entries@.len(),
                self.entries.entries@.subrange(0, i as int) == o.entries@.subrange(0, i as int),
                self.entries.view() == Map::new(
                    |k: u64| o.view().contains_key(k) && (o.index_of(k) < i || o.view()[k].provider_id@ != provider_id@),
                    |k: u64| o.view()[k],
                ),
            decreases i,
        {
            i = i - 1;
            let ghost key = o.entries@[i as int].0;
            proof {
                assert(self.entries.entries@[i as int] == self.entries.entries@.subrange(0, i + 1)[i as int]);
                assert(o.entries@[i as int] == o.entries@.subrange(0, i + 1)[i as int]);
                o.lemma_entry(i as int);
            }
            if self.entries.entries[i].1.provider_id.same(&provider_id) {
                self.entries.remove_at(i);
            }
            proof {
                assert(self.entries.view() =~= Map::new(
                    |k: u64| o.view().contains_key(k) && (o.index_of(k) < i || o.view()[k].provider_id@ != provider_id@),
                    |k: u64| o.view()[k],
                )) by {
                    assert forall|k: u64| o.view().contains_key(k) && o.index_of(k) == i implies k == key by {
                        o.lemma_entry(o.index_of(k));
                    }
                }
                assert(self.entries.entries@.subrange(0, i as int) =~= o.entries@.subrange(0, i as int));
            }
        }
        proof {
            assert(self.entries.view() =~= Map::new(
                |k: u64| o.view().contains_key(k) && o.view()[k].provider_id@ != provider_id@,
                |k: u64| o.view()[k],
            )) by {
                assert forall|k: u64| o.view().contains_key(k) implies o.index_of(k) >= 0 by {
                    o.lemma_entry(o.index_of(k));
                }
            }
        }
    }

    /// Drop all cached content.
    pub fn clear(&mut self)
        requires
            old(self).wf(),
        ensures
            final(self).wf(),
            final(self).gens() == old(self).gens(),
            final(self).contents() == Map::<u64, ContentEntry>::empty(),
    {
        self.entries = IntTable::new();
    }
}

/// Content stamped with its source file's current generation is fresh,
/// and one bump of that file's generation makes it stale.
pub proof fn law_bump_makes_stale(e: ContentEntry, gens: Map<Seq<char>, u64>)
    requires
        e.source_generation matches Some((p, g)) && g == generation_of(gens, join_segments(p@)) && g < u64::MAX,
    ensures
        !is_stale(e, gens),
        ({
            let p = e.source_generation->Some_0.0;
            let key = join_segments(p@);
            is_stale(e, gens.insert(key, (generation_of(gens, key) + 1) as u64))
        }),
{
    let p = e.source_generation->Some_0.0;
    let key = join_segments(p@);
    let g2 = gens.insert(key, (generation_of(gens, key) + 1) as u64);
    assert(g2.contains_key(key));
    assert(generation_of(g2, key) == generation_of(gens, key) + 1);
}

/// Content derived from no source file is never stale.
pub proof fn law_sourceless_never_stale(e: ContentEntry, gens: Map<Seq<char>, u64>)
    requires
        e.source_generation is None,
    ensures
        !is_stale(e, gens),
{
}

} // verus!

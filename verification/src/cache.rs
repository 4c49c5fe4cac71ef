//! The directory structure cache: per-directory entry tables with resolve
//! generations, staleness against source files, and sweeping.

use vstd::prelude::*;
use crate::keyed::Assoc;
use crate::node::{FileKind, VirtualNode, Visibility};
use crate::path::{join_segments, VfsPath};
use crate::text::{is_prefix, starts_with};
use crate::provider::ProviderId;

verus! {

/// How a node entered the cache.
#[derive(Debug, Clone, Copy, PartialEq, Eq, Structural)]
pub enum NodeSource {
    /// From a provider's children listing: visible in readdir.
    Children,
    /// From a provider's lookup: hidden from readdir.
    Lookup,
    /// From plugin derivation: swept alongside `Children` on re-resolve.
    Derived,
    /// From a mutation (create, mkdir): visible in readdir.
    Mutated,
}

impl NodeSource {
    /// Sources whose entries are stamped with the resolve generation and
    /// swept when it goes stale.
    pub open spec fn stamped(self) -> bool {
        self is Children || self is Derived
    }

    /// Whether this source participates in the resolve generation lifecycle.
    pub fn is_generation_tracked(self) -> (r: bool)
        ensures
            r == self.stamped(),
    {
        match self {
            NodeSource::Children | NodeSource::Derived => true,
            _ => false,
        }
    }
}

/// Which view of a directory a process gets from readdir.
#[derive(Debug, Clone, Copy, PartialEq, Eq, Structural)]
pub enum ProcessVisibility {
    /// Only entries passing [`CachedNode::is_visible`].
    Default,
    /// Every entry, hidden ones included.
    All,
}

/// What kind of node a cache entry represents.
pub enum CachedNodeKind {
    /// A provider-generated virtual node.
    Virtual { node: VirtualNode, provider_id: ProviderId },
    /// A real filesystem entry.
    Real { file_type: FileKind },
}

impl CachedNodeKind {
    /// The file kind of the entry.
    pub open spec fn kind_of(&self) -> FileKind {
        match self {
            CachedNodeKind::Real { file_type } => *file_type,
            CachedNodeKind::Virtual { node, .. } => node@.kind,
        }
    }

    /// The file kind of the entry.
    pub fn file_kind(&self) -> (r: FileKind)
        ensures
            r == self.kind_of(),
    {
        match self {
            CachedNodeKind::Real { file_type } => *file_type,
            CachedNodeKind::Virtual { node, .. } => node.kind(),
        }
    }
}

/// A new node to be inserted into a directory.
pub struct NodeEntry {
    pub name: String,
    pub kind: CachedNodeKind,
    pub source: NodeSource,
}

/// One cached directory entry.
pub struct CachedNode {
    pub inode: u64,
    pub kind: CachedNodeKind,
    pub source: NodeSource,
    /// Resolve generation this node was last inserted or refreshed in.
    pub generation: u64,
}

/// Whether a cached entry is listed by a default readdir.
pub open spec fn visible(n: CachedNode) -> bool {
    if n.source is Mutated {
        true
    } else {
        match n.kind {
            CachedNodeKind::Real { .. } => true,
            CachedNodeKind::Virtual { node, .. } => !(n.source is Lookup) && node@.visibility == Visibility::Readdir,
        }
    }
}

/// Whether a cached entry is a virtual node of the provider named `pid`.
pub open spec fn owned_by(n: CachedNode, pid: Seq<char>) -> bool {
    match n.kind {
        CachedNodeKind::Virtual { provider_id, .. } => provider_id@ == pid,
        CachedNodeKind::Real { .. } => false,
    }
}

/// Whether an entry survives a sweep at generation `cur`.
pub open spec fn survives_sweep(n: CachedNode, cur: u64) -> bool {
    !n.source.stamped() || n.generation == cur
}

impl CachedNode {
    /// A cache entry.
    pub fn new(inode: u64, kind: CachedNodeKind, source: NodeSource, generation: u64) -> (r: Self)
        ensures
            r == (CachedNode { inode, kind, source, generation }),
    {
        CachedNode { inode, kind, source, generation }
    }

    /// Whether this node is visible in readdir: mutated and real entries
    /// always are, lookup entries never are, others as their visibility says.
    pub fn is_visible(&self) -> (r: bool)
        ensures
            r == visible(*self),
    {
        if let NodeSource::Mutated = self.source {
            return true;
        }
        match &self.kind {
            CachedNodeKind::Real { .. } => true,
            CachedNodeKind::Virtual { node, .. } => {
                let lookup = match self.source {
                    NodeSource::Lookup => true,
                    _ => false,
                };
                let listed = match node.visibility() {
                    Visibility::Readdir => true,
                    Visibility::Hidden => false,
                };
                !lookup && listed
            },
        }
    }

    /// Whether this node is owned by the given provider.
    pub fn is_owned_by(&self, provider_id: ProviderId) -> (r: bool)
        ensures
            r == owned_by(*self, provider_id@),
    {
        match &self.kind {
            CachedNodeKind::Virtual { provider_id: pid, .. } => pid.same(&provider_id),
            CachedNodeKind::Real { .. } => false,
        }
    }
}

/// Which entries a bulk removal drops.
enum DropRule {
    /// Generation-tracked entries whose generation is not the given one.
    Stale(u64),
    /// Virtual entries of the given provider.
    OwnedBy(ProviderId),
}

spec fn dropped(rule: DropRule, n: CachedNode) -> bool {
    match rule {
        DropRule::Stale(cur) => !survives_sweep(n, cur),
        DropRule::OwnedBy(pid) => owned_by(n, pid@),
    }
}

fn is_dropped(rule: &DropRule, n: &CachedNode) -> (r: bool)
    ensures
        r == dropped(*rule, *n),
{
    match rule {
        DropRule::Stale(cur) => !(!n.source.is_generation_tracked() || n.generation == *cur),
        DropRule::OwnedBy(pid) => n.is_owned_by(*pid),
    }
}

/// The entries of `m` that survive a sweep at generation `cur`.
pub open spec fn swept_map(m: Map<Seq<char>, CachedNode>, cur: u64) -> Map<Seq<char>, CachedNode> {
    Map::new(|k: Seq<char>| m.contains_key(k) && survives_sweep(m[k], cur), |k: Seq<char>| m[k])
}

/// The entries of `m` not owned by the provider named `pid`.
pub open spec fn without_provider(m: Map<Seq<char>, CachedNode>, pid: Seq<char>) -> Map<Seq<char>, CachedNode> {
    Map::new(|k: Seq<char>| m.contains_key(k) && !owned_by(m[k], pid), |k: Seq<char>| m[k])
}

/// Remove every entry that `rule` drops; return the dropped keys' inodes.
fn drop_entries(nodes: &mut Assoc<String, CachedNode>, rule: DropRule) -> (r: (Vec<u64>, Ghost<Seq<Seq<char>>>))
    requires
        old(nodes).wf(),
    ensures
        final(nodes).wf(),
        final(nodes).view() == Map::new(
            |k: Seq<char>| old(nodes).view().contains_key(k) && !dropped(rule, old(nodes).view()[k]),
            |k: Seq<char>| old(nodes).view()[k],
        ),
        r.1@.no_duplicates(),
        forall|k: Seq<char>| #[trigger] r.1@.contains(k) <==> (old(nodes).view().contains_key(k) && dropped(rule, old(nodes).view()[k])),
        r.0@ == r.1@.map_values(|k: Seq<char>| old(nodes).view()[k].inode),
{
    let ghost o: Assoc<String, CachedNode> = *nodes;
    let mut inodes: Vec<u64> = Vec::new();
    let ghost mut ks: Seq<Seq<char>> = Seq::empty();
    let mut i: usize = nodes.entries.len();
    while i > 0
        invariant
            o.wf(),
            nodes.wf(),
            i <= o.entries@.len(),
            i <= nodes.entries@.len(),
            nodes.entries@.subrange(0, i as int) == o.entries@.subrange(0, i as int),
            nodes.view() == Map::new(
                |k: Seq<char>| o.view().contains_key(k) && (o.index_of(k) < i || !dropped(rule, o.view()[k])),
                |k: Seq<char>| o.view()[k],
            ),
            ks.no_duplicates(),
            forall|k: Seq<char>| #[trigger] ks.contains(k) <==> (o.view().contains_key(k) && o.index_of(k) >= i && dropped(rule, o.view()[k])),
            inodes@ == ks.map_values(|k: Seq<char>| o.view()[k].inode),
        decreases i,
    {
        i = i - 1;
        let ghost key = o.entries@[i as int].0@;
        proof {
            assert(nodes.entries@[i as int] == nodes.entries@.subrange(0, i + 1)[i as int]);
            assert(o.entries@[i as int] == o.entries@.subrange(0, i + 1)[i as int]);
            o.lemma_entry(i as int);
        }
        let ghost before = nodes.view();
        if is_dropped(&rule, &nodes.entries[i].1) {
            let (_, cn) = nodes.remove_at(i);
            inodes.push(cn.inode);
            proof {
                let ks0 = ks;
                ks = ks.push(key);
                assert(!ks0.contains(key));
                assert(ks.no_duplicates()) by {
                    assert forall|a: int, b: int| 0 <= a < ks.len() && 0 <= b < ks.len() && a != b implies ks[a] != ks[b] by {
                        if a < ks0.len() && b < ks0.len() {
                            assert(ks0[a] != ks0[b]);
                        } else if a < ks0.len() {
                            assert(ks0.contains(ks0[a]));
                        } else {
                            assert(ks0.contains(ks0[b]));
                        }
                    }
                }
                assert forall|k: Seq<char>| #[trigger] ks.contains(k) <==> (o.view().contains_key(k) && o.index_of(k) >= i && dropped(rule, o.view()[k])) by {
                    if k == key {
                        assert(ks[ks.len() - 1] == key);
                    } else {
                        if ks.contains(k) {
                            let t = choose|t: int| 0 <= t < ks.len() && ks[t] == k;
                            assert(t < ks0.len());
                            assert(ks0.contains(k));
                        }
                        if ks0.contains(k) {
                            let t = choose|t: int| 0 <= t < ks0.len() && ks0[t] == k;
                            assert(ks[t] == k);
                        }
                        if o.view().contains_key(k) && o.index_of(k) == i {
                            o.lemma_entry(o.index_of(k));
                        }
                    }
                }
                assert(inodes@ =~= ks.map_values(|k: Seq<char>| o.view()[k].inode));
                assert(nodes.entries@.subrange(0, i as int) =~= o.entries@.subrange(0, i as int));
                assert(nodes.view() =~= Map::new(
                    |k: Seq<char>| o.view().contains_key(k) && (o.index_of(k) < i || !dropped(rule, o.view()[k])),
                    |k: Seq<char>| o.view()[k],
                )) by {
                    assert forall|k: Seq<char>| o.view().contains_key(k) && o.index_of(k) == i implies k == key by {
                        o.lemma_entry(o.index_of(k));
                    }
                }
            }
        } else {
            proof {
                assert forall|k: Seq<char>| #[trigger] ks.contains(k) <==> (o.view().contains_key(k) && o.index_of(k) >= i && dropped(rule, o.view()[k])) by {
                    if o.view().contains_key(k) && o.index_of(k) == i {
                        o.lemma_entry(o.index_of(k));
                    }
                }
                assert(nodes.view() =~= Map::new(
                    |k: Seq<char>| o.view().contains_key(k) && (o.index_of(k) < i || !dropped(rule, o.view()[k])),
                    |k: Seq<char>| o.view()[k],
                )) by {
                    assert forall|k: Seq<char>| o.view().contains_key(k) && o.index_of(k) == i implies k == key by {
                        o.lemma_entry(o.index_of(k));
                    }
                }
                assert(nodes.entries@.subrange(0, i as int) =~= o.entries@.subrange(0, i as int));
            }
        }
    }
    proof {
        assert(nodes.view() =~= Map::new(
            |k: Seq<char>| o.view().contains_key(k) && !dropped(rule, o.view()[k]),
            |k: Seq<char>| o.view()[k],
        )) by {
            assert forall|k: Seq<char>| o.view().contains_key(k) implies o.index_of(k) >= 0 by {
                o.lemma_entry(o.index_of(k));
            }
        }
        assert forall|k: Seq<char>| #[trigger] ks.contains(k) <==> (o.view().contains_key(k) && dropped(rule, o.view()[k])) by {
            if o.view().contains_key(k) {
                o.lemma_entry(o.index_of(k));
            }
        }
    }
    (inodes, Ghost(ks))
}

/// Mathematical view of a [`DirState`].
pub ghost struct DirView {
    /// Entries by name.
    pub entries: Map<Seq<char>, CachedNode>,
    /// Whether the directory has been resolved.
    pub resolved: bool,
    /// Whether the directory was resolved without virtual content.
    pub passthrough: bool,
    /// The current resolve generation.
    pub generation: u64,
    /// The source file and its generation at resolve time, if any.
    pub source: Option<(VfsPath, u64)>,
    /// Whether the directory is re-resolved on every access.
    pub no_cache: bool,
}

/// The cached state of one directory.
pub struct DirState {
    nodes: Assoc<String, CachedNode>,
    resolved: bool,
    passthrough: bool,
    resolve_generation: u64,
    source_generation: Option<(VfsPath, u64)>,
    no_cache: bool,
}

impl View for DirState {
    type V = DirView;

    closed spec fn view(&self) -> DirView {
        DirView {
            entries: self.nodes.view(),
            resolved: self.resolved,
            passthrough: self.passthrough,
            generation: self.resolve_generation,
            source: self.source_generation,
            no_cache: self.no_cache,
        }
    }
}

/// The state of a directory that was never resolved.
pub open spec fn fresh_dir() -> DirView {
    DirView {
        entries: Map::empty(),
        resolved: false,
        passthrough: false,
        generation: 0,
        source: None,
        no_cache: false,
    }
}

impl DirState {
    #[verifier::type_invariant]
    spec fn inv(&self) -> bool {
        self.nodes.wf()
    }

    /// Take the entry table out, leaving an empty one.
    fn take_nodes(&mut self) -> (r: Assoc<String, CachedNode>)
        ensures
            r.wf(),
            r.view() == old(self)@.entries,
            final(self)@ == (DirView { entries: Map::empty(), ..old(self)@ }),
    {
        proof { use_type_invariant(&*self); }
        let mut nodes = Assoc::new();
        std::mem::swap(&mut nodes, &mut self.nodes);
        nodes
    }

    /// A directory that has never been resolved.
    pub fn new() -> (r: Self)
        ensures
            r@ == fresh_dir(),
    {
        DirState {
            nodes: Assoc::new(),
            resolved: false,
            passthrough: false,
            resolve_generation: 0,
            source_generation: None,
            no_cache: false,
        }
    }

    /// Whether the directory has been resolved.
    pub fn is_resolved(&self) -> (r: bool)
        ensures
            r == self@.resolved,
    {
        self.resolved
    }

    /// Whether the directory is in passthrough mode (no virtual content).
    pub fn is_passthrough(&self) -> (r: bool)
        ensures
            r == self@.passthrough,
    {
        self.passthrough
    }

    /// Begin a new resolve cycle: bump the generation and mark resolved.
    pub fn begin_resolve(&mut self)
        requires
            old(self)@.generation < u64::MAX,
        ensures
            final(self)@ == (DirView {
                generation: (old(self)@.generation + 1) as u64,
                resolved: true,
                passthrough: false,
                ..old(self)@
            }),
    {
        proof { use_type_invariant(&*self); }
        self.resolve_generation = self.resolve_generation + 1;
        self.resolved = true;
        self.passthrough = false;
    }

    /// Mark the directory as resolved in passthrough mode.
    pub fn mark_passthrough(&mut self)
        ensures
            final(self)@ == (DirView { resolved: true, passthrough: true, ..old(self)@ }),
    {
        proof { use_type_invariant(&*self); }
        self.resolved = true;
        self.passthrough = true;
    }

    /// Whether the directory must be re-resolved on every access.
    pub fn is_no_cache(&self) -> (r: bool)
        ensures
            r == self@.no_cache,
    {
        self.no_cache
    }

    /// Mark the directory as re-resolved on every access.
    pub fn mark_no_cache(&mut self)
        ensures
            final(self)@ == (DirView { no_cache: true, ..old(self)@ }),
    {
        proof { use_type_invariant(&*self); }
        self.no_cache = true;
    }

    /// The current resolve generation.
    pub fn resolve_generation(&self) -> (r: u64)
        ensures
            r == self@.generation,
    {
        self.resolve_generation
    }

    /// Mark the directory as needing re-resolution; its entries (and their
    /// inodes) stay.
    pub fn mark_unresolved(&mut self)
        ensures
            final(self)@ == (DirView { resolved: false, passthrough: false, ..old(self)@ }),
    {
        proof { use_type_invariant(&*self); }
        self.resolved = false;
        self.passthrough = false;
    }

    /// Record the source file and its generation for this directory.
    pub fn set_source_generation(&mut self, source_file: VfsPath, generation: u64)
        ensures
            final(self)@ == (DirView { source: Some((source_file, generation)), ..old(self)@ }),
    {
        proof { use_type_invariant(&*self); }
        self.source_generation = Some((source_file, generation));
    }

    /// The source file and its generation recorded for this directory.
    pub fn source_stamp(&self) -> (r: Option<(&VfsPath, u64)>)
        ensures
            match r {
                Some((p, g)) => self@.source matches Some((q, h)) && q@ == p@ && h == g,
                None => self@.source is None,
            },
    {
        match &self.source_generation {
            Some((p, g)) => Some((p, *g)),
            None => None,
        }
    }

    /// Whether the source file has advanced past the recorded generation,
    /// `current_gen` giving the source file's current generation.
    pub fn is_source_stale<F: FnOnce(&VfsPath) -> u64>(&self, current_gen: F) -> (r: bool)
        requires
            forall|p: &VfsPath| current_gen.requires((p,)),
        ensures
            match self@.source {
                None => !r,
                Some((p, g)) => exists|v: u64| current_gen.ensures((&p,), v) && r == (v > g),
            },
    {
        match &self.source_generation {
            Some((source_file, cached_gen)) => {
                let v = current_gen(source_file);
                v > *cached_gen
            },
            None => false,
        }
    }

    /// The entry named `name`.
    pub fn get(&self, name: &str) -> (r: Option<&CachedNode>)
        ensures
            r is Some <==> self@.entries.contains_key(name@),
            r matches Some(n) ==> *n == self@.entries[name@],
    {
        proof { use_type_invariant(self); }
        self.nodes.get(name)
    }

    /// The entries a listing shows: every entry when `all`, else the
    /// visible ones; each with its name, in some order, each once.
    fn listing(&self, all: bool) -> (r: Vec<(&str, &CachedNode)>)
        ensures
            exists|ks: Seq<Seq<char>>|
                ks.no_duplicates()
                && (forall|k: Seq<char>| #[trigger] ks.contains(k) <==> (self@.entries.contains_key(k)
                    && (all || visible(self@.entries[k]))))
                && r@.len() == ks.len()
                && (forall|i: int| 0 <= i < ks.len() ==> #[trigger] r@[i].0@ == ks[i]
                    && *r@[i].1 == self@.entries[ks[i]]),
    {
        proof { use_type_invariant(self); }
        let n = self.nodes.entries.len();
        let mut r: Vec<(&str, &CachedNode)> = Vec::new();
        let ghost mut ks: Seq<Seq<char>> = Seq::empty();
        let ghost mut idx: Seq<int> = Seq::empty();
        let mut i: usize = 0;
        while i < n
            invariant
                n == self.nodes.entries@.len(),
                self.nodes.wf(),
                i <= n,
                r@.len() == ks.len(),
                idx.len() == ks.len(),
                forall|t: int| 0 <= t < idx.len() ==> 0 <= #[trigger] idx[t] < i,
                forall|t: int, u: int| 0 <= t < u < idx.len() ==> #[trigger] idx[t] < #[trigger] idx[u],
                forall|t: int| 0 <= t < ks.len() ==> #[trigger] ks[t] == self.nodes.entries@[idx[t]].0@
                    && r@[t].0@ == ks[t] && *r@[t].1 == self.nodes.entries@[idx[t]].1,
                forall|j: int| 0 <= j < i && (all || visible((#[trigger] self.nodes.entries@[j]).1))
                    ==> exists|t: int| 0 <= t < idx.len() && #[trigger] idx[t] == j,
                forall|t: int| 0 <= t < idx.len() ==> (all || visible(self.nodes.entries@[#[trigger] idx[t]].1)),
            decreases n - i,
        {
            let ghost idx0 = idx;
            if all || self.nodes.entries[i].1.is_visible() {
                r.push((self.nodes.entries[i].0.as_str(), &self.nodes.entries[i].1));
                proof {
                    ks = ks.push(self.nodes.entries@[i as int].0@);
                    idx = idx.push(i as int);
                    assert(idx[idx.len() - 1] == i);
                }
            }
            proof {
                assert forall|j: int| 0 <= j < i + 1 && (all || visible((#[trigger] self.nodes.entries@[j]).1))
                    implies exists|t: int| 0 <= t < idx.len() && #[trigger] idx[t] == j by {
                    if j < i {
                        assert(exists|t: int| 0 <= t < idx0.len() && #[trigger] idx0[t] == j);
                        let t = choose|t: int| 0 <= t < idx0.len() && #[trigger] idx0[t] == j;
                        assert(idx[t] == j);
                    } else {
                        assert(idx[idx.len() - 1] == j);
                    }
                }
            }
            i = i + 1;
        }
        proof {
            assert(ks.no_duplicates()) by {
                assert forall|a: int, b: int| 0 <= a < ks.len() && 0 <= b < ks.len() && a != b implies ks[a] != ks[b] by {
                    if a < b {
                        assert(idx[a] < idx[b]);
                    } else {
                        assert(idx[b] < idx[a]);
                    }
                    self.nodes.lemma_distinct(idx[a], idx[b]);
                }
            }
            assert forall|k: Seq<char>| #[trigger] ks.contains(k) <==> (self@.entries.contains_key(k)
                && (all || visible(self@.entries[k]))) by {
                if ks.contains(k) {
                    let t = choose|t: int| 0 <= t < ks.len() && ks[t] == k;
                    self.nodes.lemma_entry(idx[t]);
                }
                if self@.entries.contains_key(k) && (all || visible(self@.entries[k])) {
                    let j = self.nodes.index_of(k);
                    self.nodes.lemma_entry(j);
                    let t = choose|t: int| 0 <= t < idx.len() && #[trigger] idx[t] == j;
                    assert(ks[t] == k);
                }
            }
            assert forall|t: int| 0 <= t < ks.len() implies #[trigger] r@[t].0@ == ks[t]
                && *r@[t].1 == self@.entries[ks[t]] by {
                self.nodes.lemma_entry(idx[t]);
            }
        }
        r
    }

    /// The entries visible in readdir, with their names.
    pub fn visible_entries(&self) -> (r: Vec<(&str, &CachedNode)>)
        ensures
            exists|ks: Seq<Seq<char>>|
                ks.no_duplicates()
                && (forall|k: Seq<char>| #[trigger] ks.contains(k) <==> (self@.entries.contains_key(k)
                    && visible(self@.entries[k])))
                && r@.len() == ks.len()
                && (forall|i: int| 0 <= i < ks.len() ==> #[trigger] r@[i].0@ == ks[i]
                    && *r@[i].1 == self@.entries[ks[i]]),
    {
        self.listing(false)
    }

    /// Every entry, lookup-only and hidden ones included, with its name.
    pub fn all_entries(&self) -> (r: Vec<(&str, &CachedNode)>)
        ensures
            exists|ks: Seq<Seq<char>>|
                ks.no_duplicates()
                && (forall|k: Seq<char>| #[trigger] ks.contains(k) <==> self@.entries.contains_key(k))
                && r@.len() == ks.len()
                && (forall|i: int| 0 <= i < ks.len() ==> #[trigger] r@[i].0@ == ks[i]
                    && *r@[i].1 == self@.entries[ks[i]]),
    {
        self.listing(true)
    }

    /// The entries readdir shows to a process of the given visibility:
    /// all of them for `All`, the visible ones otherwise.
    pub fn readdir_entries(&self, visibility: ProcessVisibility) -> (r: Vec<(&str, &CachedNode)>)
        ensures
            exists|ks: Seq<Seq<char>>|
                ks.no_duplicates()
                && (forall|k: Seq<char>| #[trigger] ks.contains(k) <==> (self@.entries.contains_key(k)
                    && (visibility is All || visible(self@.entries[k]))))
                && r@.len() == ks.len()
                && (forall|i: int| 0 <= i < ks.len() ==> #[trigger] r@[i].0@ == ks[i]
                    && *r@[i].1 == self@.entries[ks[i]]),
    {
        match visibility {
            ProcessVisibility::All => self.listing(true),
            ProcessVisibility::Default => self.listing(false),
        }
    }

    /// Insert or replace the entry named `name`.
    pub fn insert(&mut self, name: String, node: CachedNode)
        ensures
            final(self)@ == (DirView { entries: old(self)@.entries.insert(name@, node), ..old(self)@ }),
    {
        let mut nodes = self.take_nodes();
        nodes.insert(name, node);
        self.nodes = nodes;
    }

    /// Remove the entry named `name`, returning its inode if it existed.
    pub fn remove(&mut self, name: &str) -> (r: Option<u64>)
        ensures
            final(self)@ == (DirView { entries: old(self)@.entries.remove(name@), ..old(self)@ }),
            r is Some <==> old(self)@.entries.contains_key(name@),
            r matches Some(i) ==> i == old(self)@.entries[name@].inode,
    {
        match self.remove_entry(name) {
            Some(n) => Some(n.inode),
            None => None,
        }
    }

    /// Remove the entry named `name`, returning it if it existed.
    pub fn remove_entry(&mut self, name: &str) -> (r: Option<CachedNode>)
        ensures
            final(self)@ == (DirView { entries: old(self)@.entries.remove(name@), ..old(self)@ }),
            r is Some <==> old(self)@.entries.contains_key(name@),
            r matches Some(n) ==> n == old(self)@.entries[name@],
    {
        let mut nodes = self.take_nodes();
        let r = nodes.remove(name);
        self.nodes = nodes;
        r
    }

    /// Move the entry `old_name` to `new_name`, keeping its inode and kind.
    /// Returns the inode, or `None` if `old_name` did not exist.
    pub fn move_entry(&mut self, old_name: &str, new_name: String) -> (r: Option<u64>)
        ensures
            !old(self)@.entries.contains_key(old_name@) ==> r is None && final(self)@ == old(self)@,
            old(self)@.entries.contains_key(old_name@) ==> r == Some(old(self)@.entries[old_name@].inode)
                && final(self)@ == (DirView {
                    entries: old(self)@.entries.remove(old_name@).insert(new_name@, old(self)@.entries[old_name@]),
                    ..old(self)@
                }),
    {
        let node = match self.remove_entry(old_name) {
            Some(n) => n,
            None => {
                assert(old(self)@.entries.remove(old_name@) =~= old(self)@.entries);
                return None;
            },
        };
        let inode = node.inode;
        self.insert(new_name, node);
        Some(inode)
    }

    /// Remove every entry owned by `provider_id`; if any was removed, the
    /// directory is marked unresolved.
    pub fn remove_by_provider(&mut self, provider_id: ProviderId)
        ensures
            final(self)@ == (DirView {
                entries: without_provider(old(self)@.entries, provider_id@),
                resolved: old(self)@.resolved && (forall|k: Seq<char>| #[trigger] old(self)@.entries.contains_key(k)
                    ==> !owned_by(old(self)@.entries[k], provider_id@)),
                ..old(self)@
            }),
    {
        proof { use_type_invariant(&*self); }
        let mut nodes = self.take_nodes();
        let before = nodes.len();
        let ghost n0 = nodes;
        let (_, Ghost(ks)) = drop_entries(&mut nodes, DropRule::OwnedBy(provider_id));
        let after = nodes.len();
        let ghost none_owned = forall|k: Seq<char>| #[trigger] old(self)@.entries.contains_key(k)
            ==> !owned_by(old(self)@.entries[k], provider_id@);
        proof {
            n0.lemma_dom();
            nodes.lemma_dom();
            if none_owned {
                assert(nodes.view() =~= old(self)@.entries);
                assert(after == before);
            } else {
                let k = choose|k: Seq<char>| #[trigger] old(self)@.entries.contains_key(k) && owned_by(old(self)@.entries[k], provider_id@);
                assert(nodes.view().dom().subset_of(old(self)@.entries.dom().remove(k)));
                vstd::set_lib::lemma_len_subset(nodes.view().dom(), old(self)@.entries.dom().remove(k));
                assert(after != before);
            }
        }
        self.nodes = nodes;
        if after != before {
            self.resolved = false;
        }
        assert(self@.entries =~= without_provider(old(self)@.entries, provider_id@));
    }

    /// Remove the generation-tracked entries whose generation is not
    /// `current_generation`, returning the inodes of the removed entries
    /// (one per removed entry). Lookup and mutated entries always stay.
    pub fn sweep_stale_resolve(&mut self, current_generation: u64) -> (r: Vec<u64>)
        ensures
            final(self)@ == (DirView { entries: swept_map(old(self)@.entries, current_generation), ..old(self)@ }),
            exists|ks: Seq<Seq<char>>|
                ks.no_duplicates()
                && (forall|k: Seq<char>| #[trigger] ks.contains(k) <==> (old(self)@.entries.contains_key(k)
                    && !survives_sweep(old(self)@.entries[k], current_generation)))
                && r@ == ks.map_values(|k: Seq<char>| old(self)@.entries[k].inode),
    {
        let mut nodes = self.take_nodes();
        let (swept, Ghost(ks)) = drop_entries(&mut nodes, DropRule::Stale(current_generation));
        self.nodes = nodes;
        assert(self@.entries =~= swept_map(old(self)@.entries, current_generation));
        swept
    }
}

impl Default for DirState {
    fn default() -> (r: Self)
        ensures
            r@ == fresh_dir(),
    {
        DirState::new()
    }
}

/// The directory with text `s` is the one with text `p` or lies below it.
pub open spec fn under(s: Seq<char>, p: Seq<char>) -> bool {
    p.len() == 0 || s == p || (s.len() > p.len() && s.subrange(0, p.len() as int) == p && s[p.len() as int] == '/')
}

/// A directory marked for re-resolution, its entries kept.
pub open spec fn unresolved(d: DirView) -> DirView {
    DirView { resolved: false, passthrough: false, ..d }
}

/// A directory without the entries of the provider named `pid`, marked
/// unresolved if it lost any.
pub open spec fn without_provider_dir(d: DirView, pid: Seq<char>) -> DirView {
    DirView {
        entries: without_provider(d.entries, pid),
        resolved: d.resolved && (forall|k: Seq<char>| #[trigger] d.entries.contains_key(k) ==> !owned_by(d.entries[k], pid)),
        ..d
    }
}

/// The directory structure cache: the state of each cached directory, by
/// the directory's path text.
pub struct L1Cache {
    dirs: Assoc<String, DirState>,
}

/// Whether the path text `s` is `p` or lies below it.
fn is_under(s: &str, p: &str) -> (r: bool)
    ensures
        r == under(s@, p@),
{
    let pn = p.unicode_len();
    if pn == 0 {
        return true;
    }
    if !starts_with(s, p) {
        proof {
            if s@ == p@ {
                assert(s@.subrange(0, p@.len() as int) =~= p@);
            }
        }
        return false;
    }
    let sn = s.unicode_len();
    assert(is_prefix(p@, s@));
    assert(s@.subrange(0, p@.len() as int) == p@);
    if sn == pn {
        assert(s@ =~= p@);
        return true;
    }
    assert(s@.len() > p@.len());
    let c = s.get_char(pn);
    c == '/'
}

impl L1Cache {
    /// The cache is well formed.
    pub closed spec fn wf(&self) -> bool {
        self.dirs.wf()
    }

    /// The cached directories by path text.
    pub closed spec fn view(&self) -> Map<Seq<char>, DirState> {
        self.dirs.view()
    }

    /// An empty cache.
    pub fn new() -> (r: Self)
        ensures
            r.wf(),
            r.view() == Map::<Seq<char>, DirState>::empty(),
    {
        L1Cache { dirs: Assoc::new() }
    }

    /// The state of the directory `path`, if cached.
    pub fn get(&self, path: &VfsPath) -> (r: Option<&DirState>)
        requires
            self.wf(),
        ensures
            r is Some <==> self.view().contains_key(join_segments(path@)),
            r matches Some(d) ==> *d == self.view()[join_segments(path@)],
    {
        self.dirs.get(path.as_str())
    }

    /// Apply `mark_unresolved` to the directories whose text satisfies the
    /// subtree test (or only the exact one when `exact`).
    fn unresolve_where(&mut self, p: &str, exact: bool)
        requires
            old(self).wf(),
        ensures
            final(self).wf(),
            final(self).view().dom() == old(self).view().dom(),
            forall|k: Seq<char>| #[trigger] old(self).view().contains_key(k) ==> final(self).view()[k]@ ==
                if (if exact { k == p@ } else { under(k, p@) }) { unresolved(old(self).view()[k]@) } else { old(self).view()[k]@ },
    {
        let ghost o = self.dirs;
        let n = self.dirs.entries.len();
        let mut i: usize = 0;
        while i < n
            invariant
                o == old(self).dirs,
                o.wf(),
                self.dirs.wf(),
                n == o.entries@.len(),
                self.dirs.entries@.len() == n,
                i <= n,
                forall|j: int| 0 <= j < n ==> (#[trigger] self.dirs.entries@[j]).0 == o.entries@[j].0,
                forall|j: int| 0 <= j < i ==> (#[trigger] self.dirs.entries@[j]).1@ ==
                    if (if exact { o.entries@[j].0@ == p@ } else { under(o.entries@[j].0@, p@) }) {
                        unresolved(o.entries@[j].1@)
                    } else {
                        o.entries@[j].1@
                    },
                forall|j: int| i <= j < n ==> (#[trigger] self.dirs.entries@[j]) == o.entries@[j],
            decreases n - i,
        {
            let hit = if exact {
                crate::text::str_eq(self.dirs.entries[i].0.as_str(), p)
            } else {
                is_under(self.dirs.entries[i].0.as_str(), p)
            };
            if hit {
                let ghost before = self.dirs;
                let d = self.dirs.value_mut(i);
                d.mark_unresolved();
                proof {
                    assert forall|j: int| 0 <= j < n implies (#[trigger] self.dirs.entries@[j]).0 == o.entries@[j].0 by {
                        assert(self.dirs.entries@[j].0 == before.entries@[j].0);
                    }
                    before.lemma_update_value(&self.dirs, i as int, self.dirs.entries@[i as int].1);
                }
            }
            i = i + 1;
        }
        proof {
            assert forall|k: Seq<char>| #[trigger] self.dirs.view().contains_key(k) <==> o.view().contains_key(k) by {
                if self.dirs.has(k) {
                    let a = choose|a: int| 0 <= a < self.dirs.entries@.len() && #[trigger] self.dirs.entries@[a].0@ == k;
                    assert(o.entries@[a].0@ == k);
                }
                if o.has(k) {
                    let a = choose|a: int| 0 <= a < o.entries@.len() && #[trigger] o.entries@[a].0@ == k;
                    assert(self.dirs.entries@[a].0@ == k);
                }
            }
            assert(self.dirs.view().dom() =~= o.view().dom());
            assert forall|k: Seq<char>| #[trigger] o.view().contains_key(k) implies self.dirs.view()[k]@ ==
                if (if exact { k == p@ } else { under(k, p@) }) { unresolved(o.view()[k]@) } else { o.view()[k]@ } by {
                let j = o.index_of(k);
                o.lemma_entry(j);
                assert(self.dirs.entries@[j].0@ == k);
                self.dirs.lemma_entry(j);
            }
        }
    }

    /// Mark the directory `path` for re-resolution, keeping its entries.
    pub fn invalidate_dir(&mut self, path: &VfsPath)
        requires
            old(self).wf(),
        ensures
            final(self).wf(),
            final(self).view().dom() == old(self).view().dom(),
            forall|k: Seq<char>| #[trigger] old(self).view().contains_key(k) ==> final(self).view()[k]@ ==
                if k == join_segments(path@) { unresolved(old(self).view()[k]@) } else { old(self).view()[k]@ },
    {
        self.unresolve_where(path.as_str(), true);
    }

    /// Mark the directory `path` and every cached directory below it for
    /// re-resolution, keeping their entries.
    pub fn invalidate_subtree(&mut self, path: &VfsPath)
        requires
            old(self).wf(),
        ensures
            final(self).wf(),
            final(self).view().dom() == old(self).view().dom(),
            forall|k: Seq<char>| #[trigger] old(self).view().contains_key(k) ==> final(self).view()[k]@ ==
                if under(k, join_segments(path@)) { unresolved(old(self).view()[k]@) } else { old(self).view()[k]@ },
    {
        self.unresolve_where(path.as_str(), false);
    }

    /// Remove every provider's entries of `provider_id` from every cached
    /// directory; a directory that lost entries is marked unresolved.
    pub fn invalidate_provider(&mut self, provider_id: ProviderId)
        requires
            old(self).wf(),
        ensures
            final(self).wf(),
            final(self).view().dom() == old(self).view().dom(),
            forall|k: Seq<char>| #[trigger] old(self).view().contains_key(k) ==> final(self).view()[k]@ ==
                without_provider_dir(old(self).view()[k]@, provider_id@),
    {
        let ghost o = self.dirs;
        let n = self.dirs.entries.len();
        let mut i: usize = 0;
        while i < n
            invariant
                o == old(self).dirs,
                o.wf(),
                self.dirs.wf(),
                n == o.entries@.len(),
                self.dirs.entries@.len() == n,
                i <= n,
                forall|j: int| 0 <= j < n ==> (#[trigger] self.dirs.entries@[j]).0 == o.entries@[j].0,
                forall|j: int| 0 <= j < i ==> (#[trigger] self.dirs.entries@[j]).1@ ==
                    without_provider_dir(o.entries@[j].1@, provider_id@),
                forall|j: int| i <= j < n ==> (#[trigger] self.dirs.entries@[j]) == o.entries@[j],
            decreases n - i,
        {
            let ghost before = self.dirs;
            let d = self.dirs.value_mut(i);
            d.remove_by_provider(provider_id);
            proof {
                assert forall|j: int| 0 <= j < n implies (#[trigger] self.dirs.entries@[j]).0 == o.entries@[j].0 by {
                    assert(self.dirs.entries@[j].0 == before.entries@[j].0);
                }
                before.lemma_update_value(&self.dirs, i as int, self.dirs.entries@[i as int].1);
                assert(self.dirs.entries@[i as int].1@ == without_provider_dir(o.entries@[i as int].1@, provider_id@));
            }
            i = i + 1;
        }
        proof {
            assert forall|k: Seq<char>| #[trigger] self.dirs.view().contains_key(k) <==> o.view().contains_key(k) by {
                if self.dirs.has(k) {
                    let a = choose|a: int| 0 <= a < self.dirs.entries@.len() && #[trigger] self.dirs.entries@[a].0@ == k;
                    assert(o.entries@[a].0@ == k);
                }
                if o.has(k) {
                    let a = choose|a: int| 0 <= a < o.entries@.len() && #[trigger] o.entries@[a].0@ == k;
                    assert(self.dirs.entries@[a].0@ == k);
                }
            }
            assert(self.dirs.view().dom() =~= o.view().dom());
            assert forall|k: Seq<char>| #[trigger] o.view().contains_key(k) implies self.dirs.view()[k]@ ==
                without_provider_dir(o.view()[k]@, provider_id@) by {
                let j = o.index_of(k);
                o.lemma_entry(j);
                assert(self.dirs.entries@[j].0@ == k);
                self.dirs.lemma_entry(j);
            }
        }
    }

    /// Remove the entry `name` of the directory `dir_path`, returning its
    /// inode; nothing happens when either is not cached.
    pub fn remove_entry(&mut self, dir_path: &VfsPath, name: &str) -> (r: Option<u64>)
        requires
            old(self).wf(),
        ensures
            final(self).wf(),
            final(self).view().dom() == old(self).view().dom(),
            !old(self).view().contains_key(join_segments(dir_path@)) ==> r is None && final(self).view() == old(self).view(),
            old(self).view().contains_key(join_segments(dir_path@)) ==> {
                let d = old(self).view()[join_segments(dir_path@)]@;
                &&& (r is Some <==> d.entries.contains_key(name@))
                &&& (r matches Some(i) ==> i == d.entries[name@].inode)
                &&& final(self).view()[join_segments(dir_path@)]@ == (DirView { entries: d.entries.remove(name@), ..d })
                &&& forall|k: Seq<char>| k != join_segments(dir_path@) && #[trigger] old(self).view().contains_key(k)
                    ==> final(self).view()[k] == old(self).view()[k]
            },
    {
        let i = match self.dirs.find(dir_path.as_str()) {
            Some(i) => i,
            None => return None,
        };
        let ghost before = self.dirs;
        proof { before.lemma_entry(i as int); }
        let d = self.dirs.value_mut(i);
        let r = d.remove(name);
        proof {
            before.lemma_update_value(&self.dirs, i as int, self.dirs.entries@[i as int].1);
            assert(self.dirs.view().dom() =~= before.view().dom());
        }
        r
    }

    /// Forget every cached directory.
    pub fn clear(&mut self)
        requires
            old(self).wf(),
        ensures
            final(self).wf(),
            final(self).view() == Map::<Seq<char>, DirState>::empty(),
    {
        self.dirs = Assoc::new();
    }

    /// The texts of the cached directories at or below `path`, each once.
    pub fn keys_under(&self, path: &VfsPath) -> (r: Vec<String>)
        requires
            self.wf(),
        ensures
            crate::path::views(r@).no_duplicates(),
            forall|k: Seq<char>| #[trigger] crate::path::views(r@).contains(k) <==> (self.view().contains_key(k)
                && under(k, join_segments(path@))),
    {
        let p = path.as_str();
        let n = self.dirs.entries.len();
        let mut out: Vec<String> = Vec::new();
        let ghost mut idx: Seq<int> = Seq::empty();
        let mut i: usize = 0;
        while i < n
            invariant
                self.wf(),
                n == self.dirs.entries@.len(),
                p@ == join_segments(path@),
                i <= n,
                idx.len() == out@.len(),
                forall|t: int| 0 <= t < idx.len() ==> 0 <= #[trigger] idx[t] < i
                    && out@[t]@ == self.dirs.entries@[idx[t]].0@ && under(out@[t]@, p@),
                forall|t: int, u: int| 0 <= t < u < idx.len() ==> #[trigger] idx[t] < #[trigger] idx[u],
                forall|j: int| 0 <= j < i && under(self.dirs.entries@[j].0@, p@)
                    ==> exists|t: int| 0 <= t < idx.len() && #[trigger] idx[t] == j,
            decreases n - i,
        {
            let ghost idx0 = idx;
            if is_under(self.dirs.entries[i].0.as_str(), p) {
                out.push(self.dirs.entries[i].0.clone());
                proof { idx = idx.push(i as int); }
            }
            proof {
                assert forall|j: int| 0 <= j < i + 1 && under(self.dirs.entries@[j].0@, p@)
                    implies exists|t: int| 0 <= t < idx.len() && #[trigger] idx[t] == j by {
                    if j < i {
                        let t = choose|t: int| 0 <= t < idx0.len() && #[trigger] idx0[t] == j;
                        assert(idx[t] == j);
                    } else {
                        assert(idx[idx.len() - 1] == j);
                    }
                }
            }
            i = i + 1;
        }
        proof {
            let v = crate::path::views(out@);
            assert forall|a: int, b: int| 0 <= a < v.len() && 0 <= b < v.len() && a != b implies v[a] != v[b] by {
                self.dirs.lemma_distinct(idx[a], idx[b]);
            }
            assert forall|k: Seq<char>| #[trigger] v.contains(k) <==> (self.view().contains_key(k) && under(k, p@)) by {
                if v.contains(k) {
                    let t = choose|t: int| 0 <= t < v.len() && v[t] == k;
                    self.dirs.lemma_entry(idx[t]);
                }
                if self.view().contains_key(k) && under(k, p@) {
                    let j = self.dirs.index_of(k);
                    self.dirs.lemma_entry(j);
                    let t = choose|t: int| 0 <= t < idx.len() && #[trigger] idx[t] == j;
                    assert(v[t] == k);
                }
            }
        }
        out
    }

    /// Every entry of every cached directory at or below `path`: the
    /// directory's text, the entry's name and its inode, each entry once.
    pub fn entries_under(&self, path: &VfsPath) -> (r: Vec<(String, String, u64)>)
        requires
            self.wf(),
        ensures
            forall|a: int, b: int| 0 <= a < b < r@.len() ==> (#[trigger] r@[a]).0@ != (#[trigger] r@[b]).0@
                || r@[a].1@ != r@[b].1@,
            forall|a: int| 0 <= a < r@.len() ==> under((#[trigger] r@[a]).0@, join_segments(path@))
                && self.view().contains_key(r@[a].0@)
                && self.view()[r@[a].0@]@.entries.contains_key(r@[a].1@)
                && r@[a].2 == self.view()[r@[a].0@]@.entries[r@[a].1@].inode,
            forall|d: Seq<char>, m: Seq<char>| under(d, join_segments(path@)) && #[trigger] self.view().contains_key(d)
                && #[trigger] self.view()[d]@.entries.contains_key(m)
                ==> exists|a: int| 0 <= a < r@.len() && (#[trigger] r@[a]).0@ == d && r@[a].1@ == m,
    {
        let p = path.as_str();
        let n = self.dirs.entries.len();
        let mut out: Vec<(String, String, u64)> = Vec::new();
        let ghost mut owner: Seq<int> = Seq::empty();
        let mut i: usize = 0;
        while i < n
            invariant
                self.wf(),
                n == self.dirs.entries@.len(),
                p@ == join_segments(path@),
                i <= n,
                owner.len() == out@.len(),
                forall|t: int| 0 <= t < owner.len() ==> 0 <= #[trigger] owner[t] < i
                    && out@[t].0@ == self.dirs.entries@[owner[t]].0@ && under(out@[t].0@, p@)
                    && self.dirs.entries@[owner[t]].1@.entries.contains_key(out@[t].1@)
                    && out@[t].2 == self.dirs.entries@[owner[t]].1@.entries[out@[t].1@].inode,
                forall|t: int, u: int| 0 <= t < u < owner.len() ==> #[trigger] owner[t] <= #[trigger] owner[u],
                forall|t: int, u: int| 0 <= t < u < owner.len() && owner[t] == owner[u]
                    ==> (#[trigger] out@[t]).1@ != (#[trigger] out@[u]).1@,
                forall|j: int, m: Seq<char>| 0 <= j < i && under(self.dirs.entries@[j].0@, p@)
                    && #[trigger] self.dirs.entries@[j].1@.entries.contains_key(m)
                    ==> exists|t: int| 0 <= t < owner.len() && #[trigger] owner[t] == j && out@[t].1@ == m,
            decreases n - i,
        {
            if is_under(self.dirs.entries[i].0.as_str(), p) {
                let listing = self.dirs.entries[i].1.all_entries();
                let ghost dv = self.dirs.entries@[i as int].1@;
                let ghost ks = choose|ks: Seq<Seq<char>>|
                    ks.no_duplicates()
                    && (forall|k: Seq<char>| #[trigger] ks.contains(k) <==> dv.entries.contains_key(k))
                    && listing@.len() == ks.len()
                    && (forall|q: int| 0 <= q < ks.len() ==> #[trigger] listing@[q].0@ == ks[q]
                        && *listing@[q].1 == dv.entries[ks[q]]);
                let ghost start = out@.len() as int;
                let ghost owner0 = owner;
                let m = listing.len();
                let mut q: usize = 0;
                while q < m
                    invariant
                        self.wf(),
                        n == self.dirs.entries@.len(),
                        p@ == join_segments(path@),
                        i < n,
                        under(self.dirs.entries@[i as int].0@, p@),
                        dv == self.dirs.entries@[i as int].1@,
                        m == listing@.len(),
                        m == ks.len(),
                        ks.no_duplicates(),
                        forall|k: Seq<char>| #[trigger] ks.contains(k) <==> dv.entries.contains_key(k),
                        forall|qq: int| 0 <= qq < ks.len() ==> #[trigger] listing@[qq].0@ == ks[qq]
                            && *listing@[qq].1 == dv.entries[ks[qq]],
                        q <= m,
                        owner.len() == out@.len(),
                        out@.len() == start + q,
                        owner0.len() == start,
                        start >= 0,
                        forall|t: int| 0 <= t < start ==> #[trigger] owner[t] == owner0[t],
                        forall|t: int| start <= t < owner.len() ==> #[trigger] owner[t] == i && out@[t].1@ == ks[t - start],
                        forall|t: int| 0 <= t < owner.len() ==> 0 <= #[trigger] owner[t] < i + 1
                            && out@[t].0@ == self.dirs.entries@[owner[t]].0@ && under(out@[t].0@, p@)
                            && self.dirs.entries@[owner[t]].1@.entries.contains_key(out@[t].1@)
                            && out@[t].2 == self.dirs.entries@[owner[t]].1@.entries[out@[t].1@].inode,
                        forall|t: int, u: int| 0 <= t < u < owner.len() ==> #[trigger] owner[t] <= #[trigger] owner[u],
                        forall|t: int, u: int| 0 <= t < u < owner.len() && owner[t] == owner[u]
                            ==> (#[trigger] out@[t]).1@ != (#[trigger] out@[u]).1@,
                        forall|j: int, mm: Seq<char>| 0 <= j < i && under(self.dirs.entries@[j].0@, p@)
                            && #[trigger] self.dirs.entries@[j].1@.entries.contains_key(mm)
                            ==> exists|t: int| 0 <= t < owner.len() && #[trigger] owner[t] == j && out@[t].1@ == mm,
                        forall|t: int| 0 <= t < start ==> #[trigger] owner[t] < i,
                    decreases m - q,
                {
                    let (name, cn) = listing[q];
                    proof {
                        assert(listing@[q as int].0@ == ks[q as int]);
                        assert(ks.contains(ks[q as int]));
                    }
                    let ghost out0 = out@;
                    let ghost ow0 = owner;
                    out.push((self.dirs.entries[i].0.clone(), name.to_owned(), cn.inode));
                    proof {
                        owner = owner.push(i as int);
                        assert(owner == ow0.push(i as int));
                        assert(owner.len() == ow0.len() + 1);
                        assert forall|k: int| 0 <= k < ow0.len() implies owner[k] == ow0[k] by {}
                        assert forall|t: int, u: int| 0 <= t < u < owner.len() && owner[t] == owner[u]
                            implies (#[trigger] out@[t]).1@ != (#[trigger] out@[u]).1@ by {
                            if u == owner.len() - 1 {
                                if t >= start {
                                    assert(out@[t].1@ == ks[t - start]);
                                    assert(out@[u].1@ == ks[q as int]);
                                } else {
                                    assert(ow0[t] < i);
                                }
                            } else {
                                assert(out@[t] == out0[t]);
                                assert(out@[u] == out0[u]);
                            }
                        }
                        assert forall|j: int, mm: Seq<char>| 0 <= j < i && under(self.dirs.entries@[j].0@, p@)
                            && #[trigger] self.dirs.entries@[j].1@.entries.contains_key(mm)
                            implies exists|t: int| 0 <= t < owner.len() && #[trigger] owner[t] == j && out@[t].1@ == mm by {
                            let t = choose|t: int| 0 <= t < ow0.len() && #[trigger] ow0[t] == j && out0[t].1@ == mm;
                            assert(owner[t] == j);
                            assert(out@[t] == out0[t]);
                        }
                        assert forall|t: int| 0 <= t < start implies #[trigger] owner[t] == owner0[t] by {
                            assert(owner[t] == ow0[t]);
                        }
                        assert forall|t: int| start <= t < owner.len() implies #[trigger] owner[t] == i && out@[t].1@ == ks[t - start] by {
                            if t < ow0.len() {
                                assert(owner[t] == ow0[t]);
                                assert(out@[t] == out0[t]);
                            } else {
                                assert(out@[t].1@ == name@);
                            }
                        }
                        assert forall|t: int| 0 <= t < owner.len() implies 0 <= #[trigger] owner[t] < i + 1
                            && out@[t].0@ == self.dirs.entries@[owner[t]].0@ && under(out@[t].0@, p@)
                            && self.dirs.entries@[owner[t]].1@.entries.contains_key(out@[t].1@)
                            && out@[t].2 == self.dirs.entries@[owner[t]].1@.entries[out@[t].1@].inode by {
                            if t < owner.len() - 1 {
                                assert(owner[t] == ow0[t]);
                                assert(out@[t] == out0[t]);
                            }
                        }
                        assert forall|t: int, u: int| 0 <= t < u < owner.len() implies #[trigger] owner[t] <= #[trigger] owner[u] by {
                            if u < owner.len() - 1 {
                                assert(owner[t] == ow0[t]);
                                assert(owner[u] == ow0[u]);
                            } else {
                                assert(owner[t] == ow0[t]);
                            }
                        }
                    }
                    q = q + 1;
                }
                proof {
                    assert forall|j: int, mm: Seq<char>| 0 <= j < i + 1 && under(self.dirs.entries@[j].0@, p@)
                        && #[trigger] self.dirs.entries@[j].1@.entries.contains_key(mm)
                        implies exists|t: int| 0 <= t < owner.len() && #[trigger] owner[t] == j && out@[t].1@ == mm by {
                        if j == i {
                            assert(ks.contains(mm));
                            let qq = choose|qq: int| 0 <= qq < ks.len() && ks[qq] == mm;
                            assert(owner[start + qq] == j);
                        }
                    }
                }
            }
            i = i + 1;
        }
        proof {
            assert forall|a: int, b: int| 0 <= a < b < out@.len() implies (#[trigger] out@[a]).0@ != (#[trigger] out@[b]).0@
                || out@[a].1@ != out@[b].1@ by {
                if owner[a] != owner[b] {
                    self.dirs.lemma_distinct(owner[a], owner[b]);
                }
            }
            assert forall|a: int| 0 <= a < out@.len() implies under((#[trigger] out@[a]).0@, join_segments(path@))
                && self.view().contains_key(out@[a].0@)
                && self.view()[out@[a].0@]@.entries.contains_key(out@[a].1@)
                && out@[a].2 == self.view()[out@[a].0@]@.entries[out@[a].1@].inode by {
                self.dirs.lemma_entry(owner[a]);
            }
            assert forall|d: Seq<char>, m: Seq<char>| under(d, join_segments(path@)) && #[trigger] self.view().contains_key(d)
                && #[trigger] self.view()[d]@.entries.contains_key(m)
                implies exists|a: int| 0 <= a < out@.len() && (#[trigger] out@[a]).0@ == d && out@[a].1@ == m by {
                let j = self.dirs.index_of(d);
                self.dirs.lemma_entry(j);
                assert(self.dirs.entries@[j].1@.entries.contains_key(m));
                let t = choose|t: int| 0 <= t < owner.len() && #[trigger] owner[t] == j && out@[t].1@ == m;
                assert(out@[t].0@ == d);
            }
        }
        out
    }

    /// The inodes of every entry of every cached directory at or below
    /// `path`, one per entry.
    pub fn collect_inodes_under(&self, path: &VfsPath) -> (r: Vec<u64>)
        requires
            self.wf(),
        ensures
            exists|es: Seq<(Seq<char>, Seq<char>, u64)>|
                #![trigger es.len()]
                es.len() == r@.len()
                && (forall|a: int, b: int| 0 <= a < b < es.len() ==> (#[trigger] es[a]).0 != (#[trigger] es[b]).0 || es[a].1 != es[b].1)
                && (forall|a: int| 0 <= a < es.len() ==> under((#[trigger] es[a]).0, join_segments(path@))
                    && self.view().contains_key(es[a].0)
                    && self.view()[es[a].0]@.entries.contains_key(es[a].1)
                    && r@[a] == self.view()[es[a].0]@.entries[es[a].1].inode)
                && (forall|d: Seq<char>, m: Seq<char>| under(d, join_segments(path@)) && #[trigger] self.view().contains_key(d)
                    && #[trigger] self.view()[d]@.entries.contains_key(m)
                    ==> exists|a: int| 0 <= a < es.len() && (#[trigger] es[a]).0 == d && es[a].1 == m),
    {
        let entries = self.entries_under(path);
        let ghost es = Seq::new(entries@.len(), |a: int| (entries@[a].0@, entries@[a].1@, entries@[a].2));
        let mut out: Vec<u64> = Vec::new();
        let n = entries.len();
        let mut i: usize = 0;
        while i < n
            invariant
                n == entries@.len(),
                i <= n,
                out@.len() == i,
                forall|a: int| 0 <= a < i ==> out@[a] == #[trigger] entries@[a].2,
            decreases n - i,
        {
            out.push(entries[i].2);
            i = i + 1;
        }
        proof {
            assert forall|a: int, b: int| 0 <= a < b < es.len() implies (#[trigger] es[a]).0 != (#[trigger] es[b]).0 || es[a].1 != es[b].1 by {
                assert(entries@[a].0@ != entries@[b].0@ || entries@[a].1@ != entries@[b].1@);
            }
            assert forall|a: int| 0 <= a < es.len() implies under((#[trigger] es[a]).0, join_segments(path@))
                && self.view().contains_key(es[a].0)
                && self.view()[es[a].0]@.entries.contains_key(es[a].1)
                && out@[a] == self.view()[es[a].0]@.entries[es[a].1].inode by {
                assert(under(entries@[a].0@, join_segments(path@)));
            }
            assert forall|d: Seq<char>, m: Seq<char>| under(d, join_segments(path@)) && #[trigger] self.view().contains_key(d)
                && #[trigger] self.view()[d]@.entries.contains_key(m)
                implies exists|a: int| 0 <= a < es.len() && (#[trigger] es[a]).0 == d && es[a].1 == m by {
                let a = choose|a: int| 0 <= a < entries@.len() && (#[trigger] entries@[a]).0@ == d && entries@[a].1@ == m;
                assert(es[a].0 == d);
            }
            assert(es.len() == out@.len());
        }
        out
    }

    /// Take the state of the directory `path` out of the cache: the cached
    /// state, or a fresh one if the directory is not cached.
    pub fn take_dir(&mut self, path: &VfsPath) -> (r: DirState)
        requires
            old(self).wf(),
        ensures
            final(self).wf(),
            final(self).view() == old(self).view().remove(join_segments(path@)),
            old(self).view().contains_key(join_segments(path@)) ==> r == old(self).view()[join_segments(path@)],
            !old(self).view().contains_key(join_segments(path@)) ==> r@ == fresh_dir(),
    {
        match self.dirs.remove(path.as_str()) {
            Some(d) => d,
            None => DirState::new(),
        }
    }

    /// Store `dir` as the state of the directory `path`.
    pub fn put_dir(&mut self, path: &VfsPath, dir: DirState)
        requires
            old(self).wf(),
        ensures
            final(self).wf(),
            final(self).view() == old(self).view().insert(join_segments(path@), dir),
    {
        self.dirs.insert(path.as_string(), dir);
    }

    /// The state of the directory `path`, created unresolved if not cached.
    pub fn get_or_create(&mut self, path: &VfsPath) -> (r: &mut DirState)
        requires
            old(self).wf(),
        ensures
            final(self).wf(),
            old(self).view().contains_key(join_segments(path@)) ==> *r == old(self).view()[join_segments(path@)],
            !old(self).view().contains_key(join_segments(path@)) ==> r@ == fresh_dir(),
            final(self).view() == old(self).view().insert(join_segments(path@), *final(r)),
    {
        let key = path.as_str();
        let i = match self.dirs.find(key) {
            Some(i) => i,
            None => {
                self.dirs.insert(key.to_owned(), DirState::new());
                match self.dirs.find(key) {
                    Some(i) => i,
                    None => {
                        assert(false);
                        0
                    },
                }
            },
        };
        let ghost before = self.dirs;
        proof {
            before.lemma_entry(i as int);
            assert(before.view().contains_key(key@));
            assert(before.view() == old(self).view().insert(key@, before.view()[key@]));
            assert forall|other: Assoc<String, DirState>, v: DirState|
                #![trigger other.view(), old(self).view().insert(key@, v)]
                other.entries@ == before.entries@.update(i as int, (before.entries@[i as int].0, v))
                implies other.wf() && other.view() == old(self).view().insert(key@, v) by {
                before.lemma_update_value(&other, i as int, v);
                assert(before.view().insert(key@, v) =~= old(self).view().insert(key@, v));
            }
        }
        self.dirs.value_mut(i)
    }
}

} // verus!

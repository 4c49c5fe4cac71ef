//! Inode numbering, readdir entries and cache insertion with stable inodes.

use vstd::prelude::*;
use crate::cache::{fresh_dir, survives_sweep, swept_map, under, unresolved, without_provider_dir, CachedNode, CachedNodeKind, DirState, DirView, L1Cache, NodeEntry, NodeSource};
use crate::content_cache::{generation_of, ContentCache, FileGenerations};
use crate::events::{EventSink, InvalidationEvent, KernelNotifier};
use crate::path_filter::PathFilter;
use crate::real_fs::RealFs;
use crate::registry::{Provider, ProviderRegistry};
use crate::node::{source_view, FileKind, VirtualNode};
use crate::resolve::{among, name_set, OwnedNode};
use crate::real_fs::RealDirEntry;
use crate::path::{join_segments, VfsPath};
use crate::provider::ProviderId;
use crate::routing::ctx::RequestContext;
use slab::Slab;

verus! {

/// Where an inode lives: its directory, its name and its parent's inode.
pub struct InodeEntry {
    pub dir_path: VfsPath,
    pub name: String,
    pub parent_inode: u64,
}

#[verifier::external_type_specification]
#[verifier::external_body]
#[verifier::reject_recursive_types(T)]
pub struct ExSlab<T>(Slab<T>);

/// The entries a slab of inode entries holds, by key.
pub uninterp spec fn slab_items(s: Slab<InodeEntry>) -> Map<usize, InodeEntry>;

/// No entries at all.
pub open spec fn empty_slab_items() -> Map<usize, InodeEntry> {
    Map::empty()
}

/// slab's `Slab::new`: an empty slab.
#[verifier::external_body]
fn slab_new() -> (r: Slab<InodeEntry>)
    ensures
        slab_items(r) == empty_slab_items(),
{
    Slab::new()
}

/// slab's `Slab::insert`: the value is stored under a key no entry held,
/// which is returned. The key is at most the length of the slab's entry
/// vector, which stays below `isize::MAX`. The call panics when the vector
/// cannot grow; that is not excluded here.
#[verifier::external_body]
fn slab_insert(s: &mut Slab<InodeEntry>, v: InodeEntry) -> (r: usize)
    ensures
        !slab_items(*old(s)).contains_key(r),
        slab_items(*final(s)) == slab_items(*old(s)).insert(r, v),
        r < isize::MAX,
{
    s.insert(v)
}

/// slab's `Slab::get`: the value under `key`, if occupied.
#[verifier::external_body]
fn slab_get(s: &Slab<InodeEntry>, key: usize) -> (r: Option<&InodeEntry>)
    ensures
        r is Some <==> slab_items(*s).contains_key(key),
        r matches Some(e) ==> *e == slab_items(*s)[key],
{
    s.get(key)
}

/// slab's `Slab::get_mut`, storing `v` under `key` when it is occupied;
/// returns whether it was.
#[verifier::external_body]
fn slab_replace(s: &mut Slab<InodeEntry>, key: usize, v: InodeEntry) -> (r: bool)
    ensures
        r == slab_items(*old(s)).contains_key(key),
        r ==> slab_items(*final(s)) == slab_items(*old(s)).insert(key, v),
        !r ==> slab_items(*final(s)) == slab_items(*old(s)),
{
    match s.get_mut(key) {
        Some(e) => {
            *e = v;
            true
        },
        None => false,
    }
}

/// The inode number of the mount root.
pub const ROOT_INODE: u64 = 1;

/// The inode number of slab key `k`: keys start at inode 2.
pub open spec fn inode_of_key(k: usize) -> u64 {
    (k + 2) as u64
}

/// Bidirectional map between inode numbers and cache locations.
pub struct InodeMap {
    inner: Slab<InodeEntry>,
}

impl InodeMap {
    /// The entries by inode number.
    pub closed spec fn view(&self) -> Map<u64, InodeEntry> {
        Map::new(
            |i: u64| i >= 2 && i - 2 <= usize::MAX && slab_items(self.inner).contains_key((i - 2) as usize),
            |i: u64| slab_items(self.inner)[(i - 2) as usize],
        )
    }

    /// No inode is allocated.
    pub fn new() -> (r: Self)
        ensures
            r.view() == Map::<u64, InodeEntry>::empty(),
    {
        let r = InodeMap { inner: slab_new() };
        assert(r.view() =~= Map::<u64, InodeEntry>::empty());
        r
    }

    /// The slab key of an inode number, when it can be one.
    fn inode_to_index(inode: u64) -> (r: Option<usize>)
        ensures
            r is Some <==> inode >= 2 && inode - 2 <= usize::MAX,
            r matches Some(k) ==> k == inode - 2,
    {
        if inode < 2 {
            return None;
        }
        let k = inode - 2;
        if k > usize::MAX as u64 {
            return None;
        }
        Some(k as usize)
    }

    /// Allocate a fresh inode number for `entry`.
    pub fn allocate(&mut self, entry: InodeEntry) -> (r: u64)
        ensures
            r >= 2,
            !old(self).view().contains_key(r),
            final(self).view() == old(self).view().insert(r, entry),
    {
        let ghost e = entry;
        let idx = slab_insert(&mut self.inner, entry);
        let r = idx as u64 + 2;
        assert(self.view() =~= old(self).view().insert(r, e)) by {
            assert(((r - 2) as usize) == idx);
        }
        r
    }

    /// The entry of `inode`, copied.
    pub fn get(&self, inode: u64) -> (r: Option<InodeEntry>)
        ensures
            r is Some <==> self.view().contains_key(inode),
            r matches Some(e) ==> e.dir_path@ == self.view()[inode].dir_path@
                && e.name@ == self.view()[inode].name@
                && e.parent_inode == self.view()[inode].parent_inode,
    {
        let idx = match InodeMap::inode_to_index(inode) {
            Some(i) => i,
            None => return None,
        };
        match slab_get(&self.inner, idx) {
            Some(e) => Some(InodeEntry { dir_path: e.dir_path.duplicate(), name: e.name.clone(), parent_inode: e.parent_inode }),
            None => None,
        }
    }

    /// Point an allocated inode at a new location; other inodes, and
    /// unallocated numbers, are left alone.
    pub fn update(&mut self, inode: u64, dir_path: VfsPath, name: String, parent_inode: u64)
        ensures
            old(self).view().contains_key(inode) ==> final(self).view()
                == old(self).view().insert(inode, InodeEntry { dir_path, name, parent_inode }),
            !old(self).view().contains_key(inode) ==> final(self).view() == old(self).view(),
    {
        let idx = match InodeMap::inode_to_index(inode) {
            Some(i) => i,
            None => {
                return;
            },
        };
        let ghost e = InodeEntry { dir_path, name, parent_inode };
        slab_replace(&mut self.inner, idx, InodeEntry { dir_path, name, parent_inode });
        assert(self.view() =~= if old(self).view().contains_key(inode) {
            old(self).view().insert(inode, e)
        } else {
            old(self).view()
        });
    }
}

/// One entry of a directory listing.
pub struct ReaddirEntry {
    pub inode: u64,
    pub kind: FileKind,
    pub name: String,
}

impl ReaddirEntry {
    /// The `.` entry.
    pub fn dot(inode: u64) -> (r: Self)
        ensures
            r.inode == inode,
            r.kind == FileKind::Directory,
            r.name@ == "."@,
    {
        ReaddirEntry { inode, kind: FileKind::Directory, name: ".".to_owned() }
    }

    /// The `..` entry.
    pub fn dotdot(inode: u64) -> (r: Self)
        ensures
            r.inode == inode,
            r.kind == FileKind::Directory,
            r.name@ == ".."@,
    {
        ReaddirEntry { inode, kind: FileKind::Directory, name: "..".to_owned() }
    }

    /// An entry of the real filesystem.
    pub fn real_entry(inode: u64, kind: FileKind, name: String) -> (r: Self)
        ensures
            r == (ReaddirEntry { inode, kind, name }),
    {
        ReaddirEntry { inode, kind, name }
    }
}

/// A snapshot of what an inode resolves to.
pub enum ResolvedInode {
    Real { file_type: FileKind, path: VfsPath },
    Virtual { node: VirtualNode, provider_id: ProviderId, dir_path: VfsPath },
}

impl ResolvedInode {
    /// The path to log: the real entry's path, or the directory holding
    /// the virtual node.
    pub fn path_str(&self) -> (r: &str)
        ensures
            r@ == match self {
                ResolvedInode::Real { path, .. } => join_segments(path@),
                ResolvedInode::Virtual { dir_path, .. } => join_segments(dir_path@),
            },
    {
        match self {
            ResolvedInode::Real { path, .. } => path.as_str(),
            ResolvedInode::Virtual { dir_path, .. } => dir_path.as_str(),
        }
    }
}

/// The generation a new entry of `source` is stamped with in a directory
/// at resolve generation `g`: `g` for generation-tracked sources, 0 else.
pub open spec fn stamp(source: NodeSource, g: u64) -> u64 {
    if source.stamped() {
        g
    } else {
        0
    }
}

/// Insert `entry` into `dir` (the directory at `dir_path`), returning its
/// inode. A name already cached keeps its inode and has its kind, source
/// and generation replaced; a new name gets a fresh inode recorded in
/// `inodes` under `parent_inode`.
pub fn insert_node(dir: &mut DirState, dir_path: &VfsPath, entry: NodeEntry, inodes: &mut InodeMap, parent_inode: u64) -> (r: u64)
    ensures
        old(dir)@.entries.contains_key(entry.name@) ==> r == old(dir)@.entries[entry.name@].inode
            && final(inodes).view() == old(inodes).view(),
        !old(dir)@.entries.contains_key(entry.name@) ==> r >= 2 && r != ROOT_INODE
            && !old(inodes).view().contains_key(r)
            && final(inodes).view().dom() == old(inodes).view().dom().insert(r)
            && final(inodes).view()[r].dir_path@ == dir_path@
            && final(inodes).view()[r].name@ == entry.name@
            && final(inodes).view()[r].parent_inode == parent_inode
            && (forall|i: u64| i != r && #[trigger] old(inodes).view().contains_key(i) ==> final(inodes).view()[i] == old(inodes).view()[i]),
        final(dir)@ == (crate::cache::DirView {
            entries: old(dir)@.entries.insert(entry.name@, CachedNode {
                inode: r,
                kind: entry.kind,
                source: entry.source,
                generation: stamp(entry.source, old(dir)@.generation),
            }),
            ..old(dir)@
        }),
{
    let generation = if entry.source.is_generation_tracked() {
        dir.resolve_generation()
    } else {
        0
    };
    let existing = match dir.get(entry.name.as_str()) {
        Some(cn) => Some(cn.inode),
        None => None,
    };
    let NodeEntry { name, kind, source } = entry;
    match existing {
        Some(inode) => {
            dir.insert(name, CachedNode { inode, kind, source, generation });
            inode
        },
        None => {
            let inode = inodes.allocate(InodeEntry { dir_path: dir_path.duplicate(), name: name.clone(), parent_inode });
            dir.insert(name, CachedNode { inode, kind, source, generation });
            inode
        },
    }
}

/// The name, kind and source of each entry.
pub open spec fn entry_views(es: Seq<NodeEntry>) -> Seq<(Seq<char>, CachedNodeKind, NodeSource)> {
    Seq::new(es.len(), |i: int| (es[i].name@, es[i].kind, es[i].source))
}

/// The kind and source of the last of `es` named `k`, if any.
pub open spec fn last_named(es: Seq<(Seq<char>, CachedNodeKind, NodeSource)>, k: Seq<char>) -> Option<(CachedNodeKind, NodeSource)>
    decreases es.len(),
{
    if es.len() == 0 {
        None
    } else if es.last().0 == k {
        Some((es.last().1, es.last().2))
    } else {
        last_named(es.drop_last(), k)
    }
}

/// Directory `d` after inserting the named entries `es` in order with
/// `insert_node`, for the inode table going from `inodes0` to `inodes1`:
/// each name's last entry is cached, reusing a cached name's inode and
/// giving a new name a fresh inode recorded for `dir_path`; other entries
/// stay.
pub open spec fn inserted_all(
    d0: DirView,
    d1: DirView,
    es: Seq<(Seq<char>, CachedNodeKind, NodeSource)>,
    inodes0: Map<u64, InodeEntry>,
    inodes1: Map<u64, InodeEntry>,
    dir_path: Seq<Seq<char>>,
    parent_inode: u64,
) -> bool {
    &&& d1 == (crate::cache::DirView { entries: d1.entries, ..d0 })
    &&& forall|k: Seq<char>| #[trigger] d1.entries.contains_key(k) <==> (last_named(es, k) is Some || d0.entries.contains_key(k))
    &&& forall|k: Seq<char>| #[trigger] last_named(es, k) is Some ==> {
        let e = last_named(es, k)->Some_0;
        let n = d1.entries[k];
        &&& n.kind == e.0
        &&& n.source == e.1
        &&& n.generation == stamp(e.1, d0.generation)
        &&& d0.entries.contains_key(k) ==> n.inode == d0.entries[k].inode
        &&& !d0.entries.contains_key(k) ==> !inodes0.contains_key(n.inode) && inodes1.contains_key(n.inode)
            && inodes1[n.inode].dir_path@ == dir_path && inodes1[n.inode].name@ == k
            && inodes1[n.inode].parent_inode == parent_inode
    }
    &&& forall|k: Seq<char>| #[trigger] d0.entries.contains_key(k) && last_named(es, k) is None ==> d1.entries[k] == d0.entries[k]
    &&& forall|i: u64| #[trigger] inodes0.contains_key(i) ==> inodes1.contains_key(i) && inodes1[i] == inodes0[i]
}

/// The real entries of a resolve cycle all come from its children.
proof fn lemma_real_entries_children(re: Seq<RealDirEntry>, sh: Set<Seq<char>>)
    ensures
        forall|i: int| 0 <= i < real_entry_views(re, sh).len() ==> (#[trigger] real_entry_views(re, sh)[i]).2 == NodeSource::Children,
    decreases re.len(),
{
    if re.len() > 0 {
        lemma_real_entries_children(re.drop_last(), sh);
        let a = real_entry_views(re.drop_last(), sh);
        assert forall|i: int| 0 <= i < real_entry_views(re, sh).len() implies (#[trigger] real_entry_views(re, sh)[i]).2 == NodeSource::Children by {
            if i < a.len() {
                assert(real_entry_views(re, sh)[i] == a[i]);
            }
        }
    }
}

/// Every entry a resolve cycle inserts comes from its children.
proof fn lemma_last_named_children(es: Seq<(Seq<char>, CachedNodeKind, NodeSource)>, k: Seq<char>)
    requires
        forall|i: int| 0 <= i < es.len() ==> (#[trigger] es[i]).2 == NodeSource::Children,
        last_named(es, k) is Some,
    ensures
        last_named(es, k)->Some_0.1 == NodeSource::Children,
    decreases es.len(),
{
    if es.last().0 != k {
        let d = es.drop_last();
        assert forall|i: int| 0 <= i < d.len() implies (#[trigger] d[i]).2 == NodeSource::Children by {
            assert(d[i] == es[i]);
        }
        lemma_last_named_children(d, k);
    } else {
        assert(es[es.len() - 1].2 == NodeSource::Children);
    }
}

/// Insert `entries` in order into `dir` (the directory at `dir_path`),
/// each as [`insert_node`] does.
pub fn insert_entries(dir: &mut DirState, dir_path: &VfsPath, entries: Vec<NodeEntry>, inodes: &mut InodeMap, parent_inode: u64)
    ensures
        inserted_all(old(dir)@, final(dir)@, entry_views(entries@), old(inodes).view(), final(inodes).view(), dir_path@, parent_inode),
{
    let ghost es = entry_views(entries@);
    let ghost d0 = dir@;
    let ghost i0 = inodes.view();
    let mut rest = entries;
    let n = rest.len();
    let mut i: usize = 0;
    while i < n
        invariant
            n == es.len(),
            i <= n,
            rest@.len() == n - i,
            forall|j: int| 0 <= j < n - i ==> (#[trigger] entry_views(rest@)[j]) == es[i + j],
            inserted_all(d0, dir@, es.subrange(0, i as int), i0, inodes.view(), dir_path@, parent_inode),
        decreases n - i,
    {
        let ghost r0 = rest@;
        let e = rest.remove(0);
        proof {
            assert(entry_views(r0)[0] == es[i as int]);
            assert forall|j: int| 0 <= j < n - i - 1 implies (#[trigger] entry_views(rest@)[j]) == es[i + 1 + j] by {
                assert(rest@[j] == r0[j + 1]);
                assert(entry_views(r0)[j + 1] == es[i + (j + 1)]);
            }
        }
        let ghost ev = (e.name@, e.kind, e.source);
        let ghost dprev = dir@;
        let ghost iprev = inodes.view();
        let ghost pre = es.subrange(0, i as int);
        let ghost post = es.subrange(0, i + 1);
        insert_node(dir, dir_path, e, inodes, parent_inode);
        proof {
            assert(post.drop_last() =~= pre);
            assert(post.last() == ev);
            assert forall|k: Seq<char>| #[trigger] last_named(post, k) == if k == ev.0 { Some((ev.1, ev.2)) } else { last_named(pre, k) } by {}
            assert forall|k: Seq<char>| #[trigger] dir@.entries.contains_key(k) <==> (last_named(post, k) is Some || d0.entries.contains_key(k)) by {
                assert(last_named(post, k) == if k == ev.0 { Some((ev.1, ev.2)) } else { last_named(pre, k) });
                assert(dprev.entries.contains_key(k) <==> (last_named(pre, k) is Some || d0.entries.contains_key(k)));
            }
            assert forall|k: Seq<char>| #[trigger] last_named(post, k) is Some implies {
                let e = last_named(post, k)->Some_0;
                let n = dir@.entries[k];
                &&& n.kind == e.0
                &&& n.source == e.1
                &&& n.generation == stamp(e.1, d0.generation)
                &&& d0.entries.contains_key(k) ==> n.inode == d0.entries[k].inode
                &&& !d0.entries.contains_key(k) ==> !i0.contains_key(n.inode) && inodes.view().contains_key(n.inode)
                    && inodes.view()[n.inode].dir_path@ == dir_path@ && inodes.view()[n.inode].name@ == k
                    && inodes.view()[n.inode].parent_inode == parent_inode
            } by {
                assert(last_named(post, k) == if k == ev.0 { Some((ev.1, ev.2)) } else { last_named(pre, k) });
                if k != ev.0 {
                    assert(last_named(pre, k) is Some);
                    assert(dprev.entries.contains_key(k));
                    let ino = dprev.entries[k].inode;
                    if !d0.entries.contains_key(k) {
                        assert(iprev.contains_key(ino));
                    }
                } else {
                    if dprev.entries.contains_key(k) {
                        if last_named(pre, k) is None {
                            assert(d0.entries.contains_key(k));
                        } else if !d0.entries.contains_key(k) {
                            let ino = dprev.entries[k].inode;
                            assert(iprev.contains_key(ino));
                        }
                    } else {
                        assert(!d0.entries.contains_key(k));
                    }
                }
            }
            assert forall|k: Seq<char>| #[trigger] d0.entries.contains_key(k) && last_named(post, k) is None implies dir@.entries[k] == d0.entries[k] by {
                assert(last_named(post, k) == if k == ev.0 { Some((ev.1, ev.2)) } else { last_named(pre, k) });
            }
            assert forall|x: u64| #[trigger] i0.contains_key(x) implies inodes.view().contains_key(x) && inodes.view()[x] == i0[x] by {
                assert(iprev.contains_key(x));
            }
        }
        i = i + 1;
    }
    assert(es.subrange(0, n as int) =~= es);
}

/// The entries a resolve cycle inserts for its virtual nodes, in order.
pub open spec fn virtual_entry_views(vn: Seq<OwnedNode>) -> Seq<(Seq<char>, CachedNodeKind, NodeSource)> {
    Seq::new(vn.len(), |i: int| (
        vn[i].node@.name,
        CachedNodeKind::Virtual { node: vn[i].node, provider_id: vn[i].provider_id },
        NodeSource::Children,
    ))
}

/// The entries a resolve cycle inserts for the real entries whose names
/// are not in `shadowed`, in order.
pub open spec fn real_entry_views(re: Seq<RealDirEntry>, shadowed: Set<Seq<char>>) -> Seq<(Seq<char>, CachedNodeKind, NodeSource)>
    decreases re.len(),
{
    if re.len() == 0 {
        Seq::empty()
    } else {
        real_entry_views(re.drop_last(), shadowed) + if shadowed.contains(re.last().name@) {
            Seq::empty()
        } else {
            seq![(re.last().name@, CachedNodeKind::Real { file_type: re.last().file_type }, NodeSource::Children)]
        }
    }
}

/// The source stamp of the first virtual node that has one.
pub open spec fn first_source(vn: Seq<OwnedNode>) -> Option<(Seq<Seq<char>>, u64)>
    decreases vn.len(),
{
    if vn.len() == 0 {
        None
    } else if first_source(vn.drop_last()) is Some {
        first_source(vn.drop_last())
    } else {
        vn.last().node@.source
    }
}

/// The entries of one resolve cycle: the virtual nodes, then the real
/// entries not shadowed; and the first virtual node's source stamp.
fn resolve_entries(virtual_nodes: Vec<OwnedNode>, real_entries: Vec<RealDirEntry>, shadowed: &[&str]) -> (r: (Vec<NodeEntry>, Option<(VfsPath, u64)>))
    ensures
        entry_views(r.0@) == virtual_entry_views(virtual_nodes@) + real_entry_views(real_entries@, name_set(shadowed@)),
        source_view(r.1) == first_source(virtual_nodes@),
{
    let ghost vn = virtual_nodes@;
    let ghost re = real_entries@;
    let ghost sh = name_set(shadowed@);
    let mut out: Vec<NodeEntry> = Vec::new();
    let mut dir_source: Option<(VfsPath, u64)> = None;
    let mut rest = virtual_nodes;
    let n = rest.len();
    let mut i: usize = 0;
    while i < n
        invariant
            n == vn.len(),
            i <= n,
            rest@ == vn.subrange(i as int, n as int),
            entry_views(out@) == virtual_entry_views(vn.subrange(0, i as int)),
            source_view(dir_source) == first_source(vn.subrange(0, i as int)),
        decreases n - i,
    {
        let owned = rest.remove(0);
        proof {
            assert(vn.subrange(i as int, n as int)[0] == vn[i as int]);
            assert(rest@ =~= vn.subrange(i + 1, n as int));
            assert(vn.subrange(0, i + 1).drop_last() =~= vn.subrange(0, i as int));
        }
        if dir_source.is_none() {
            match owned.node.source() {
                Some((f, g)) => {
                    dir_source = Some((f.duplicate(), g));
                },
                None => {},
            }
        }
        let name = owned.node.name().to_owned();
        let ghost ov = owned;
        let kind = owned.into_cached_kind();
        let ghost before = entry_views(out@);
        out.push(NodeEntry { name, kind, source: NodeSource::Children });
        proof {
            assert(entry_views(out@) =~= before.push((ov.node@.name, kind, NodeSource::Children)));
            assert(virtual_entry_views(vn.subrange(0, i + 1)) =~= virtual_entry_views(vn.subrange(0, i as int)).push(
                (vn[i as int].node@.name, CachedNodeKind::Virtual { node: vn[i as int].node, provider_id: vn[i as int].provider_id }, NodeSource::Children)));
        }
        i = i + 1;
    }
    assert(vn.subrange(0, n as int) =~= vn);
    let ghost vpart = entry_views(out@);
    let mut rest = real_entries;
    let m = rest.len();
    let mut j: usize = 0;
    assert(real_entry_views(re.subrange(0, 0), sh) =~= Seq::empty());
    assert(vpart + real_entry_views(re.subrange(0, 0), sh) =~= vpart);
    while j < m
        invariant
            m == re.len(),
            j <= m,
            rest@ == re.subrange(j as int, m as int),
            sh == name_set(shadowed@),
            entry_views(out@) == vpart + real_entry_views(re.subrange(0, j as int), sh),
        decreases m - j,
    {
        let e = rest.remove(0);
        proof {
            assert(re.subrange(j as int, m as int)[0] == re[j as int]);
            assert(rest@ =~= re.subrange(j + 1, m as int));
            assert(re.subrange(0, j + 1).drop_last() =~= re.subrange(0, j as int));
            assert(re.subrange(0, j + 1).last() == re[j as int]);
        }
        let ghost before = entry_views(out@);
        if !among(shadowed, e.name.as_str()) {
            let RealDirEntry { name, file_type } = e;
            out.push(NodeEntry { name, kind: CachedNodeKind::Real { file_type }, source: NodeSource::Children });
            assert(entry_views(out@) =~= before.push((e.name@, CachedNodeKind::Real { file_type: e.file_type }, NodeSource::Children)));
        } else {
            assert(entry_views(out@) =~= before + Seq::empty());
        }
        j = j + 1;
    }
    assert(re.subrange(0, m as int) =~= re);
    (out, dir_source)
}

/// Drop the content cached for each of `inodes`.
fn invalidate_all_of(content: &mut ContentCache, inodes: &Vec<u64>)
    requires
        old(content).wf(),
    ensures
        final(content).wf(),
        final(content).gens() == old(content).gens(),
        final(content).contents() == old(content).contents().remove_keys(inodes@.to_set()),
{
    let ghost start = content.contents();
    let n = inodes.len();
    let mut i: usize = 0;
    while i < n
        invariant
            n == inodes@.len(),
            i <= n,
            content.wf(),
            content.gens() == old(content).gens(),
            start == old(content).contents(),
            content.contents() == start.remove_keys(inodes@.subrange(0, i as int).to_set()),
        decreases n - i,
    {
        content.invalidate(inodes[i]);
        proof {
            assert(inodes@.subrange(0, i + 1).to_set() =~= inodes@.subrange(0, i as int).to_set().insert(inodes@[i as int])) by {
                assert forall|x: u64| inodes@.subrange(0, i + 1).to_set().contains(x) implies
                    inodes@.subrange(0, i as int).to_set().insert(inodes@[i as int]).contains(x) by {
                    let a = choose|a: int| 0 <= a < i + 1 && #[trigger] inodes@.subrange(0, i + 1)[a] == x;
                    if a < i {
                        assert(inodes@.subrange(0, i as int)[a] == x);
                    }
                }
                assert forall|x: u64| inodes@.subrange(0, i as int).to_set().insert(inodes@[i as int]).contains(x) implies
                    inodes@.subrange(0, i + 1).to_set().contains(x) by {
                    if x == inodes@[i as int] {
                        assert(inodes@.subrange(0, i + 1)[i as int] == x);
                    } else {
                        let a = choose|a: int| 0 <= a < i && #[trigger] inodes@.subrange(0, i as int)[a] == x;
                        assert(inodes@.subrange(0, i + 1)[a] == x);
                    }
                }
            }
            assert(content.contents() =~= start.remove_keys(inodes@.subrange(0, i + 1).to_set()));
        }
        i = i + 1;
    }
    assert(inodes@.subrange(0, n as int) =~= inodes@);
}

/// The inodes a resolve cycle at generation `g` sweeps from directory `d`
/// when inserting `es`: those of the entries not reinserted that do not
/// survive the sweep.
pub open spec fn swept_inodes(d: DirView, es: Seq<(Seq<char>, CachedNodeKind, NodeSource)>, g: u64) -> Set<u64> {
    Set::new(|ino: u64| exists|k: Seq<char>| #[trigger] d.entries.contains_key(k) && last_named(es, k) is None
        && !survives_sweep(d.entries[k], g) && d.entries[k].inode == ino)
}

/// Directory `fd` is what one resolve cycle makes of directory `od`,
/// inserting `es` (with source stamp `src`): the generation advances to
/// `g`, the directory is resolved, each inserted name holds its last
/// entry stamped `g` (a cached name keeping its inode, a new name getting
/// a fresh inode recorded for `dir_path` under `parent`), and of the other
/// entries only those surviving the sweep at `g` stay, unchanged.
pub open spec fn resolve_cycle(
    od: DirView,
    fd: DirView,
    es: Seq<(Seq<char>, CachedNodeKind, NodeSource)>,
    src: Option<(Seq<Seq<char>>, u64)>,
    inodes0: Map<u64, InodeEntry>,
    inodes1: Map<u64, InodeEntry>,
    dir_path: Seq<Seq<char>>,
    parent: u64,
) -> bool {
    let g = (od.generation + 1) as u64;
    &&& fd.generation == g
    &&& fd.resolved
    &&& !fd.passthrough
    &&& fd.no_cache == od.no_cache
    &&& source_view(fd.source) == if src is Some { src } else { source_view(od.source) }
    &&& forall|k: Seq<char>| #[trigger] fd.entries.contains_key(k) <==> (last_named(es, k) is Some
        || (od.entries.contains_key(k) && survives_sweep(od.entries[k], g)))
    &&& forall|k: Seq<char>| #[trigger] last_named(es, k) is Some ==> {
        let e = last_named(es, k)->Some_0;
        let n = fd.entries[k];
        &&& n.kind == e.0
        &&& n.source == e.1
        &&& n.generation == stamp(e.1, g)
        &&& od.entries.contains_key(k) ==> n.inode == od.entries[k].inode
        &&& !od.entries.contains_key(k) ==> !inodes0.contains_key(n.inode) && inodes1.contains_key(n.inode)
            && inodes1[n.inode].dir_path@ == dir_path && inodes1[n.inode].name@ == k
            && inodes1[n.inode].parent_inode == parent
    }
    &&& forall|k: Seq<char>| #[trigger] od.entries.contains_key(k) && last_named(es, k) is None && survives_sweep(od.entries[k], g)
        ==> fd.entries[k] == od.entries[k]
    &&& forall|i: u64| #[trigger] inodes0.contains_key(i) ==> inodes1.contains_key(i) && inodes1[i] == inodes0[i]
}

/// The two routers have the same providers, real filesystem, event sink,
/// path filter, kernel notifier and notification guard.
pub open spec fn same_services<P, F, E, N>(a: Router<P, F, E, N>, b: Router<P, F, E, N>) -> bool {
    &&& a.registry == b.registry
    &&& a.real_fs == b.real_fs
    &&& a.events == b.events
    &&& a.path_filter == b.path_filter
    &&& a.kernel_notifier == b.kernel_notifier
    &&& a.in_fs_change_notify == b.in_fs_change_notify
}

/// The second cache has the same directories as the first, and each of its
/// entries is an unchanged entry of the first.
pub open spec fn entries_shrunk(v0: Map<Seq<char>, DirState>, v1: Map<Seq<char>, DirState>) -> bool {
    &&& v1.dom() == v0.dom()
    &&& forall|k: Seq<char>, m: Seq<char>| #[trigger] v1.contains_key(k) && #[trigger] v1[k]@.entries.contains_key(m)
        ==> v0.contains_key(k) && v0[k]@.entries.contains_key(m) && v1[k]@.entries[m] == v0[k]@.entries[m]
}

/// How one invalidation event changes the cached directories `v0` into
/// `v1`: a subtree event marks the directories under its path for
/// re-resolution, a provider event removes that provider's entries, and a
/// node event leaves the directories alone.
pub open spec fn event_effect(v0: Map<Seq<char>, DirState>, v1: Map<Seq<char>, DirState>, e: InvalidationEvent) -> bool {
    &&& v1.dom() == v0.dom()
    &&& match e {
        InvalidationEvent::Subtree { path } => forall|k: Seq<char>| #[trigger] v0.contains_key(k) ==> v1[k]@ ==
            if under(k, join_segments(path@)) { unresolved(v0[k]@) } else { v0[k]@ },
        InvalidationEvent::Provider { provider_id } => forall|k: Seq<char>| #[trigger] v0.contains_key(k) ==> v1[k]@ ==
            without_provider_dir(v0[k]@, provider_id@),
        InvalidationEvent::Node { .. } => v1 == v0,
    }
}

/// The events `evs`, applied in order, lead through the cached
/// directories `vs`: from `vs[0]` to `vs[evs.len()]`.
pub open spec fn events_chain(vs: Seq<Map<Seq<char>, DirState>>, evs: Seq<InvalidationEvent>) -> bool {
    &&& vs.len() == evs.len() + 1
    &&& forall|i: int| #![trigger evs[i]] 0 <= i < evs.len() ==> event_effect(vs[i], vs[i + 1], evs[i])
}

proof fn lemma_entries_shrunk_trans(a: Map<Seq<char>, DirState>, b: Map<Seq<char>, DirState>, c: Map<Seq<char>, DirState>)
    requires
        entries_shrunk(a, b),
        entries_shrunk(b, c),
    ensures
        entries_shrunk(a, c),
{
    assert forall|k: Seq<char>, m: Seq<char>| #[trigger] c.contains_key(k) && #[trigger] c[k]@.entries.contains_key(m)
        implies a.contains_key(k) && a[k]@.entries.contains_key(m) && c[k]@.entries[m] == a[k]@.entries[m] by {
        assert(b.contains_key(k) && b[k]@.entries.contains_key(m));
    }
}

/// The inode an entry of directory `dir_path` has as its parent: the root
/// inode for the root and for a directory not cached in its parent, else
/// the directory's own inode in its parent.
pub open spec fn dir_parent_inode(view: Map<Seq<char>, DirState>, dir_path: Seq<Seq<char>>) -> u64 {
    if dir_path.len() == 0 {
        ROOT_INODE
    } else {
        let parent = join_segments(dir_path.drop_last());
        let name = dir_path.last();
        if view.contains_key(parent) && view[parent]@.entries.contains_key(name) {
            view[parent]@.entries[name].inode
        } else {
            ROOT_INODE
        }
    }
}

/// The inode numbers of the entries of the cached directories at or below
/// the directory with text `p`.
pub open spec fn inodes_under(view: Map<Seq<char>, DirState>, p: Seq<char>) -> Set<u64> {
    Set::new(|ino: u64| exists|d: Seq<char>, m: Seq<char>| under(d, p) && #[trigger] view.contains_key(d)
        && #[trigger] view[d]@.entries.contains_key(m) && view[d]@.entries[m].inode == ino)
}

/// The caches of the dispatch layer: directory structure, content, and
/// inode numbers.
///
/// It routes requests to the active providers `P`, reads and changes the
/// real filesystem through `F`, collects providers' invalidation events in
/// `E`, and tells the kernel what to forget through `N` once one is
/// installed.
pub struct Router<P, F, E, N> {
    pub registry: ProviderRegistry<P>,
    pub real_fs: F,
    pub events: E,
    pub path_filter: PathFilter,
    pub cache: L1Cache,
    pub content_cache: ContentCache,
    pub inodes: InodeMap,
    pub kernel_notifier: Option<N>,
    /// Set while providers are told of filesystem changes, so that changes
    /// they make in turn are not told to them again.
    pub in_fs_change_notify: bool,
}

impl<P: Provider, F: RealFs, E: EventSink, N: KernelNotifier> Router<P, F, E, N> {
    /// The caches are well formed.
    pub open spec fn wf(&self) -> bool {
        self.cache.wf() && self.content_cache.wf()
    }

    /// Empty caches, content checked against `file_generations`.
    pub fn new(registry: ProviderRegistry<P>, real_fs: F, events: E, path_filter: PathFilter) -> (r: Self)
        ensures
            r.wf(),
            r.registry == registry,
            r.real_fs == real_fs,
            r.events == events,
            r.path_filter == path_filter,
            r.cache.view() == Map::<Seq<char>, DirState>::empty(),
            r.content_cache.contents() == Map::<u64, crate::content_cache::ContentEntry>::empty(),
            r.content_cache.gens() == Map::<Seq<char>, u64>::empty(),
            r.inodes.view() == Map::<u64, InodeEntry>::empty(),
            r.kernel_notifier is None,
            !r.in_fs_change_notify,
    {
        Router {
            registry,
            real_fs,
            events,
            path_filter,
            cache: L1Cache::new(),
            content_cache: ContentCache::new(FileGenerations::new()),
            inodes: InodeMap::new(),
            kernel_notifier: None,
            in_fs_change_notify: false,
        }
    }

    /// Install the kernel notifier, which can be done once.
    pub fn set_kernel_notifier(&mut self, notifier: N)
        requires
            old(self).kernel_notifier is None,
        ensures
            *final(self) == (Router { kernel_notifier: Some(notifier), ..*old(self) }),
    {
        self.kernel_notifier = Some(notifier);
    }

    /// The context of a request on the directory `path`.
    pub fn make_request_context<'a>(&'a self, path: &'a VfsPath) -> (r: RequestContext<'a>)
        ensures
            r.path == path,
    {
        RequestContext { path }
    }

    /// The inode of the directory `dir_path` as an entry of its parent: the
    /// root's own inode for the root, and for a directory not cached in its
    /// parent.
    pub fn parent_inode_for_dir(&self, dir_path: &VfsPath) -> (r: u64)
        requires
            self.wf(),
        ensures
            dir_path@.len() == 0 ==> r == ROOT_INODE,
            dir_path@.len() > 0 ==> {
                let parent = join_segments(dir_path@.drop_last());
                let name = dir_path@.last();
                if self.cache.view().contains_key(parent) && self.cache.view()[parent]@.entries.contains_key(name) {
                    r == self.cache.view()[parent]@.entries[name].inode
                } else {
                    r == ROOT_INODE
                }
            },
    {
        let parent = match dir_path.parent() {
            Some(p) => p,
            None => return ROOT_INODE,
        };
        let name = match dir_path.name() {
            Some(n) => n,
            None => return ROOT_INODE,
        };
        match self.cache.get(&parent) {
            Some(dir) => match dir.get(name) {
                Some(cn) => cn.inode,
                None => ROOT_INODE,
            },
            None => ROOT_INODE,
        }
    }

    /// Process the events the providers emitted: each is applied to the
    /// caches and told to the kernel, in order. Events only ever drop
    /// entries (never add or change one) and leave the inode table alone.
    pub fn process_events(&mut self)
        requires
            old(self).wf(),
        ensures
            final(self).wf(),
            final(self).inodes == old(self).inodes,
            final(self).registry == old(self).registry,
            final(self).real_fs == old(self).real_fs,
            final(self).path_filter == old(self).path_filter,
            final(self).kernel_notifier == old(self).kernel_notifier,
            final(self).in_fs_change_notify == old(self).in_fs_change_notify,
            final(self).content_cache.gens() == old(self).content_cache.gens(),
            entries_shrunk(old(self).cache.view(), final(self).cache.view()),
            exists|vs: Seq<Map<Seq<char>, DirState>>, evs: Seq<InvalidationEvent>| #[trigger] events_chain(vs, evs)
                && vs[0] == old(self).cache.view() && vs.last() == final(self).cache.view(),
    {
        let notifier = self.kernel_notifier.take();
        let events = self.events.drain();
        let ghost v0 = self.cache.view();
        let ghost mut vs: Seq<Map<Seq<char>, DirState>> = seq![v0];
        let n = events.len();
        let mut i: usize = 0;
        while i < n
            invariant
                n == events@.len(),
                i <= n,
                self.wf(),
                self.inodes == old(self).inodes,
                self.registry == old(self).registry,
                self.real_fs == old(self).real_fs,
                self.path_filter == old(self).path_filter,
                self.kernel_notifier is None,
                self.in_fs_change_notify == old(self).in_fs_change_notify,
                self.content_cache.gens() == old(self).content_cache.gens(),
                v0 == old(self).cache.view(),
                entries_shrunk(v0, self.cache.view()),
                events_chain(vs, events@.subrange(0, i as int)),
                vs[0] == v0,
                vs.last() == self.cache.view(),
            decreases n - i,
        {
            let ghost before = self.cache.view();
            self.process_invalidation_event(&events[i], notifier.as_ref());
            proof {
                let sub = events@.subrange(0, i + 1);
                let vs0 = vs;
                assert(event_effect(before, self.cache.view(), events@[i as int]));
                vs = vs.push(self.cache.view());
                assert forall|j: int| #![trigger sub[j]] 0 <= j < sub.len() implies event_effect(vs[j], vs[j + 1], sub[j]) by {
                    if j < i {
                        assert(sub[j] == events@.subrange(0, i as int)[j]);
                        assert(vs[j] == vs0[j] && vs[j + 1] == vs0[j + 1]);
                    } else {
                        assert(sub[j] == events@[i as int]);
                        assert(vs[j] == vs0.last());
                    }
                }
                let after = self.cache.view();
                assert(entries_shrunk(before, after)) by {
                    assert forall|k: Seq<char>, m: Seq<char>| #[trigger] after.contains_key(k) && #[trigger] after[k]@.entries.contains_key(m)
                        implies before.contains_key(k) && before[k]@.entries.contains_key(m) && after[k]@.entries[m] == before[k]@.entries[m] by {
                        assert(before.contains_key(k));
                    }
                }
                lemma_entries_shrunk_trans(v0, before, after);
            }
            i = i + 1;
        }
        self.kernel_notifier = notifier;
        assert(events_chain(vs, events@.subrange(0, n as int)));
    }

    /// A change of the skippable real path `path` (gitignored or inside
    /// the git directory): only its entry is evicted from its parent's
    /// cache, and the kernel told to forget it.
    pub fn handle_skippable_change<K: KernelNotifier>(&mut self, path: &VfsPath, notifier: Option<&K>)
        requires
            old(self).wf(),
        ensures
            final(self).wf(),
            same_services(*old(self), *final(self)),
            final(self).inodes == old(self).inodes,
            final(self).content_cache == old(self).content_cache,
            path@.len() == 0 ==> final(self).cache == old(self).cache,
            path@.len() > 0 ==> {
                let pk = join_segments(path@.drop_last());
                let v0 = old(self).cache.view();
                let v1 = final(self).cache.view();
                &&& v1.dom() == v0.dom()
                &&& v0.contains_key(pk) ==> v1[pk]@ == (crate::cache::DirView {
                    entries: v0[pk]@.entries.remove(path@.last()),
                    ..v0[pk]@
                })
                &&& forall|k: Seq<char>| k != pk && #[trigger] v0.contains_key(k) ==> v1[k] == v0[k]
                &&& !v0.contains_key(pk) ==> v1 == v0
            },
    {
        let parent = match path.parent() {
            Some(p) => p,
            None => return,
        };
        let name = match path.name() {
            Some(n) => n,
            None => return,
        };
        self.cache.remove_entry(&parent, name);
        match notifier {
            Some(n) => n.inval_entry(self.parent_inode_for_dir(&parent), name),
            None => {},
        }
    }

    /// A change of the tracked real path `path`: everything cached at or
    /// below it is invalidated (structure, content and kernel caches), and
    /// its parent directory is marked for re-resolution so that it picks
    /// up the new or deleted entry.
    pub fn handle_non_skippable_change<K: KernelNotifier>(&mut self, path: &VfsPath, notifier: Option<&K>)
        requires
            old(self).wf(),
        ensures
            final(self).wf(),
            same_services(*old(self), *final(self)),
            final(self).inodes == old(self).inodes,
            final(self).content_cache.gens() == old(self).content_cache.gens(),
            final(self).content_cache.contents() == old(self).content_cache.contents().remove_keys(
                inodes_under(old(self).cache.view(), join_segments(path@))),
            final(self).cache.view().dom() == old(self).cache.view().dom(),
            forall|k: Seq<char>| #[trigger] old(self).cache.view().contains_key(k) ==> final(self).cache.view()[k]@ ==
                if under(k, join_segments(path@)) || (path@.len() > 0 && k == join_segments(path@.drop_last())) {
                    unresolved(old(self).cache.view()[k]@)
                } else {
                    old(self).cache.view()[k]@
                },
    {
        let event = InvalidationEvent::Subtree { path: path.duplicate() };
        self.process_invalidation_event(&event, notifier);
        let parent = match path.parent() {
            Some(p) => p,
            None => return,
        };
        self.invalidate_dir(&parent);
        match notifier {
            Some(n) => match path.name() {
                Some(name) => n.inval_entry(self.parent_inode_for_dir(&parent), name),
                None => {},
            },
            None => {},
        }
    }

    /// Handle changes of real paths reported by the watcher: each changed
    /// file's generation advances (making content derived from it stale);
    /// a skippable path only loses its cache entry, any other path has its
    /// subtree invalidated and its parent re-resolved; then, unless this
    /// runs inside a provider's own change handling, every provider is told
    /// of the changes and the invalidation events it returns are applied.
    pub fn handle_fs_changes(&mut self, changed: &[VfsPath])
        requires
            old(self).wf(),
            forall|k: Seq<char>| generation_of(old(self).content_cache.gens(), k) + changed@.len() < u64::MAX,
        ensures
            final(self).wf(),
            final(self).inodes == old(self).inodes,
            final(self).registry == old(self).registry,
            final(self).path_filter == old(self).path_filter,
            final(self).kernel_notifier == old(self).kernel_notifier,
            final(self).in_fs_change_notify == old(self).in_fs_change_notify,
            final(self).cache.view().dom() == old(self).cache.view().dom(),
            forall|k: Seq<char>| generation_of(final(self).content_cache.gens(), k) >= generation_of(old(self).content_cache.gens(), k),
            forall|i: int| 0 <= i < changed@.len() ==> generation_of(final(self).content_cache.gens(), join_segments(#[trigger] changed@[i]@))
                > generation_of(old(self).content_cache.gens(), join_segments(changed@[i]@)),
    {
        let notifier = self.kernel_notifier.take();
        let ghost g0 = self.content_cache.gens();
        let n = changed.len();
        let mut i: usize = 0;
        while i < n
            invariant
                n == changed@.len(),
                i <= n,
                self.wf(),
                self.inodes == old(self).inodes,
                self.registry == old(self).registry,
                self.path_filter == old(self).path_filter,
                self.kernel_notifier is None,
                self.in_fs_change_notify == old(self).in_fs_change_notify,
                self.cache.view().dom() == old(self).cache.view().dom(),
                g0 == old(self).content_cache.gens(),
                forall|k: Seq<char>| generation_of(g0, k) + changed@.len() < u64::MAX,
                forall|k: Seq<char>| generation_of(self.content_cache.gens(), k) >= generation_of(g0, k),
                forall|k: Seq<char>| generation_of(self.content_cache.gens(), k) <= generation_of(g0, k) + i,
                forall|j: int| 0 <= j < i ==> generation_of(self.content_cache.gens(), join_segments(#[trigger] changed@[j]@))
                    > generation_of(g0, join_segments(changed@[j]@)),
            decreases n - i,
        {
            let path = &changed[i];
            let ghost before = self.content_cache.gens();
            let ghost key = join_segments(path@);
            assert(generation_of(before, key) <= generation_of(g0, key) + i);
            assert(generation_of(g0, key) + changed@.len() < u64::MAX);
            assert(generation_of(before, key) < u64::MAX);
            self.content_cache.bump_file_generation(path);
            proof {
                let after = self.content_cache.gens();
                assert forall|k: Seq<char>| generation_of(after, k) >= generation_of(g0, k)
                    && generation_of(after, k) <= generation_of(g0, k) + i + 1 by {
                    if k != key {
                        assert(generation_of(after, k) == generation_of(before, k));
                    }
                }
                assert forall|j: int| 0 <= j < i + 1 implies generation_of(after, join_segments(#[trigger] changed@[j]@))
                    > generation_of(g0, join_segments(changed@[j]@)) by {
                    let kj = join_segments(changed@[j]@);
                    if kj != key {
                        assert(generation_of(after, kj) == generation_of(before, kj));
                    }
                }
            }
            if self.path_filter.is_skippable(path) {
                self.handle_skippable_change(path, notifier.as_ref());
            } else {
                self.handle_non_skippable_change(path, notifier.as_ref());
            }
            i = i + 1;
        }
        if self.in_fs_change_notify {
            self.kernel_notifier = notifier;
            return;
        }
        let mut events: Vec<InvalidationEvent> = Vec::new();
        let providers = self.registry.active_providers();
        let m = providers.len();
        let mut j: usize = 0;
        while j < m
            invariant
                m == providers@.len(),
                j <= m,
            decreases m - j,
        {
            let mut more = providers[j].on_fs_change(changed);
            events.append(&mut more);
            j = j + 1;
        }
        self.in_fs_change_notify = true;
        let e = events.len();
        let mut k: usize = 0;
        while k < e
            invariant
                e == events@.len(),
                k <= e,
                self.wf(),
                self.inodes == old(self).inodes,
                self.registry == old(self).registry,
                self.path_filter == old(self).path_filter,
                self.kernel_notifier is None,
                self.cache.view().dom() == old(self).cache.view().dom(),
                g0 == old(self).content_cache.gens(),
                forall|q: Seq<char>| generation_of(self.content_cache.gens(), q) >= generation_of(g0, q),
                forall|q: int| 0 <= q < changed@.len() ==> generation_of(self.content_cache.gens(), join_segments(#[trigger] changed@[q]@))
                    > generation_of(g0, join_segments(changed@[q]@)),
            decreases e - k,
        {
            self.process_invalidation_event(&events[k], notifier.as_ref());
            k = k + 1;
        }
        self.in_fs_change_notify = false;
        self.kernel_notifier = notifier;
    }

    /// Record the outcome of resolving the directory `path`: a new resolve
    /// cycle begins, the surviving virtual nodes and then the real entries
    /// not in `shadowed` are inserted (the directory takes the first source
    /// stamp among the virtual nodes), entries of earlier cycles that were
    /// not refreshed are swept, and the content of swept inodes is dropped.
    pub fn populate_directory(&mut self, path: &VfsPath, virtual_nodes: Vec<OwnedNode>, real_entries: Vec<RealDirEntry>, shadowed: &[&str])
        requires
            old(self).wf(),
            old(self).cache.view().contains_key(join_segments(path@)) ==> old(self).cache.view()[join_segments(path@)]@.generation < u64::MAX,
        ensures
            final(self).wf(),
            same_services(*old(self), *final(self)),
            ({
                let key = join_segments(path@);
                let od = if old(self).cache.view().contains_key(key) { old(self).cache.view()[key]@ } else { fresh_dir() };
                let es = virtual_entry_views(virtual_nodes@) + real_entry_views(real_entries@, name_set(shadowed@));
                &&& final(self).cache.view().dom() == old(self).cache.view().dom().insert(key)
                &&& forall|k: Seq<char>| k != key && #[trigger] old(self).cache.view().contains_key(k)
                    ==> final(self).cache.view()[k] == old(self).cache.view()[k]
                &&& resolve_cycle(od, final(self).cache.view()[key]@, es, first_source(virtual_nodes@),
                    old(self).inodes.view(), final(self).inodes.view(), path@, dir_parent_inode(old(self).cache.view(), path@))
                &&& final(self).content_cache.gens() == old(self).content_cache.gens()
                &&& final(self).content_cache.contents() == old(self).content_cache.contents().remove_keys(
                    swept_inodes(od, es, (od.generation + 1) as u64))
            }),
    {
        let ghost key = join_segments(path@);
        let ghost view0 = self.cache.view();
        let ghost od = if view0.contains_key(key) { view0[key]@ } else { fresh_dir() };
        let parent = self.parent_inode_for_dir(path);
        let (entries, dir_source) = resolve_entries(virtual_nodes, real_entries, shadowed);
        let ghost es = entry_views(entries@);
        let mut dir = self.cache.take_dir(path);
        dir.begin_resolve();
        let ghost d0 = dir@;
        let ghost i0 = self.inodes.view();
        insert_entries(&mut dir, path, entries, &mut self.inodes, parent);
        let ghost d1 = dir@;
        match dir_source {
            Some((f, g)) => dir.set_source_generation(f, g),
            None => {},
        }
        let ghost d2 = dir@;
        let g = dir.resolve_generation();
        let swept = dir.sweep_stale_resolve(g);
        let ghost fd = dir@;
        self.cache.put_dir(path, dir);
        invalidate_all_of(&mut self.content_cache, &swept);
        proof {
            assert(g == od.generation + 1);
            assert(d2.entries == d1.entries);
            assert(fd.entries == swept_map(d1.entries, g));
            lemma_real_entries_children(real_entries@, name_set(shadowed@));
            assert forall|i: int| 0 <= i < es.len() implies (#[trigger] es[i]).2 == NodeSource::Children by {
                let v = virtual_entry_views(virtual_nodes@);
                if i >= v.len() {
                    assert(es[i] == real_entry_views(real_entries@, name_set(shadowed@))[i - v.len()]);
                }
            }
            assert forall|k: Seq<char>| #[trigger] last_named(es, k) is Some implies d1.entries.contains_key(k)
                && survives_sweep(d1.entries[k], g) by {
                assert(last_named(es, k)->Some_0.1 == NodeSource::Children) by {
                    lemma_last_named_children(es, k);
                }
            }
            assert forall|k: Seq<char>| #[trigger] fd.entries.contains_key(k) <==> (last_named(es, k) is Some
                || (od.entries.contains_key(k) && survives_sweep(od.entries[k], g))) by {
                if od.entries.contains_key(k) && last_named(es, k) is None {
                    assert(d1.entries[k] == od.entries[k]);
                }
            }
            let ks = choose|ks: Seq<Seq<char>>|
                ks.no_duplicates()
                && (forall|k: Seq<char>| #[trigger] ks.contains(k) <==> (d2.entries.contains_key(k)
                    && !survives_sweep(d2.entries[k], g)))
                && swept@ == ks.map_values(|k: Seq<char>| d2.entries[k].inode);
            assert(swept@.to_set() =~= swept_inodes(od, es, g)) by {
                assert forall|ino: u64| #[trigger] swept@.to_set().contains(ino) implies swept_inodes(od, es, g).contains(ino) by {
                    let a = choose|a: int| 0 <= a < swept@.len() && swept@[a] == ino;
                    let k = ks[a];
                    assert(ks.contains(k));
                    if last_named(es, k) is Some {
                        assert(survives_sweep(d1.entries[k], g));
                    }
                    assert(od.entries.contains_key(k));
                    assert(d1.entries[k] == od.entries[k]);
                }
                assert forall|ino: u64| #[trigger] swept_inodes(od, es, g).contains(ino) implies swept@.to_set().contains(ino) by {
                    let k = choose|k: Seq<char>| #[trigger] od.entries.contains_key(k) && last_named(es, k) is None
                        && !survives_sweep(od.entries[k], g) && od.entries[k].inode == ino;
                    assert(d1.entries[k] == od.entries[k]);
                    assert(ks.contains(k));
                    let a = choose|a: int| 0 <= a < ks.len() && ks[a] == k;
                    assert(swept@[a] == ino);
                }
            }
            assert(self.cache.view().dom() =~= view0.dom().insert(key));
        }
    }

    /// Mark the directory `path` for re-resolution.
    pub fn invalidate_dir(&mut self, path: &VfsPath)
        requires
            old(self).wf(),
        ensures
            final(self).wf(),
            same_services(*old(self), *final(self)),
            final(self).inodes == old(self).inodes,
            final(self).content_cache == old(self).content_cache,
            final(self).cache.view().dom() == old(self).cache.view().dom(),
            forall|k: Seq<char>| #[trigger] old(self).cache.view().contains_key(k) ==> final(self).cache.view()[k]@ ==
                if k == join_segments(path@) { unresolved(old(self).cache.view()[k]@) } else { old(self).cache.view()[k]@ },
    {
        self.cache.invalidate_dir(path);
    }

    /// Invalidate everything at or below `path`: the content of every
    /// entry there is dropped, and every directory there is marked for
    /// re-resolution.
    pub fn invalidate_subtree(&mut self, path: &VfsPath)
        requires
            old(self).wf(),
        ensures
            final(self).wf(),
            same_services(*old(self), *final(self)),
            final(self).inodes == old(self).inodes,
            final(self).content_cache.gens() == old(self).content_cache.gens(),
            final(self).content_cache.contents() == old(self).content_cache.contents().remove_keys(
                inodes_under(old(self).cache.view(), join_segments(path@))),
            final(self).cache.view().dom() == old(self).cache.view().dom(),
            forall|k: Seq<char>| #[trigger] old(self).cache.view().contains_key(k) ==> final(self).cache.view()[k]@ ==
                if under(k, join_segments(path@)) { unresolved(old(self).cache.view()[k]@) } else { old(self).cache.view()[k]@ },
    {
        let inodes = self.cache.collect_inodes_under(path);
        let ghost p = join_segments(path@);
        let ghost view = self.cache.view();
        let ghost es = choose|es: Seq<(Seq<char>, Seq<char>, u64)>|
            #![trigger es.len()]
            es.len() == inodes@.len()
            && (forall|a: int, b: int| 0 <= a < b < es.len() ==> (#[trigger] es[a]).0 != (#[trigger] es[b]).0 || es[a].1 != es[b].1)
            && (forall|a: int| 0 <= a < es.len() ==> under((#[trigger] es[a]).0, p)
                && view.contains_key(es[a].0)
                && view[es[a].0]@.entries.contains_key(es[a].1)
                && inodes@[a] == view[es[a].0]@.entries[es[a].1].inode)
            && (forall|d: Seq<char>, m: Seq<char>| under(d, p) && #[trigger] view.contains_key(d)
                && #[trigger] view[d]@.entries.contains_key(m)
                ==> exists|a: int| 0 <= a < es.len() && (#[trigger] es[a]).0 == d && es[a].1 == m);
        proof {
            assert(inodes@.to_set() =~= inodes_under(view, p)) by {
                assert forall|ino: u64| #[trigger] inodes@.to_set().contains(ino) implies inodes_under(view, p).contains(ino) by {
                    let a = choose|a: int| 0 <= a < inodes@.len() && inodes@[a] == ino;
                    assert(under(es[a].0, p));
                    assert(view.contains_key(es[a].0) && view[es[a].0]@.entries.contains_key(es[a].1));
                }
                assert forall|ino: u64| #[trigger] inodes_under(view, p).contains(ino) implies inodes@.to_set().contains(ino) by {
                    let (d, m) = choose|d: Seq<char>, m: Seq<char>| under(d, p) && #[trigger] view.contains_key(d)
                        && #[trigger] view[d]@.entries.contains_key(m) && view[d]@.entries[m].inode == ino;
                    let a = choose|a: int| 0 <= a < es.len() && (#[trigger] es[a]).0 == d && es[a].1 == m;
                    assert(inodes@[a] == ino);
                }
            }
        }
        let ghost start = self.content_cache.contents();
        let n = inodes.len();
        let mut i: usize = 0;
        while i < n
            invariant
                n == inodes@.len(),
                i <= n,
                self.content_cache.wf(),
                self.cache == old(self).cache,
                same_services(*old(self), *self),
                self.inodes == old(self).inodes,
                self.cache.wf(),
                view == old(self).cache.view(),
                start == old(self).content_cache.contents(),
                inodes@.to_set() == inodes_under(view, p),
                p == join_segments(path@),
                self.content_cache.gens() == old(self).content_cache.gens(),
                self.content_cache.contents() == start.remove_keys(inodes@.subrange(0, i as int).to_set()),
            decreases n - i,
        {
            self.content_cache.invalidate(inodes[i]);
            proof {
                assert(inodes@.subrange(0, i + 1).to_set() =~= inodes@.subrange(0, i as int).to_set().insert(inodes@[i as int])) by {
                    assert forall|x: u64| inodes@.subrange(0, i + 1).to_set().contains(x) implies
                        inodes@.subrange(0, i as int).to_set().insert(inodes@[i as int]).contains(x) by {
                        let a = choose|a: int| 0 <= a < i + 1 && #[trigger] inodes@.subrange(0, i + 1)[a] == x;
                        if a < i {
                            assert(inodes@.subrange(0, i as int)[a] == x);
                        }
                    }
                    assert forall|x: u64| inodes@.subrange(0, i as int).to_set().insert(inodes@[i as int]).contains(x) implies
                        inodes@.subrange(0, i + 1).to_set().contains(x) by {
                        if x == inodes@[i as int] {
                            assert(inodes@.subrange(0, i + 1)[i as int] == x);
                        } else {
                            let a = choose|a: int| 0 <= a < i && #[trigger] inodes@.subrange(0, i as int)[a] == x;
                            assert(inodes@.subrange(0, i + 1)[a] == x);
                        }
                    }
                }
                assert(self.content_cache.contents() =~= start.remove_keys(inodes@.subrange(0, i + 1).to_set()));
            }
            i = i + 1;
        }
        assert(inodes@.subrange(0, n as int) =~= inodes@);
        self.cache.invalidate_subtree(path);
    }

    /// Drop everything of the provider `provider_id` from both caches.
    pub fn invalidate_provider(&mut self, provider_id: ProviderId)
        requires
            old(self).wf(),
        ensures
            final(self).wf(),
            same_services(*old(self), *final(self)),
            final(self).inodes == old(self).inodes,
            final(self).content_cache.gens() == old(self).content_cache.gens(),
            final(self).content_cache.contents() == Map::new(
                |k: u64| old(self).content_cache.contents().contains_key(k)
                    && old(self).content_cache.contents()[k].provider_id@ != provider_id@,
                |k: u64| old(self).content_cache.contents()[k],
            ),
            final(self).cache.view().dom() == old(self).cache.view().dom(),
            forall|k: Seq<char>| #[trigger] old(self).cache.view().contains_key(k) ==> final(self).cache.view()[k]@ ==
                without_provider_dir(old(self).cache.view()[k]@, provider_id@),
    {
        self.content_cache.invalidate_provider(provider_id);
        self.cache.invalidate_provider(provider_id);
    }

    /// Clear both caches.
    pub fn invalidate_all(&mut self)
        requires
            old(self).wf(),
        ensures
            final(self).wf(),
            same_services(*old(self), *final(self)),
            final(self).inodes == old(self).inodes,
            final(self).content_cache.gens() == old(self).content_cache.gens(),
            final(self).content_cache.contents() == Map::<u64, crate::content_cache::ContentEntry>::empty(),
            final(self).cache.view() == Map::<Seq<char>, DirState>::empty(),
    {
        self.content_cache.clear();
        self.cache.clear();
    }

    /// Drop the content of the node `vpath` and tell the kernel, when its
    /// directory and entry are cached; otherwise do nothing.
    pub fn invalidate_node<K: KernelNotifier>(&mut self, vpath: &VfsPath, notifier: Option<&K>)
        requires
            old(self).wf(),
        ensures
            final(self).wf(),
            same_services(*old(self), *final(self)),
            final(self).inodes == old(self).inodes,
            final(self).cache == old(self).cache,
            final(self).content_cache.gens() == old(self).content_cache.gens(),
            vpath@.len() > 0 && old(self).cache.view().contains_key(join_segments(vpath@.drop_last()))
                && old(self).cache.view()[join_segments(vpath@.drop_last())]@.entries.contains_key(vpath@.last())
                ==> final(self).content_cache.contents() == old(self).content_cache.contents().remove(
                    old(self).cache.view()[join_segments(vpath@.drop_last())]@.entries[vpath@.last()].inode),
            !(vpath@.len() > 0 && old(self).cache.view().contains_key(join_segments(vpath@.drop_last()))
                && old(self).cache.view()[join_segments(vpath@.drop_last())]@.entries.contains_key(vpath@.last()))
                ==> final(self).content_cache.contents() == old(self).content_cache.contents(),
    {
        let parent = match vpath.parent() {
            Some(p) => p,
            None => return,
        };
        let name = match vpath.name() {
            Some(n) => n,
            None => return,
        };
        let inode = match self.cache.get(&parent) {
            Some(dir) => match dir.get(name) {
                Some(cn) => cn.inode,
                None => return,
            },
            None => return,
        };
        self.content_cache.invalidate(inode);
        match notifier {
            Some(n) => n.inval_inode(inode),
            None => {},
        }
    }

    /// Invalidate a subtree and ask the kernel to drop the entries and
    /// directory listings it cached for it.
    pub fn invalidate_subtree_with_notify<K: KernelNotifier>(&mut self, path: &VfsPath, notifier: Option<&K>)
        requires
            old(self).wf(),
        ensures
            final(self).wf(),
            same_services(*old(self), *final(self)),
            final(self).inodes == old(self).inodes,
            final(self).content_cache.gens() == old(self).content_cache.gens(),
            final(self).content_cache.contents() == old(self).content_cache.contents().remove_keys(
                inodes_under(old(self).cache.view(), join_segments(path@))),
            final(self).cache.view().dom() == old(self).cache.view().dom(),
            forall|k: Seq<char>| #[trigger] old(self).cache.view().contains_key(k) ==> final(self).cache.view()[k]@ ==
                if under(k, join_segments(path@)) { unresolved(old(self).cache.view()[k]@) } else { old(self).cache.view()[k]@ },
    {
        let affected = self.cache.entries_under(path);
        let dirs = self.cache.keys_under(path);
        let mut parents: Vec<u64> = Vec::new();
        let mut i: usize = 0;
        while i < affected.len()
            invariant
                self.wf(),
                i <= affected@.len(),
            decreases affected@.len() - i,
        {
            let inode = match VfsPath::new(affected[i].0.as_str()) {
                Ok(d) => self.parent_inode_for_dir(&d),
                Err(_) => ROOT_INODE,
            };
            parents.push(inode);
            i = i + 1;
        }
        let mut dir_inodes: Vec<u64> = Vec::new();
        let mut j: usize = 0;
        while j < dirs.len()
            invariant
                self.wf(),
                j <= dirs@.len(),
            decreases dirs@.len() - j,
        {
            let inode = match VfsPath::new(dirs[j].as_str()) {
                Ok(d) => self.parent_inode_for_dir(&d),
                Err(_) => ROOT_INODE,
            };
            dir_inodes.push(inode);
            j = j + 1;
        }
        self.invalidate_subtree(path);
        let n = match notifier {
            Some(n) => n,
            None => return,
        };
        let mut k: usize = 0;
        while k < parents.len() && k < affected.len()
            decreases parents@.len() - k,
        {
            n.inval_entry(parents[k], affected[k].1.as_str());
            k = k + 1;
        }
        let mut q: usize = 0;
        while q < dir_inodes.len()
            decreases dir_inodes@.len() - q,
        {
            n.inval_inode(dir_inodes[q]);
            q = q + 1;
        }
    }

    /// Apply one invalidation event to the caches, notifying the kernel
    /// where the event names nodes.
    pub fn process_invalidation_event<K: KernelNotifier>(&mut self, event: &InvalidationEvent, notifier: Option<&K>)
        requires
            old(self).wf(),
        ensures
            final(self).wf(),
            same_services(*old(self), *final(self)),
            final(self).inodes == old(self).inodes,
            final(self).content_cache.gens() == old(self).content_cache.gens(),
            match event {
                InvalidationEvent::Subtree { path } => final(self).content_cache.contents()
                    == old(self).content_cache.contents().remove_keys(inodes_under(old(self).cache.view(), join_segments(path@)))
                    && (forall|k: Seq<char>| #[trigger] old(self).cache.view().contains_key(k) ==> final(self).cache.view()[k]@ ==
                        if under(k, join_segments(path@)) { unresolved(old(self).cache.view()[k]@) } else { old(self).cache.view()[k]@ })
                    && final(self).cache.view().dom() == old(self).cache.view().dom(),
                InvalidationEvent::Provider { provider_id } => final(self).cache.view().dom() == old(self).cache.view().dom()
                    && (forall|k: Seq<char>| #[trigger] old(self).cache.view().contains_key(k) ==> final(self).cache.view()[k]@ ==
                        without_provider_dir(old(self).cache.view()[k]@, provider_id@)),
                InvalidationEvent::Node { .. } => final(self).cache == old(self).cache,
            },
    {
        match event {
            InvalidationEvent::Node { vpath, .. } => self.invalidate_node(vpath, notifier),
            InvalidationEvent::Subtree { path } => self.invalidate_subtree_with_notify(path, notifier),
            InvalidationEvent::Provider { provider_id } => self.invalidate_provider(*provider_id),
        }
    }
}

/// Inodes are stable across a resolve cycle: every name cached before and
/// after keeps its inode.
pub proof fn law_resolve_keeps_inodes(
    od: DirView,
    fd: DirView,
    es: Seq<(Seq<char>, CachedNodeKind, NodeSource)>,
    src: Option<(Seq<Seq<char>>, u64)>,
    inodes0: Map<u64, InodeEntry>,
    inodes1: Map<u64, InodeEntry>,
    dir_path: Seq<Seq<char>>,
    parent: u64,
    k: Seq<char>,
)
    requires
        resolve_cycle(od, fd, es, src, inodes0, inodes1, dir_path, parent),
        od.entries.contains_key(k),
        fd.entries.contains_key(k),
    ensures
        fd.entries[k].inode == od.entries[k].inode,
{
    if last_named(es, k) is None {
        assert(survives_sweep(od.entries[k], (od.generation + 1) as u64));
    }
}

/// A resolve cycle never drops an entry that came from a lookup or a
/// mutation: such entries persist until explicitly invalidated.
pub proof fn law_resolve_keeps_lookups(
    od: DirView,
    fd: DirView,
    es: Seq<(Seq<char>, CachedNodeKind, NodeSource)>,
    src: Option<(Seq<Seq<char>>, u64)>,
    inodes0: Map<u64, InodeEntry>,
    inodes1: Map<u64, InodeEntry>,
    dir_path: Seq<Seq<char>>,
    parent: u64,
    k: Seq<char>,
)
    requires
        resolve_cycle(od, fd, es, src, inodes0, inodes1, dir_path, parent),
        od.entries.contains_key(k),
        !od.entries[k].source.stamped(),
    ensures
        fd.entries.contains_key(k),
        last_named(es, k) is None ==> fd.entries[k] == od.entries[k],
{
    assert(survives_sweep(od.entries[k], (od.generation + 1) as u64));
}

} // verus!

//! Directory resolution and name lookup: the router asks the providers,
//! negotiates their conflicts, merges in the real entries and records the
//! outcome in its caches.

use vstd::prelude::*;
use vstd::string::*;
use crate::cache::{fresh_dir, visible, CachedNodeKind, DirState, DirView, NodeEntry, NodeSource, ProcessVisibility};
use crate::content_cache::generation_of;
use crate::err::{handler_failure, invalid_path, io_err, DispatchError, ErrorKind};
use crate::events::{EventSink, KernelNotifier};
use crate::node::{CachePolicy, FileKind, NodeView, VirtualNode};
use crate::path::{join_segments, lemma_child_text_longer, valid_segment, VfsPath};
use crate::provider::ProviderId;
use crate::real_fs::{RealDirEntry, RealFs};
use crate::registry::Provider;
use crate::resolve::{
    collides, gathered, id_views, last_failure, named, named_outside, name_set, owned_view, owned_views,
    lemma_named_absent, providers_naming, succeeded,
    collect_conflict_responses, detect_collisions, first_claim_of, gather_children, resolve_competing_claims,
    settle_real_conflict, split_real_conflicts, ClaimError, ConflictAnswer, ConflictInfo, ChildrenResult,
    OwnedNode,
};
use crate::router::{dir_parent_inode, first_source, insert_node, last_named, real_entry_views, virtual_entry_views, law_resolve_keeps_inodes, resolve_cycle, same_services, stamp, InodeEntry, ResolvedInode, Router};
use crate::routing::ctx::RequestContext;
use crate::routing::tree::nodes_view;
use crate::path_filter::{consulted, decided, PathFilter, Verdict};

verus! {

/// Whether the source file of directory `d` has advanced past the
/// generation recorded for it.
pub open spec fn source_stale(d: DirView, gens: Map<Seq<char>, u64>) -> bool {
    match d.source {
        Some((p, g)) => generation_of(gens, join_segments(p@)) > g,
        None => false,
    }
}

/// A directory that needs no resolution: cached, resolved, not
/// re-resolved on every access, and not stale.
pub open spec fn fresh_in(view: Map<Seq<char>, DirState>, key: Seq<char>, gens: Map<Seq<char>, u64>) -> bool {
    view.contains_key(key) && view[key]@.resolved && !view[key]@.no_cache && !source_stale(view[key]@, gens)
}

/// A fresh directory was resolved, is cached across accesses, and its
/// source file has not changed since it was resolved: the generation of
/// that file now is at most the one recorded when it was resolved. So a
/// directory derived from a file that has since changed is never fresh.
pub proof fn law_fresh_means_source_unchanged(view: Map<Seq<char>, DirState>, key: Seq<char>, gens: Map<Seq<char>, u64>)
    requires
        fresh_in(view, key, gens),
    ensures
        view.contains_key(key),
        view[key]@.resolved,
        !view[key]@.no_cache,
        view[key]@.source matches Some((p, g)) ==> generation_of(gens, join_segments(p@)) <= g,
{
}

/// A directory recorded from a source file at generation `g` stops being
/// fresh once that file's generation passes `g`.
pub proof fn law_changed_source_is_stale(view: Map<Seq<char>, DirState>, key: Seq<char>, gens: Map<Seq<char>, u64>, p: VfsPath, g: u64)
    requires
        view.contains_key(key),
        view[key]@.source == Some((p, g)),
        generation_of(gens, join_segments(p@)) > g,
    ensures
        !fresh_in(view, key, gens),
{
}

/// Which provider operation a single-claim dispatch calls.
#[derive(Debug, Clone, Copy, PartialEq, Eq, Structural)]
pub enum ClaimOp {
    Lookup,
    Create,
    Mkdir,
}

/// The text of a sequence of string slices' names.
fn names_of(nodes: &Vec<(String, Vec<ProviderId>)>) -> (r: Vec<&str>)
    ensures
        r@.len() == nodes@.len(),
        forall|i: int| 0 <= i < r@.len() ==> (#[trigger] r@[i])@ == nodes@[i].0@,
{
    let mut out: Vec<&str> = Vec::new();
    let n = nodes.len();
    let mut i: usize = 0;
    while i < n
        invariant
            n == nodes@.len(),
            i <= n,
            out@.len() == i,
            forall|j: int| 0 <= j < i ==> (#[trigger] out@[j])@ == nodes@[j].0@,
        decreases n - i,
    {
        out.push(nodes[i].0.as_str());
        i = i + 1;
    }
    out
}

/// The first node of a group that collided on one name: nodes carry no
/// capabilities here, so merging the group leaves its first node.
pub fn merge_collision_group(group: Vec<OwnedNode>) -> (r: OwnedNode)
    requires
        group@.len() > 0,
    ensures
        r == group@[0],
{
    let mut group = group;
    group.remove(0)
}

/// The names that two providers both emitted among `g`.
pub open spec fn collided_names(g: Seq<(Seq<char>, NodeView)>) -> Set<Seq<char>> {
    Set::new(|k: Seq<char>| collides(g, k))
}

/// The providers' listings composed into one: when they succeeded (or
/// none failed), the nodes no two providers share a name with, in order,
/// followed by one node for each name two providers emitted (the first
/// emitted under it), each such name once; otherwise the last failure.
pub open spec fn composed_ok(g: Seq<(Seq<char>, NodeView)>, v: Seq<OwnedNode>) -> bool {
    let cs = collided_names(g);
    let head = named_outside(g, cs);
    &&& head.len() <= v.len()
    &&& owned_views(v).subrange(0, head.len() as int) == head
    &&& forall|i: int| head.len() <= i < v.len() ==> cs.contains((#[trigger] v[i]).node@.name)
        && owned_view(v[i]) == named(g, v[i].node@.name)[0]
    &&& forall|i: int, j: int| head.len() <= i < j < v.len() ==> (#[trigger] v[i]).node@.name != (#[trigger] v[j]).node@.name
    &&& forall|k: Seq<char>| cs.contains(k) ==> exists|i: int| head.len() <= i < v.len() && (#[trigger] v[i]).node@.name == k
}

/// Nothing is left out by an empty set of names.
proof fn lemma_named_outside_none(ov: Seq<(Seq<char>, NodeView)>)
    ensures
        named_outside(ov, Set::empty()) == ov,
    decreases ov.len(),
{
    if ov.len() > 0 {
        lemma_named_outside_none(ov.drop_last());
        assert(ov.drop_last().push(ov.last()) =~= ov);
    }
}

/// The nodes named `k` are named `k`.
proof fn lemma_named_all(ov: Seq<(Seq<char>, NodeView)>, k: Seq<char>)
    ensures
        forall|i: int| 0 <= i < named(ov, k).len() ==> (#[trigger] named(ov, k)[i]).1.name == k,
    decreases ov.len(),
{
    if ov.len() > 0 {
        lemma_named_all(ov.drop_last(), k);
    }
}

/// A name detected as emitted by two or more providers collides.
proof fn lemma_detected_collides(g: Seq<(Seq<char>, NodeView)>, k: Seq<char>, ids: Seq<ProviderId>)
    requires
        id_views(ids).no_duplicates(),
        id_views(ids).to_set() == providers_naming(g, k),
        ids.len() >= 2,
    ensures
        collides(g, k),
{
    let a = id_views(ids)[0];
    let b = id_views(ids)[1];
    assert(id_views(ids).to_set().contains(a));
    assert(id_views(ids).to_set().contains(b));
    let i = choose|i: int| 0 <= i < g.len() && (#[trigger] g[i]).1.name == k && g[i].0 == a;
    let j = choose|j: int| 0 <= j < g.len() && (#[trigger] g[j]).1.name == k && g[j].0 == b;
    assert(a != b);
}

/// Compose the providers' children results for one directory: the nodes
/// are gathered ([`gather_children`]); nodes whose name no other provider
/// emitted stay in order, and each group of nodes that collided on a name
/// is merged into one ([`merge_collision_group`]), after them. Fails with
/// the last failure when no provider succeeded and one failed.
pub fn compose_children(results: Vec<(ProviderId, ChildrenResult)>) -> (r: Result<Vec<OwnedNode>, DispatchError>)
    ensures
        ((exists|i: int| 0 <= i < results@.len() && succeeded(#[trigger] results@[i].1)) || last_failure(results@) is None)
            ==> (r matches Ok(v) && composed_ok(gathered(results@), v@)),
        !((exists|i: int| 0 <= i < results@.len() && succeeded(#[trigger] results@[i].1)) || last_failure(results@) is None)
            ==> (r matches Err(e) && e.kind == ErrorKind::Other && e.message@ == last_failure(results@)->Some_0),
{
    let ghost g = gathered(results@);
    let all_nodes = match gather_children(results) {
        Ok(v) => v,
        Err(e) => return Err(handler_failure(e)),
    };
    let ghost cs = collided_names(g);
    let collisions = detect_collisions(all_nodes.as_slice());
    let names = names_of(&collisions);
    proof {
        assert(owned_views(all_nodes@) == g);
        assert(name_set(names@) =~= cs) by {
            assert forall|k: Seq<char>| name_set(names@).contains(k) implies cs.contains(k) by {
                let i = choose|i: int| 0 <= i < names@.len() && (#[trigger] names@[i])@ == k;
                assert(collisions@[i].0@ == k);
                lemma_detected_collides(g, k, collisions@[i].1@);
            }
            assert forall|k: Seq<char>| cs.contains(k) implies name_set(names@).contains(k) by {
                assert(collides(g, k));
                let i = choose|i: int| 0 <= i < collisions@.len() && (#[trigger] collisions@[i]).0@ == k;
                assert(names@[i]@ == k);
            }
        }
    }
    if collisions.len() == 0 {
        proof {
            assert(cs =~= Set::<Seq<char>>::empty());
            lemma_named_outside_none(g);
            assert(owned_views(all_nodes@).subrange(0, g.len() as int) =~= g);
        }
        return Ok(all_nodes);
    }
    let ghost nodes0 = all_nodes@;
    let (mut resolved, groups) = split_real_conflicts(all_nodes, names.as_slice());
    let ghost head = named_outside(g, cs);
    let ghost gs = groups@;
    let ghost m0 = resolved@.len();
    proof {
        assert(owned_views(resolved@) == head);
    }
    let mut rest = groups;
    let m = rest.len();
    let mut j: usize = 0;
    while j < m
        invariant
            j <= m,
            m == gs.len(),
            rest@ == gs.subrange(j as int, m as int),
            forall|k: int| 0 <= k < gs.len() ==> (#[trigger] gs[k]).1@.len() > 0
                && owned_views(gs[k].1@) == named(g, gs[k].0@) && cs.contains(gs[k].0@),
            resolved@.len() == m0 + j,
            m0 == head.len(),
            owned_views(resolved@).subrange(0, m0 as int) == head,
            forall|t: int| 0 <= t < j ==> owned_view(#[trigger] resolved@[m0 + t]) == owned_views(gs[t].1@)[0],
        decreases m - j,
    {
        let ghost r0 = resolved@;
        let (_name, group) = rest.remove(0);
        proof {
            assert(gs.subrange(j as int, m as int)[0] == gs[j as int]);
            assert(rest@ =~= gs.subrange(j + 1, m as int));
        }
        let first = merge_collision_group(group);
        resolved.push(first);
        proof {
            assert(owned_views(resolved@).subrange(0, m0 as int) =~= owned_views(r0).subrange(0, m0 as int));
            assert forall|t: int| 0 <= t < j + 1 implies owned_view(#[trigger] resolved@[m0 + t]) == owned_views(gs[t].1@)[0] by {
                if t < j {
                    assert(resolved@[m0 + t] == r0[m0 + t]);
                } else {
                    assert(owned_views(gs[t].1@)[0] == owned_view(gs[t].1@[0]));
                }
            }
        }
        j = j + 1;
    }
    proof {
        let v = resolved@;
        assert forall|i: int| m0 <= i < v.len() implies cs.contains((#[trigger] v[i]).node@.name)
            && owned_view(v[i]) == named(g, v[i].node@.name)[0] by {
            let t = i - m0;
            assert(owned_view(v[m0 + t]) == owned_views(gs[t].1@)[0]);
            let k = gs[t].0@;
            lemma_named_all(g, k);
            assert(named(g, k)[0].1.name == k);
        }
        assert forall|i: int, j2: int| m0 <= i < j2 < v.len() implies (#[trigger] v[i]).node@.name != (#[trigger] v[j2]).node@.name by {
            let ti = i - m0;
            let tj = j2 - m0;
            assert(owned_view(v[m0 + ti]) == owned_views(gs[ti].1@)[0]);
            assert(owned_view(v[m0 + tj]) == owned_views(gs[tj].1@)[0]);
            lemma_named_all(g, gs[ti].0@);
            lemma_named_all(g, gs[tj].0@);
            assert((#[trigger] gs[ti]).0@ != (#[trigger] gs[tj]).0@);
        }
        assert forall|k: Seq<char>| cs.contains(k) implies exists|i: int| m0 <= i < v.len() && (#[trigger] v[i]).node@.name == k by {
            assert(collides(g, k));
            let (a, b): (int, int) = choose|a: int, b: int| 0 <= a < g.len() && 0 <= b < g.len() && (#[trigger] g[a]).1.name == k
                && (#[trigger] g[b]).1.name == k && g[a].0 != g[b].0;
            assert(name_set(names@).contains(k));
            assert(nodes0[a].node@.name == k);
            let t = choose|t: int| 0 <= t < gs.len() && (#[trigger] gs[t]).0@ == k;
            assert(owned_view(v[m0 + t]) == owned_views(gs[t].1@)[0]);
            lemma_named_all(g, k);
        }
    }
    Ok(resolved)
}

/// Nothing is left out when no node has one of the names.
proof fn lemma_named_outside_all(ov: Seq<(Seq<char>, NodeView)>, names: Set<Seq<char>>)
    requires
        forall|j: int| 0 <= j < ov.len() ==> !names.contains((#[trigger] ov[j]).1.name),
    ensures
        named_outside(ov, names) == ov,
    decreases ov.len(),
{
    if ov.len() > 0 {
        let front = ov.drop_last();
        assert forall|j: int| 0 <= j < front.len() implies !names.contains((#[trigger] front[j]).1.name) by {
            assert(front[j] == ov[j]);
        }
        lemma_named_outside_all(front, names);
        assert(ov[ov.len() - 1] == ov.last());
        assert(front.push(ov.last()) =~= ov);
    }
}

/// The cached directory at `key`, or a fresh one when none is cached.
pub open spec fn dir_at(v: Map<Seq<char>, DirState>, key: Seq<char>) -> DirView {
    if v.contains_key(key) { v[key]@ } else { fresh_dir() }
}

/// The path filter may let `p` skip resolution: `p` is inside the git
/// directory, or some verdicts its gitignore matchers can give, consulted
/// in order, ignore it.
pub open spec fn may_skip(pf: PathFilter, p: Seq<Seq<char>>) -> bool {
    p.len() > 0 && ((pf.git_dir_component matches Some(g) && p[0] == g@)
        || exists|vs: Seq<Verdict>| consulted(vs, pf.matchers@.len()) && #[trigger] decided(vs))
}

/// A composed listing is empty exactly when nothing was gathered.
proof fn lemma_composed_empty(g: Seq<(Seq<char>, NodeView)>, v: Seq<OwnedNode>)
    requires
        composed_ok(g, v),
    ensures
        v.len() == 0 <==> g.len() == 0,
{
    let cs = collided_names(g);
    if g.len() == 0 {
        assert(named_outside(g, cs).len() == 0);
        if v.len() > 0 {
            assert(cs.contains(v[0].node@.name));
        }
    } else {
        let k = g.last().1.name;
        if cs.contains(k) {
            let i = choose|i: int| named_outside(g, cs).len() <= i < v.len() && (#[trigger] v[i]).node@.name == k;
        } else {
            assert(named_outside(g, cs) == named_outside(g.drop_last(), cs).push(g.last()));
        }
    }
}

/// `rs` are the listings the providers `ps` can give for the directory
/// `path`, each tagged with its provider's id, in registry order.
pub open spec fn listings<P: Provider>(ps: Seq<P>, path: Seq<Seq<char>>, rs: Seq<(ProviderId, ChildrenResult)>) -> bool {
    &&& rs.len() == ps.len()
    &&& forall|i: int| 0 <= i < rs.len() ==> (#[trigger] rs[i]).0 == ps[i].spec_id()
        && (rs[i].1 matches Some(x) && ps[i].spec_lists(path, nodes_view(x)))
}

/// No provider succeeded and one failed.
pub open spec fn listing_failed(rs: Seq<(ProviderId, ChildrenResult)>) -> bool {
    !((exists|i: int| 0 <= i < rs.len() && succeeded(#[trigger] rs[i].1)) || last_failure(rs) is None)
}

/// What resolving a directory that was not fresh leaves, `od` before and
/// `fd` after: the directory is resolved; a name cached before and after
/// keeps its inode; a passthrough directory keeps its entries; otherwise
/// a new resolve generation began and every entry that resolution stamps
/// carries it.
pub open spec fn resolution_outcome(od: DirView, fd: DirView) -> bool {
    &&& fd.resolved
    &&& forall|k: Seq<char>| #[trigger] od.entries.contains_key(k) && fd.entries.contains_key(k)
        ==> fd.entries[k].inode == od.entries[k].inode
    &&& fd.passthrough ==> fd.entries == od.entries
    &&& !fd.passthrough ==> fd.generation == od.generation + 1
        && forall|k: Seq<char>| #[trigger] fd.entries.contains_key(k) && fd.entries[k].source.stamped()
            ==> fd.entries[k].generation == fd.generation
}

/// A resolve cycle leaves the outcome of a resolution.
proof fn lemma_cycle_outcome(
    od: DirView,
    fd: DirView,
    es: Seq<(Seq<char>, CachedNodeKind, NodeSource)>,
    src: Option<(Seq<Seq<char>>, u64)>,
    i0: Map<u64, InodeEntry>,
    i1: Map<u64, InodeEntry>,
    dp: Seq<Seq<char>>,
    par: u64,
)
    requires
        resolve_cycle(od, fd, es, src, i0, i1, dp, par),
        od.generation < u64::MAX,
    ensures
        resolution_outcome(od, fd),
{
    assert forall|k: Seq<char>| #[trigger] od.entries.contains_key(k) && fd.entries.contains_key(k)
        implies fd.entries[k].inode == od.entries[k].inode by {
        law_resolve_keeps_inodes(od, fd, es, src, i0, i1, dp, par, k);
    }
    assert forall|k: Seq<char>| #[trigger] fd.entries.contains_key(k) && fd.entries[k].source.stamped()
        implies fd.entries[k].generation == fd.generation by {
        if last_named(es, k) is None {
            assert(od.entries.contains_key(k));
        }
    }
}

/// The first claim of a provider, when there is one, is a claim.
proof fn lemma_first_claim_in_range(cs: Seq<OwnedNode>, pid: Seq<char>)
    ensures
        first_claim_of(cs, pid) matches Some(i) ==> 0 <= i < cs.len() && cs[i].provider_id@ == pid,
    decreases cs.len(),
{
    if cs.len() > 0 {
        lemma_first_claim_in_range(cs.drop_last(), pid);
    }
}

/// The ids of the providers of `ps` that are among `claimants`, in order.
pub open spec fn asked_ids<P: Provider>(ps: Seq<P>, claimants: Seq<ProviderId>) -> Seq<Seq<char>>
    decreases ps.len(),
{
    if ps.len() == 0 {
        Seq::empty()
    } else {
        let rest = asked_ids(ps.drop_last(), claimants);
        if has_id(claimants, ps.last().spec_id()@) { rest.push(ps.last().spec_id()@) } else { rest }
    }
}

/// The ids of answers, in order.
pub open spec fn answer_ids(v: Seq<(ProviderId, ConflictAnswer)>) -> Seq<Seq<char>> {
    Seq::new(v.len(), |i: int| v[i].0@)
}

/// `os` holds claims of the providers of `ps` in registry order, at most
/// one per provider.
pub open spec fn claims_from<P: Provider>(ps: Seq<P>, os: Seq<OwnedNode>) -> bool {
    exists|idx: Seq<int>| #[trigger] idx.len() == os.len()
        && (forall|k: int| 0 <= k < idx.len() ==> 0 <= #[trigger] idx[k] < ps.len() && os[k].provider_id == ps[idx[k]].spec_id())
        && (forall|a: int, b: int| 0 <= a < b < idx.len() ==> #[trigger] idx[a] < #[trigger] idx[b])
}

impl<P: Provider, F: RealFs, E: EventSink, N: KernelNotifier> Router<P, F, E, N> {
    /// Whether the directory `path` is resolved and fresh, in which case
    /// nothing is to be done for it; a resolved directory that is not
    /// fresh is marked unresolved.
    pub fn resolved_and_fresh(&mut self, path: &VfsPath) -> (r: bool)
        requires
            old(self).wf(),
        ensures
            final(self).wf(),
            r == fresh_in(old(self).cache.view(), join_segments(path@), old(self).content_cache.gens()),
            r ==> ({
                let d = old(self).cache.view()[join_segments(path@)]@;
                &&& old(self).cache.view().contains_key(join_segments(path@))
                &&& d.resolved && !d.no_cache
                &&& d.source matches Some((p, g)) ==> generation_of(old(self).content_cache.gens(), join_segments(p@)) <= g
            }),
            final(self).cache.view().dom() == old(self).cache.view().dom(),
            forall|k: Seq<char>| #[trigger] old(self).cache.view().contains_key(k) ==> final(self).cache.view()[k]@ ==
                if k == join_segments(path@) && old(self).cache.view()[k]@.resolved && !r {
                    crate::cache::unresolved(old(self).cache.view()[k]@)
                } else {
                    old(self).cache.view()[k]@
                },
            !(old(self).cache.view().contains_key(join_segments(path@)) && old(self).cache.view()[join_segments(path@)]@.resolved && !r)
                ==> final(self).cache == old(self).cache,
            final(self).content_cache == old(self).content_cache,
            final(self).inodes == old(self).inodes,
            same_services(*old(self), *final(self)),
    {
        let ghost gens = self.content_cache.gens();
        let (resolved, fresh) = match self.cache.get(path) {
            Some(dir) => {
                let resolved = dir.is_resolved();
                let stale = match dir.source_stamp() {
                    Some((sf, g)) => self.content_cache.file_generation(sf) > g,
                    None => false,
                };
                let fresh = resolved && !dir.is_no_cache() && !stale;
                (resolved, fresh)
            },
            None => (false, false),
        };
        if resolved && !fresh {
            self.cache.invalidate_dir(path);
        }
        fresh
    }

    /// Record the directory `path` as passthrough: resolved, with no
    /// virtual content of its own.
    pub fn mark_passthrough(&mut self, path: &VfsPath)
        requires
            old(self).wf(),
        ensures
            final(self).wf(),
            ({
                let key = join_segments(path@);
                let od = if old(self).cache.view().contains_key(key) { old(self).cache.view()[key]@ } else { fresh_dir() };
                &&& final(self).cache.view().dom() == old(self).cache.view().dom().insert(key)
                &&& final(self).cache.view()[key]@ == (DirView { resolved: true, passthrough: true, ..od })
                &&& forall|k: Seq<char>| k != key && #[trigger] old(self).cache.view().contains_key(k)
                    ==> final(self).cache.view()[k] == old(self).cache.view()[k]
            }),
            final(self).content_cache == old(self).content_cache,
            final(self).inodes == old(self).inodes,
            same_services(*old(self), *final(self)),
    {
        let mut dir = self.cache.take_dir(path);
        dir.mark_passthrough();
        self.cache.put_dir(path, dir);
        assert(self.cache.view().dom() =~= old(self).cache.view().dom().insert(join_segments(path@)));
    }

    /// Ask every active provider for its children of `ctx.path` and compose
    /// them: nodes named by one provider only stay in order, and each
    /// group of nodes that collided on a name is merged into one. Fails
    /// only when no provider succeeded and one failed.
    pub fn resolve_directory(&self, ctx: &RequestContext) -> (r: Result<Vec<OwnedNode>, DispatchError>)
        ensures
            self.registry.providers().len() == 0 ==> (r matches Ok(v) && v@.len() == 0),
            exists|rs: Seq<(ProviderId, ChildrenResult)>| #[trigger] listings(self.registry.providers(), ctx.path@, rs)
                && (r matches Ok(v) ==> composed_ok(gathered(rs), v@))
                && (r is Err <==> listing_failed(rs))
                && (r matches Err(e) ==> e.kind == ErrorKind::Other
                    && e.message@ == "all providers failed for "@ + join_segments(ctx.path@) + ": "@ + last_failure(rs)->Some_0),
    {
        let providers = self.registry.active_providers();
        let mut results: Vec<(ProviderId, ChildrenResult)> = Vec::new();
        let n = providers.len();
        let mut i: usize = 0;
        while i < n
            invariant
                n == providers@.len(),
                providers@ == self.registry.providers(),
                i <= n,
                results@.len() == i,
                forall|k: int| 0 <= k < i ==> (#[trigger] results@[k]).0 == providers@[k].spec_id()
                    && (results@[k].1 matches Some(x) && providers@[k].spec_lists(ctx.path@, nodes_view(x))),
            decreases n - i,
        {
            let p = &providers[i];
            let listed = p.children(ctx);
            results.push((p.id(), Some(listed)));
            i = i + 1;
        }
        let ghost rs = results@;
        proof {
            if n == 0 {
                assert(gathered(rs) =~= Seq::<(Seq<char>, NodeView)>::empty());
                assert(last_failure(rs) is None);
            }
        }
        let r = match compose_children(results) {
            Ok(v) => Ok(v),
            Err(e) => {
                let mut m = "all providers failed for ".to_owned();
                m.append(ctx.path.as_str());
                m.append(": ");
                m.append(e.message.as_str());
                Err(io_err(ErrorKind::Other, m))
            },
        };
        proof {
            assert(listings(self.registry.providers(), ctx.path@, rs));
            if n == 0 {
                if r is Ok {
                    let v = r->Ok_0;
                    let cs = collided_names(gathered(rs));
                    assert(named_outside(gathered(rs), cs).len() == 0);
                    if v@.len() > 0 {
                        assert(cs.contains(v@[0].node@.name));
                    }
                }
            }
        }
        r
    }

    /// The answers of the providers among `claimants` to a conflict, in
    /// registry order.
    fn ask_conflict(&self, ctx: &RequestContext, conflict: &ConflictInfo) -> (r: Vec<(ProviderId, ConflictAnswer)>)
        ensures
            answer_ids(r@) == asked_ids(self.registry.providers(), conflict.claimants@),
            forall|i: int| 0 <= i < r@.len() ==> (#[trigger] r@[i]).1 is Some,
    {
        let providers = self.registry.active_providers();
        let mut answers: Vec<(ProviderId, ConflictAnswer)> = Vec::new();
        let n = providers.len();
        let mut i: usize = 0;
        assert(answer_ids(answers@) =~= asked_ids(providers@.subrange(0, 0), conflict.claimants@));
        while i < n
            invariant
                n == providers@.len(),
                providers@ == self.registry.providers(),
                i <= n,
                answer_ids(answers@) == asked_ids(providers@.subrange(0, i as int), conflict.claimants@),
                forall|k: int| 0 <= k < answers@.len() ==> (#[trigger] answers@[k]).1 is Some,
            decreases n - i,
        {
            let p = &providers[i];
            let pid = p.id();
            let ghost a0 = answers@;
            if has_provider(&conflict.claimants, &pid) {
                answers.push((pid, Some(p.on_conflict(ctx, conflict))));
                assert(answer_ids(answers@) =~= answer_ids(a0).push(pid@));
            }
            proof {
                let sub = providers@.subrange(0, i + 1);
                assert(sub.drop_last() =~= providers@.subrange(0, i as int));
                assert(sub.last() == providers@[i as int]);
            }
            i = i + 1;
        }
        assert(providers@.subrange(0, n as int) =~= providers@);
        answers
    }

    /// Settle the conflicts between `virtual_nodes` and the real entries
    /// named `real_names`: nodes named by no real entry stay; for each
    /// contested name the providers involved are asked, a single force
    /// wins (shadowing the real entry, whose name is returned), and
    /// otherwise the real entry wins and only retried nodes that collide
    /// with no real entry stay.
    pub fn resolve_real_conflicts(&self, virtual_nodes: Vec<OwnedNode>, real_names: &[&str], ctx: &RequestContext)
        -> (r: (Vec<OwnedNode>, Vec<String>))
        ensures
            ({
                let head = named_outside(owned_views(virtual_nodes@), name_set(real_names@));
                head.len() <= r.0@.len() && owned_views(r.0@).subrange(0, head.len() as int) == head
            }),
            forall|i: int| 0 <= i < r.1@.len() ==> name_set(real_names@).contains((#[trigger] r.1@[i])@),
            forall|i: int, j: int| 0 <= i < j < r.1@.len() ==> (#[trigger] r.1@[i])@ != (#[trigger] r.1@[j])@,
            (forall|j: int| 0 <= j < virtual_nodes@.len() ==> !name_set(real_names@).contains((#[trigger] virtual_nodes@[j]).node@.name))
                ==> owned_views(r.0@) == owned_views(virtual_nodes@) && r.1@.len() == 0,
    {
        let ghost ov = owned_views(virtual_nodes@);
        let ghost vn = virtual_nodes@;
        let ghost rs = name_set(real_names@);
        let ghost clear = forall|j: int| 0 <= j < vn.len() ==> !rs.contains((#[trigger] vn[j]).node@.name);
        let (mut kept, groups) = split_real_conflicts(virtual_nodes, real_names);
        let ghost head = named_outside(ov, rs);
        let ghost h = kept@.len();
        let ghost gs = groups@;
        proof {
            if clear {
                assert forall|j: int| 0 <= j < ov.len() implies !rs.contains((#[trigger] ov[j]).1.name) by {
                    assert(ov[j] == owned_view(vn[j]));
                }
                lemma_named_outside_all(ov, rs);
                if gs.len() > 0 {
                    lemma_named_absent(ov, gs[0].0@);
                    assert(owned_views(gs[0].1@).len() == gs[0].1@.len());
                }
                assert(gs.len() == 0);
                assert(head == ov);
            }
        }
        let mut shadowed: Vec<String> = Vec::new();
        let mut rest = groups;
        let m = rest.len();
        let mut j: usize = 0;
        while j < m
            invariant
                j <= m,
                m == gs.len(),
                rest@ == gs.subrange(j as int, m as int),
                forall|a: int, b: int| 0 <= a < b < gs.len() ==> (#[trigger] gs[a]).0@ != (#[trigger] gs[b]).0@,
                forall|a: int| 0 <= a < gs.len() ==> rs.contains((#[trigger] gs[a]).0@),
                rs == name_set(real_names@),
                h <= kept@.len(),
                h == head.len(),
                owned_views(kept@).subrange(0, h as int) == head,
                forall|a: int| 0 <= a < shadowed@.len() ==> exists|t: int| 0 <= t < j && (#[trigger] shadowed@[a])@ == gs[t].0@,
                forall|a: int, b: int| 0 <= a < b < shadowed@.len() ==> (#[trigger] shadowed@[a])@ != (#[trigger] shadowed@[b])@,
                j == 0 ==> kept@.len() == h && shadowed@.len() == 0,
            decreases m - j,
        {
            let ghost k0 = kept@;
            let ghost s0 = shadowed@;
            let (name, nodes) = rest.remove(0);
            proof {
                assert(gs.subrange(j as int, m as int)[0] == gs[j as int]);
                assert(rest@ =~= gs.subrange(j + 1, m as int));
            }
            let claimants = claimants_of(&nodes);
            let conflict = ConflictInfo { name, claimants, with_real: true };
            let answers = self.ask_conflict(ctx, &conflict);
            let outcome = collect_conflict_responses(answers);
            let (winners, forced) = settle_real_conflict(outcome.forces, outcome.retries, real_names);
            if forced {
                shadowed.push(conflict.name);
                proof {
                    assert forall|a: int, b: int| 0 <= a < b < shadowed@.len() implies (#[trigger] shadowed@[a])@ != (#[trigger] shadowed@[b])@ by {
                        if b == s0.len() {
                            assert(shadowed@[a] == s0[a]);
                            let t = choose|t: int| 0 <= t < j && (#[trigger] s0[a])@ == gs[t].0@;
                            assert(gs[t].0@ != gs[j as int].0@);
                        } else {
                            assert(shadowed@[a] == s0[a] && shadowed@[b] == s0[b]);
                        }
                    }
                    assert forall|a: int| 0 <= a < shadowed@.len() implies exists|t: int| 0 <= t < j + 1 && (#[trigger] shadowed@[a])@ == gs[t].0@ by {
                        if a < s0.len() {
                            assert(shadowed@[a] == s0[a]);
                        } else {
                            assert(shadowed@[a]@ == gs[j as int].0@);
                        }
                    }
                }
            }
            let mut winners = winners;
            kept.append(&mut winners);
            proof {
                assert(owned_views(kept@).subrange(0, h as int) =~= owned_views(k0).subrange(0, h as int));
            }
            j = j + 1;
        }
        proof {
            assert forall|i: int| 0 <= i < shadowed@.len() implies rs.contains((#[trigger] shadowed@[i])@) by {
                let t = choose|t: int| 0 <= t < j && (#[trigger] shadowed@[i])@ == gs[t].0@;
            }
            if clear {
                assert(owned_views(kept@) =~= owned_views(kept@).subrange(0, h as int));
            }
        }
        (kept, shadowed)
    }

    /// The nodes the active providers claim under `name` in `ctx.path` by
    /// the operation `op`, with their providers, in registry order; a
    /// failing provider claims nothing.
    fn claims(&self, op: ClaimOp, name: &str, ctx: &RequestContext) -> (r: Vec<OwnedNode>)
        ensures
            claims_from(self.registry.providers(), r@),
    {
        let providers = self.registry.active_providers();
        let mut claims: Vec<OwnedNode> = Vec::new();
        let n = providers.len();
        let mut i: usize = 0;
        let ghost mut idx: Seq<int> = Seq::empty();
        while i < n
            invariant
                n == providers@.len(),
                providers@ == self.registry.providers(),
                i <= n,
                idx.len() == claims@.len(),
                forall|k: int| 0 <= k < idx.len() ==> 0 <= #[trigger] idx[k] < i && claims@[k].provider_id == providers@[idx[k]].spec_id(),
                forall|a: int, b: int| 0 <= a < b < idx.len() ==> #[trigger] idx[a] < #[trigger] idx[b],
            decreases n - i,
        {
            let p = &providers[i];
            let result = match op {
                ClaimOp::Lookup => p.lookup(ctx, name),
                ClaimOp::Create => p.create(ctx, name),
                ClaimOp::Mkdir => p.mkdir(ctx, name),
            };
            match result {
                Ok(Some(node)) => {
                    claims.push(OwnedNode { node, provider_id: p.id() });
                    proof {
                        idx = idx.push(i as int);
                    }
                },
                _ => {},
            }
            i = i + 1;
        }
        assert(idx.len() == claims@.len());
        claims
    }

    /// Dispatch `op` for `name` to the providers, expecting at most one to
    /// claim it: no claim gives `None`, one claim gives it, and competing
    /// claims are put to the claimants, where a single force wins, all
    /// yielding drops the name, and a tie is an error.
    pub fn single_claim_dispatch(&self, op: ClaimOp, name: &str, ctx: &RequestContext) -> (r: Result<Option<OwnedNode>, DispatchError>)
        ensures
            self.registry.providers().len() == 0 ==> r == Ok::<Option<OwnedNode>, DispatchError>(None),
            r matches Ok(Some(o)) ==> exists|i: int| 0 <= i < self.registry.providers().len()
                && o.provider_id@ == (#[trigger] self.registry.providers()[i]).spec_id()@,
            r matches Err(e) ==> e.kind == ErrorKind::Other && e.raw_os_error is None && e.message@ == name@,
    {
        let mut claims = self.claims(op, name, ctx);
        let ghost ps = self.registry.providers();
        let ghost cs = claims@;
        let ghost idx = choose|idx: Seq<int>| #[trigger] idx.len() == cs.len()
            && (forall|k: int| 0 <= k < idx.len() ==> 0 <= #[trigger] idx[k] < ps.len() && cs[k].provider_id == ps[idx[k]].spec_id())
            && (forall|a: int, b: int| 0 <= a < b < idx.len() ==> #[trigger] idx[a] < #[trigger] idx[b]);
        proof {
            if ps.len() == 0 && cs.len() > 0 {
                assert(0 <= idx[0] < ps.len());
            }
        }
        if claims.len() == 0 {
            return Ok(None);
        }
        if claims.len() == 1 {
            let c = claims.remove(0);
            proof {
                assert(c == cs[0]);
                assert(0 <= idx[0] < ps.len() && c.provider_id == ps[idx[0]].spec_id());
            }
            return Ok(Some(c));
        }
        let claimants = claimants_of(&claims);
        let conflict = ConflictInfo { name: name.to_owned(), claimants, with_real: false };
        let answers = self.ask_conflict(ctx, &conflict);
        let outcome = collect_conflict_responses(answers);
        let forced = forced_ids(&outcome.forces);
        let res = resolve_competing_claims(claims, forced.as_slice());
        proof {
            if res matches Ok(Some(_)) {
                let i = first_claim_of(cs, forced@[0]@)->Some_0;
                lemma_first_claim_in_range(cs, forced@[0]@);
                assert(0 <= idx[i] < ps.len() && cs[i].provider_id == ps[idx[i]].spec_id());
            }
        }
        match res {
            Ok(winner) => Ok(winner),
            Err(ClaimError::TiedForce(_)) => Err(io_err(ErrorKind::Other, conflict.name)),
        }
    }

    /// Look `name` up in the directory `ctx.path` on the real filesystem
    /// only: a cached real entry gives its inode; a cached virtual entry
    /// gives its inode only if a real file exists there too; otherwise a
    /// real file found there is cached, as a lookup, under a new inode.
    pub fn lookup_real(&mut self, name: &str, ctx: &RequestContext) -> (r: Result<Option<u64>, DispatchError>)
        requires
            old(self).wf(),
        ensures
            final(self).wf(),
            same_services(*old(self), *final(self)),
            final(self).content_cache == old(self).content_cache,
            ({
                let key = join_segments(ctx.path@);
                let v0 = old(self).cache.view();
                if v0.contains_key(key) && v0[key]@.entries.contains_key(name@) {
                    let cn = v0[key]@.entries[name@];
                    &&& final(self).cache == old(self).cache
                    &&& final(self).inodes == old(self).inodes
                    &&& cn.kind is Real ==> r == Ok::<Option<u64>, DispatchError>(Some(cn.inode))
                    &&& !valid_segment(name@) && !(cn.kind is Real) ==> r is Err
                    &&& r matches Ok(Some(ino)) ==> ino == cn.inode
                } else if !valid_segment(name@) {
                    &&& r matches Err(e) && e.kind == ErrorKind::InvalidInput
                    &&& final(self).cache == old(self).cache
                    &&& final(self).inodes == old(self).inodes
                } else {
                    &&& r is Ok
                    &&& r matches Ok(None) ==> final(self).cache == old(self).cache && final(self).inodes == old(self).inodes
                    &&& r matches Ok(Some(ino)) ==> {
                        let od = if v0.contains_key(key) { v0[key]@ } else { fresh_dir() };
                        let fv = final(self).cache.view();
                        &&& fv.dom() == v0.dom().insert(key)
                        &&& forall|k: Seq<char>| k != key && #[trigger] v0.contains_key(k) ==> fv[k] == v0[k]
                        &&& fv[key]@.entries.contains_key(name@)
                        &&& fv[key]@.entries[name@].inode == ino
                        &&& fv[key]@.entries[name@].kind is Real
                        &&& fv[key]@.entries[name@].source == NodeSource::Lookup
                        &&& fv[key]@ == (DirView { entries: od.entries.insert(name@, fv[key]@.entries[name@]), ..od })
                        &&& !old(self).inodes.view().contains_key(ino)
                        &&& final(self).inodes.view() == old(self).inodes.view().insert(ino, final(self).inodes.view()[ino])
                        &&& final(self).inodes.view()[ino].dir_path@ == ctx.path@
                        &&& final(self).inodes.view()[ino].name@ == name@
                    }
                }
            }),
    {
        let path = ctx.path;
        match self.cache.get(path) {
            Some(dir) => match dir.get(name) {
                Some(cached) => {
                    let inode = cached.inode;
                    let is_real = match &cached.kind {
                        CachedNodeKind::Real { .. } => true,
                        CachedNodeKind::Virtual { .. } => {
                            let child = match path.join(name) {
                                Ok(c) => c,
                                Err(_) => return Err(invalid_path(name)),
                            };
                            self.real_fs.path_exists(&child)
                        },
                    };
                    return Ok(if is_real { Some(inode) } else { None });
                },
                None => {},
            },
            None => {},
        }
        let child = match path.join(name) {
            Ok(c) => c,
            Err(_) => return Err(invalid_path(name)),
        };
        if !self.real_fs.path_exists(&child) {
            return Ok(None);
        }
        let file_type = match self.real_fs.file_type(&child) {
            Ok(t) => t,
            Err(_) => FileKind::File,
        };
        let parent = self.parent_inode_for_dir(path);
        let mut dir = self.cache.take_dir(path);
        let ghost d0 = dir@;
        let entry = NodeEntry { name: name.to_owned(), kind: CachedNodeKind::Real { file_type }, source: NodeSource::Lookup };
        let inode = insert_node(&mut dir, path, entry, &mut self.inodes, parent);
        self.cache.put_dir(path, dir);
        assert(self.cache.view().dom() =~= old(self).cache.view().dom().insert(join_segments(path@)));
        assert(self.inodes.view() =~= old(self).inodes.view().insert(inode, self.inodes.view()[inode]));
        Ok(Some(inode))
    }

    /// Look `name` up in the directory `ctx.path`: after resolving the
    /// directory, a cached entry gives its inode; otherwise, for a path
    /// that is not skippable, a node claimed by the providers is cached as
    /// a lookup (a directory whose content is never cached is marked to be
    /// re-resolved on every access); failing that, the real filesystem is
    /// consulted. A returned inode is the one the directory caches under
    /// `name`.
    pub fn lookup_name(&mut self, name: &str, ctx: &RequestContext) -> (r: Result<Option<u64>, DispatchError>)
        requires
            old(self).wf(),
            old(self).cache.view().contains_key(join_segments(ctx.path@))
                ==> old(self).cache.view()[join_segments(ctx.path@)]@.generation < u64::MAX,
        ensures
            final(self).wf(),
            same_services(*old(self), *final(self)),
            final(self).content_cache.gens() == old(self).content_cache.gens(),
            forall|i: u64| #[trigger] old(self).inodes.view().contains_key(i)
                ==> final(self).inodes.view().contains_key(i) && final(self).inodes.view()[i] == old(self).inodes.view()[i],
            r matches Ok(Some(ino)) ==> final(self).cache.view().contains_key(join_segments(ctx.path@))
                && final(self).cache.view()[join_segments(ctx.path@)]@.entries.contains_key(name@)
                && final(self).cache.view()[join_segments(ctx.path@)]@.entries[name@].inode == ino,
            ({
                let key = join_segments(ctx.path@);
                let v0 = old(self).cache.view();
                fresh_in(v0, key, old(self).content_cache.gens()) && v0[key]@.entries.contains_key(name@)
                    ==> r == Ok::<Option<u64>, DispatchError>(Some(v0[key]@.entries[name@].inode))
                        && final(self).cache.view() == v0 && final(self).inodes == old(self).inodes
            }),
    {
        let path = ctx.path;
        match self.ensure_resolved(ctx) {
            Ok(()) => {},
            Err(e) => return Err(e),
        }
        match self.cache.get(path) {
            Some(dir) => match dir.get(name) {
                Some(cached) => return Ok(Some(cached.inode)),
                None => {},
            },
            None => {},
        }
        if self.path_filter.is_skippable(path) {
            return self.lookup_real(name, ctx);
        }
        let owned = match self.single_claim_dispatch(ClaimOp::Lookup, name, ctx) {
            Ok(Some(o)) => o,
            Ok(None) => return self.lookup_real(name, ctx),
            Err(e) => return Err(e),
        };
        let is_no_cache_dir = owned.node.kind() == FileKind::Directory && owned.node.cache_policy() == CachePolicy::Never;
        let parent = self.parent_inode_for_dir(path);
        let mut dir = self.cache.take_dir(path);
        let entry = NodeEntry { name: name.to_owned(), kind: owned.into_cached_kind(), source: NodeSource::Lookup };
        let inode = insert_node(&mut dir, path, entry, &mut self.inodes, parent);
        self.cache.put_dir(path, dir);
        if is_no_cache_dir {
            match path.join(name) {
                Ok(child) => {
                    proof { lemma_child_text_longer(path@, name@); }
                    let mut cdir = self.cache.take_dir(&child);
                    cdir.mark_no_cache();
                    self.cache.put_dir(&child, cdir);
                },
                Err(_) => {},
            }
        }
        Ok(Some(inode))
    }

    /// What `inode` resolves to: the cached entry it was allocated for, as
    /// long as that entry still has this inode; a real entry yields its
    /// path, a virtual one a copy of its node with its provider and
    /// directory.
    pub fn resolve_inode(&self, inode: u64) -> (r: Option<ResolvedInode>)
        requires
            self.wf(),
        ensures
            ({
                let e = self.inodes.view()[inode];
                let key = join_segments(e.dir_path@);
                let live = self.inodes.view().contains_key(inode) && self.cache.view().contains_key(key)
                    && self.cache.view()[key]@.entries.contains_key(e.name@)
                    && self.cache.view()[key]@.entries[e.name@].inode == inode;
                let cn = self.cache.view()[key]@.entries[e.name@];
                &&& r is None <==> !(live && (cn.kind is Real ==> valid_segment(e.name@)))
                &&& r matches Some(ResolvedInode::Real { file_type, path }) ==> cn.kind == (CachedNodeKind::Real { file_type })
                    && path@ == e.dir_path@.push(e.name@)
                &&& r matches Some(ResolvedInode::Virtual { node, provider_id, dir_path }) ==> cn.kind matches CachedNodeKind::Virtual { node: n, provider_id: p }
                    && node@ == n@ && provider_id == p && dir_path@ == e.dir_path@
            }),
    {
        let entry = match self.inodes.get(inode) {
            Some(e) => e,
            None => return None,
        };
        let dir = match self.cache.get(&entry.dir_path) {
            Some(d) => d,
            None => return None,
        };
        let cn = match dir.get(entry.name.as_str()) {
            Some(c) => c,
            None => return None,
        };
        if cn.inode != inode {
            return None;
        }
        match &cn.kind {
            CachedNodeKind::Real { file_type } => match entry.dir_path.join(entry.name.as_str()) {
                Ok(path) => Some(ResolvedInode::Real { file_type: *file_type, path }),
                Err(_) => None,
            },
            CachedNodeKind::Virtual { node, provider_id } => Some(ResolvedInode::Virtual {
                node: node.duplicate(),
                provider_id: *provider_id,
                dir_path: entry.dir_path,
            }),
        }
    }

    /// Make sure the directory `ctx.path` is resolved: nothing is done for
    /// a fresh one; a skippable one, or one no provider put a node in, is
    /// passthrough; otherwise the providers' nodes, settled against the
    /// real entries, and the real entries not shadowed are recorded as a
    /// new resolve cycle ([`Router::populate_directory`]).
    pub fn ensure_resolved(&mut self, ctx: &RequestContext) -> (r: Result<(), DispatchError>)
        requires
            old(self).wf(),
            old(self).cache.view().contains_key(join_segments(ctx.path@))
                ==> old(self).cache.view()[join_segments(ctx.path@)]@.generation < u64::MAX,
        ensures
            final(self).wf(),
            fresh_in(old(self).cache.view(), join_segments(ctx.path@), old(self).content_cache.gens())
                ==> r is Ok && final(self).cache.view() == old(self).cache.view()
                    && final(self).content_cache == old(self).content_cache
                    && final(self).inodes == old(self).inodes,
            r is Ok ==> final(self).cache.view().contains_key(join_segments(ctx.path@))
                && final(self).cache.view()[join_segments(ctx.path@)]@.resolved,
            forall|i: u64| #[trigger] old(self).inodes.view().contains_key(i)
                ==> final(self).inodes.view().contains_key(i) && final(self).inodes.view()[i] == old(self).inodes.view()[i],
            final(self).content_cache.gens() == old(self).content_cache.gens(),
            same_services(*old(self), *final(self)),
            ({
                let key = join_segments(ctx.path@);
                let v0 = old(self).cache.view();
                let od = dir_at(v0, key);
                let fresh = fresh_in(v0, key, old(self).content_cache.gens());
                let git = ctx.path@.len() > 0 && (old(self).path_filter.git_dir_component matches Some(g) && ctx.path@[0] == g@);
                let fd = final(self).cache.view()[key]@;
                let ps = old(self).registry.providers();
                let skip = may_skip(old(self).path_filter, ctx.path@);
                &&& !fresh && (git || ps.len() == 0) ==> r is Ok && fd.passthrough
                &&& r is Ok && !fresh ==> resolution_outcome(od, fd)
                &&& r is Ok && !fresh && !fd.passthrough ==> !git && ps.len() > 0
                &&& !fresh && !skip ==> exists|rs: Seq<(ProviderId, ChildrenResult)>| #[trigger] listings(ps, ctx.path@, rs)
                    && (r is Err <==> listing_failed(rs))
                    && (r is Ok ==> (fd.passthrough <==> gathered(rs).len() == 0))
                &&& r is Ok && !fresh && fd.passthrough ==> skip
                    || exists|rs: Seq<(ProviderId, ChildrenResult)>| #[trigger] listings(ps, ctx.path@, rs) && gathered(rs).len() == 0
                &&& r is Ok && !fresh && !fd.passthrough ==>
                    (exists|rs: Seq<(ProviderId, ChildrenResult)>| #[trigger] listings(ps, ctx.path@, rs)
                        && !listing_failed(rs) && gathered(rs).len() > 0)
                    && exists|es: Seq<(Seq<char>, CachedNodeKind, NodeSource)>, src: Option<(Seq<Seq<char>>, u64)>, par: u64|
                        #[trigger] resolve_cycle(od, fd, es, src, old(self).inodes.view(), final(self).inodes.view(), ctx.path@, par)
            }),
    {
        let path = ctx.path;
        let ghost key = join_segments(path@);
        let ghost v0 = self.cache.view();
        let ghost od = if v0.contains_key(key) { v0[key]@ } else { fresh_dir() };
        if self.resolved_and_fresh(path) {
            return Ok(());
        }
        let ghost v1 = self.cache.view();
        let ghost od1 = if v1.contains_key(key) { v1[key]@ } else { fresh_dir() };
        assert(od1.entries == od.entries && od1.generation == od.generation);
        if self.path_filter.is_skippable(path) {
            self.mark_passthrough(path);
            return Ok(());
        }
        let ghost ps = self.registry.providers();
        let res = self.resolve_directory(ctx);
        let ghost rs = choose|rs: Seq<(ProviderId, ChildrenResult)>| #[trigger] listings(ps, path@, rs)
            && (res matches Ok(v) ==> composed_ok(gathered(rs), v@))
            && (res is Err <==> listing_failed(rs));
        let virtual_nodes = match res {
            Ok(v) => v,
            Err(e) => return Err(e),
        };
        proof {
            lemma_composed_empty(gathered(rs), virtual_nodes@);
        }
        if virtual_nodes.len() == 0 {
            self.mark_passthrough(path);
            return Ok(());
        }
        assert(self.registry.providers().len() > 0);
        let real_entries = match self.real_fs.read_dir(path) {
            Ok(v) => v,
            Err(_) => Vec::new(),
        };
        let real_names = entry_names(&real_entries);
        let (virtual_nodes, shadowed) = self.resolve_real_conflicts(virtual_nodes, real_names.as_slice(), ctx);
        let shadowed_names = string_slices(&shadowed);
        let ghost v2 = self.cache.view();
        let ghost vn = virtual_nodes@;
        let ghost re = real_entries@;
        let ghost sh = shadowed_names@;
        let ghost i0 = self.inodes.view();
        self.populate_directory(path, virtual_nodes, real_entries, shadowed_names.as_slice());
        proof {
            let fd = self.cache.view()[key]@;
            let od2 = if v2.contains_key(key) { v2[key]@ } else { fresh_dir() };
            let es = virtual_entry_views(vn) + real_entry_views(re, name_set(sh));
            lemma_cycle_outcome(od2, fd, es, first_source(vn), i0, self.inodes.view(), path@, dir_parent_inode(v2, path@));
            assert(od2.entries == od.entries && od2.generation == od.generation && od2.no_cache == od.no_cache
                && od2.source == od.source);
            assert(resolve_cycle(od, fd, es, first_source(vn), i0, self.inodes.view(), path@, dir_parent_inode(v2, path@)));
        }
        Ok(())
    }
}

/// Some provider of `ids` is named `pid`.
pub open spec fn has_id(ids: Seq<ProviderId>, pid: Seq<char>) -> bool {
    exists|i: int| 0 <= i < ids.len() && (#[trigger] ids[i])@ == pid
}

/// Whether `pid` is among `ids`.
fn has_provider(ids: &Vec<ProviderId>, pid: &ProviderId) -> (r: bool)
    ensures
        r == has_id(ids@, pid@),
{
    let n = ids.len();
    let mut i: usize = 0;
    while i < n
        invariant
            n == ids@.len(),
            i <= n,
            forall|j: int| 0 <= j < i ==> (#[trigger] ids@[j])@ != pid@,
        decreases n - i,
    {
        if ids[i].same(pid) {
            return true;
        }
        i = i + 1;
    }
    false
}

/// The providers of `nodes`, each once, in order of first appearance.
fn claimants_of(nodes: &Vec<OwnedNode>) -> (r: Vec<ProviderId>)
    ensures
        forall|j: int| 0 <= j < nodes@.len() ==> #[trigger] has_id(r@, nodes@[j].provider_id@),
{
    let mut out: Vec<ProviderId> = Vec::new();
    let n = nodes.len();
    let mut i: usize = 0;
    while i < n
        invariant
            n == nodes@.len(),
            i <= n,
            forall|j: int| 0 <= j < i ==> #[trigger] has_id(out@, nodes@[j].provider_id@),
        decreases n - i,
    {
        let pid = nodes[i].provider_id;
        if !has_provider(&out, &pid) {
            let ghost before = out@;
            out.push(pid);
            assert forall|j: int| 0 <= j <= i implies #[trigger] has_id(out@, nodes@[j].provider_id@) by {
                if j < i {
                    assert(has_id(before, nodes@[j].provider_id@));
                    let a = choose|a: int| 0 <= a < before.len() && (#[trigger] before[a])@ == nodes@[j].provider_id@;
                    assert(out@[a] == before[a]);
                    assert(out@[a]@ == nodes@[j].provider_id@);
                } else {
                    assert(out@[out@.len() - 1]@ == nodes@[i as int].provider_id@);
                }
            }
        }
        i = i + 1;
    }
    out
}

/// The providers of the forces, in order.
fn forced_ids(forces: &Vec<(ProviderId, Vec<VirtualNode>)>) -> (r: Vec<ProviderId>)
    ensures
        r@.len() == forces@.len(),
        forall|i: int| 0 <= i < r@.len() ==> #[trigger] r@[i] == forces@[i].0,
{
    let mut out: Vec<ProviderId> = Vec::new();
    let n = forces.len();
    let mut i: usize = 0;
    while i < n
        invariant
            n == forces@.len(),
            i <= n,
            out@.len() == i,
            forall|j: int| 0 <= j < i ==> #[trigger] out@[j] == forces@[j].0,
        decreases n - i,
    {
        out.push(forces[i].0);
        i = i + 1;
    }
    out
}

/// The names of real entries.
fn entry_names(entries: &Vec<RealDirEntry>) -> (r: Vec<&str>)
    ensures
        r@.len() == entries@.len(),
        forall|i: int| 0 <= i < r@.len() ==> (#[trigger] r@[i])@ == entries@[i].name@,
{
    let mut out: Vec<&str> = Vec::new();
    let n = entries.len();
    let mut i: usize = 0;
    while i < n
        invariant
            n == entries@.len(),
            i <= n,
            out@.len() == i,
            forall|j: int| 0 <= j < i ==> (#[trigger] out@[j])@ == entries@[j].name@,
        decreases n - i,
    {
        out.push(entries[i].name.as_str());
        i = i + 1;
    }
    out
}

/// The strings as slices.
fn string_slices(v: &Vec<String>) -> (r: Vec<&str>)
    ensures
        r@.len() == v@.len(),
        forall|i: int| 0 <= i < r@.len() ==> (#[trigger] r@[i])@ == v@[i]@,
{
    let mut out: Vec<&str> = Vec::new();
    let n = v.len();
    let mut i: usize = 0;
    while i < n
        invariant
            n == v@.len(),
            i <= n,
            out@.len() == i,
            forall|j: int| 0 <= j < i ==> (#[trigger] out@[j])@ == v@[j]@,
        decreases n - i,
    {
        out.push(v[i].as_str());
        i = i + 1;
    }
    out
}

/// Resolution of other paths, as nodes may ask for it.
pub trait Resolver {
    /// The directory with components `dir` can be resolved.
    spec fn resolvable_at(&self, dir: Seq<Seq<char>>) -> bool;

    /// The virtual nodes listed in the directory `path`, resolving it
    /// first.
    fn resolve(&mut self, path: &VfsPath) -> Result<Vec<VirtualNode>, DispatchError>
        requires
            old(self).resolvable_at(path@);

    /// The virtual node at `path`, looking it up in its directory first.
    fn lookup(&mut self, path: &VfsPath) -> Result<Option<VirtualNode>, DispatchError>
        requires
            path@.len() > 0 ==> old(self).resolvable_at(path@.drop_last());
}

/// The entry `n` is a virtual node listed by a default readdir.
pub open spec fn listed_virtual(n: crate::cache::CachedNode) -> bool {
    visible(n) && n.kind is Virtual
}

impl<P: Provider, F: RealFs, E: EventSink, N: KernelNotifier> Resolver for Router<P, F, E, N> {
    /// The caches are well formed and the directory can begin another
    /// resolve cycle.
    open spec fn resolvable_at(&self, dir: Seq<Seq<char>>) -> bool {
        self.wf() && (self.cache.view().contains_key(join_segments(dir))
            ==> self.cache.view()[join_segments(dir)]@.generation < u64::MAX)
    }

    /// The directory `path` is resolved, and copies of its listed virtual
    /// nodes are returned, each listed name once.
    fn resolve(&mut self, path: &VfsPath) -> (r: Result<Vec<VirtualNode>, DispatchError>)
        ensures
            final(self).wf(),
            ({
                let key = join_segments(path@);
                let d = final(self).cache.view()[key]@;
                r matches Ok(v) ==> final(self).cache.view().contains_key(key) && exists|ks: Seq<Seq<char>>|
                    ks.no_duplicates()
                    && (forall|k: Seq<char>| #[trigger] ks.contains(k) <==> (d.entries.contains_key(k) && listed_virtual(d.entries[k])))
                    && v@.len() == ks.len()
                    && (forall|i: int| 0 <= i < ks.len() ==> #[trigger] v@[i]@ == d.entries[ks[i]].kind->node@)
            }),
            fresh_in(old(self).cache.view(), join_segments(path@), old(self).content_cache.gens())
                ==> r is Ok && final(self).cache.view() == old(self).cache.view(),
    {
        let ctx = RequestContext { path };
        match self.ensure_resolved(&ctx) {
            Ok(()) => {},
            Err(e) => return Err(e),
        }
        let dir = match self.cache.get(path) {
            Some(d) => d,
            None => return Err(crate::err::not_found(path.as_str())),
        };
        let listed = dir.readdir_entries(ProcessVisibility::Default);
        let ghost d = dir@;
        let ghost ks = choose|ks: Seq<Seq<char>>|
            ks.no_duplicates()
            && (forall|k: Seq<char>| #[trigger] ks.contains(k) <==> (dir@.entries.contains_key(k)
                && (ProcessVisibility::Default is All || visible(dir@.entries[k]))))
            && listed@.len() == ks.len()
            && (forall|i: int| 0 <= i < ks.len() ==> #[trigger] listed@[i].0@ == ks[i]
                && *listed@[i].1 == dir@.entries[ks[i]]);
        let mut out: Vec<VirtualNode> = Vec::new();
        let ghost mut picked: Seq<Seq<char>> = Seq::empty();
        let n = listed.len();
        let mut i: usize = 0;
        while i < n
            invariant
                n == listed@.len(),
                n == ks.len(),
                i <= n,
                ks.no_duplicates(),
                forall|j: int| 0 <= j < ks.len() ==> #[trigger] listed@[j].0@ == ks[j] && *listed@[j].1 == d.entries[ks[j]],
                forall|k: Seq<char>| #[trigger] ks.contains(k) <==> (d.entries.contains_key(k) && visible(d.entries[k])),
                picked.no_duplicates(),
                out@.len() == picked.len(),
                forall|a: int| 0 <= a < picked.len() ==> #[trigger] out@[a]@ == d.entries[picked[a]].kind->node@,
                forall|k: Seq<char>| #[trigger] picked.contains(k) <==> (ks.subrange(0, i as int).contains(k)
                    && d.entries[k].kind is Virtual),
            decreases n - i,
        {
            let (_name, cn) = listed[i];
            let ghost k = ks[i as int];
            let ghost old_picked = picked;
            let ghost old_out = out@;
            assert(listed@[i as int].0@ == ks[i as int]);
            assert(*cn == d.entries[k]);
            proof {
                assert(!old_picked.contains(k)) by {
                    if old_picked.contains(k) {
                        let s0 = ks.subrange(0, i as int);
                        assert(s0.contains(k));
                        let a = choose|a: int| 0 <= a < s0.len() && #[trigger] s0[a] == k;
                        assert(ks[a] == k);
                    }
                }
            }
            let ghost virt = cn.kind is Virtual;
            match &cn.kind {
                CachedNodeKind::Virtual { node, .. } => {
                    out.push(node.duplicate());
                    proof {
                        picked = picked.push(k);
                        assert(d.entries[k].kind is Virtual);
                        assert forall|a: int| 0 <= a < picked.len() implies #[trigger] out@[a]@ == d.entries[picked[a]].kind->node@ by {
                            if a < old_picked.len() {
                                assert(out@[a] == old_out[a]);
                                assert(picked[a] == old_picked[a]);
                            }
                        }
                    }
                },
                CachedNodeKind::Real { .. } => {},
            }
            proof {
                let s0 = ks.subrange(0, i as int);
                let s1 = ks.subrange(0, i + 1);
                assert(s1[i as int] == k);
                assert(picked == if virt { old_picked.push(k) } else { old_picked });
                assert forall|x: Seq<char>| #[trigger] picked.contains(x) <==> (s1.contains(x)
                    && d.entries[x].kind is Virtual) by {
                    let in0 = s0.contains(x);
                    if s1.contains(x) && x != k {
                        let a = choose|a: int| 0 <= a < s1.len() && #[trigger] s1[a] == x;
                        assert(s0[a] == x);
                    }
                    if in0 {
                        let a = choose|a: int| 0 <= a < s0.len() && #[trigger] s0[a] == x;
                        assert(s1[a] == x);
                    }
                    assert(old_picked.contains(x) <==> (in0 && d.entries[x].kind is Virtual));
                    if virt {
                        if picked.contains(x) {
                            let a = choose|a: int| 0 <= a < picked.len() && #[trigger] picked[a] == x;
                            if a < old_picked.len() {
                                assert(old_picked[a] == x);
                            }
                        }
                        if x == k {
                            assert(picked[picked.len() - 1] == k);
                        }
                        if old_picked.contains(x) {
                            let a = choose|a: int| 0 <= a < old_picked.len() && #[trigger] old_picked[a] == x;
                            assert(picked[a] == x);
                        }
                    }
                }
            }
            i = i + 1;
        }
        proof {
            assert(ks.subrange(0, n as int) =~= ks);
            assert forall|k: Seq<char>| #[trigger] picked.contains(k) <==> (d.entries.contains_key(k) && listed_virtual(d.entries[k])) by {}
        }
        Ok(out)
    }

    /// The entry at `path` is looked up in its directory; a virtual node
    /// there is returned as a copy, a real entry or nothing as `None`.
    fn lookup(&mut self, path: &VfsPath) -> (r: Result<Option<VirtualNode>, DispatchError>)
        ensures
            path@.len() == 0 ==> r matches Ok(None),
            path@.len() > 0 ==> final(self).wf(),
            r matches Ok(Some(n)) ==> path@.len() > 0 && ({
                let key = join_segments(path@.drop_last());
                let fv = final(self).cache.view();
                &&& fv.contains_key(key)
                &&& fv[key]@.entries.contains_key(path@.last())
                &&& fv[key]@.entries[path@.last()].kind matches CachedNodeKind::Virtual { node, .. }
                &&& node@ == n@
            }),
            path@.len() > 0 && r is Ok ==> ({
                let key = join_segments(path@.drop_last());
                let fv = final(self).cache.view();
                r->Ok_0 is Some <==> (fv.contains_key(key) && fv[key]@.entries.contains_key(path@.last())
                    && fv[key]@.entries[path@.last()].kind is Virtual)
            }),
            path@.len() > 0 && ({
                let key = join_segments(path@.drop_last());
                let v0 = old(self).cache.view();
                fresh_in(v0, key, old(self).content_cache.gens()) && v0[key]@.entries.contains_key(path@.last())
            }) ==> r is Ok && final(self).cache.view() == old(self).cache.view(),
    {
        let parent = match path.parent() {
            Some(p) => p,
            None => return Ok(None),
        };
        let name = match path.name() {
            Some(n) => n,
            None => return Ok(None),
        };
        let ctx = RequestContext { path: &parent };
        match self.lookup_name(name, &ctx) {
            Ok(_) => {},
            Err(e) => return Err(e),
        }
        match self.cache.get(&parent) {
            Some(dir) => match dir.get(name) {
                Some(cn) => match &cn.kind {
                    CachedNodeKind::Virtual { node, .. } => Ok(Some(node.duplicate())),
                    CachedNodeKind::Real { .. } => Ok(None),
                },
                None => Ok(None),
            },
            None => Ok(None),
        }
    }
}

} // verus!

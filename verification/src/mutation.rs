//! Mutations of the filesystem: the operations providers may intercept.

use vstd::prelude::*;
use vstd::string::*;
use crate::cache::{fresh_dir, unresolved, CachedNode, CachedNodeKind, DirView, NodeEntry, NodeSource};
use crate::err::{handler_failure, inode_not_found, invalid_path, io_err, DispatchError, ErrorKind};
use crate::events::{EventSink, KernelNotifier};
use crate::lookup::{fresh_in, ClaimOp};
use crate::content_cache::generation_of;
use crate::events::InvalidationEvent;
use crate::resolve::OwnedNode;
use crate::node::FileKind;
use crate::path::{join_segments, law_text_determines_path, valid_segment, VfsPath};
use crate::real_fs::{FsCall, RealFs};
use crate::resolve::id_views;
use crate::provider::ProviderId;
use crate::registry::Provider;
use crate::router::{dir_parent_inode, insert_node, same_services, InodeEntry, ResolvedInode, Router};
use crate::routing::ctx::{RenameContext, RequestContext};

verus! {

/// A mutation of the real filesystem that a provider may intercept.
pub enum MutationOp {
    Rename { from: VfsPath, to: VfsPath },
    Unlink { path: VfsPath },
    Rmdir { path: VfsPath },
    Create { path: VfsPath },
    Mkdir { path: VfsPath },
}

/// Whether a provider carried out a mutation itself.
#[derive(Debug, Clone, Copy, PartialEq, Eq, Structural)]
pub enum MutationOutcome {
    Handled,
    NotHandled,
}

/// The inode table sends `inode` to the entry `name` of the directory
/// `dir`, and that directory caches `name` under `inode`: what an inode
/// needs to be resolved.
pub open spec fn resolves_to(
    cache: Map<Seq<char>, crate::cache::DirState>,
    inodes: Map<u64, InodeEntry>,
    inode: u64,
    dir: Seq<Seq<char>>,
    name: Seq<char>,
) -> bool {
    &&& inodes.contains_key(inode)
    &&& inodes[inode].dir_path@ == dir
    &&& inodes[inode].name@ == name
    &&& cache.contains_key(join_segments(dir))
    &&& cache[join_segments(dir)]@.entries.contains_key(name)
    &&& cache[join_segments(dir)]@.entries[name].inode == inode
}

/// `text` followed by `a`, `b` and `c`.
fn message(text: &str, a: &str, b: &str, c: &str) -> (r: String)
    ensures
        r@ == text@ + a@ + b@ + c@,
{
    let mut s = text.to_owned();
    s.append(a);
    s.append(b);
    s.append(c);
    s
}

/// An entry named `name` already exists at `path`.
fn entry_exists(name: &str, path: &VfsPath) -> (r: DispatchError)
    ensures
        r.kind == ErrorKind::AlreadyExists,
        r.raw_os_error is None,
        r.message@ == "entry \""@ + name@ + "\" already exists at "@ + join_segments(path@),
{
    io_err(ErrorKind::AlreadyExists, message("entry \"", name, "\" already exists at ", path.as_str()))
}

/// No entry named `name` is cached at `path`.
fn entry_not_found(name: &str, path: &VfsPath) -> (r: DispatchError)
    ensures
        r.kind == ErrorKind::NotFound,
        r.raw_os_error is None,
        r.message@ == "entry \""@ + name@ + "\" not found at "@ + join_segments(path@),
{
    io_err(ErrorKind::NotFound, message("entry \"", name, "\" not found at ", path.as_str()))
}

/// The directory `path` is not cached.
fn dir_not_found(path: &VfsPath) -> (r: DispatchError)
    ensures
        r.kind == ErrorKind::NotFound,
        r.raw_os_error is None,
        r.message@ == "directory not found: "@ + join_segments(path@),
{
    proof { reveal_strlit(""); }
    let r = io_err(ErrorKind::NotFound, message("directory not found: ", path.as_str(), "", ""));
    assert(r.message@ =~= "directory not found: "@ + join_segments(path@));
    r
}

/// The ids of the providers of `ps` that carry out the mutation `op`
/// themselves, in order.
pub open spec fn handling_ids<P: Provider>(ps: Seq<P>, op: MutationOp) -> Seq<Seq<char>>
    decreases ps.len(),
{
    if ps.len() == 0 {
        Seq::empty()
    } else {
        let rest = handling_ids(ps.drop_last(), op);
        if ps.last().spec_handles(op) { rest.push(ps.last().spec_id()@) } else { rest }
    }
}

/// How many of the providers `ps` carry out the mutation `op` themselves.
pub open spec fn handler_count<P: Provider>(ps: Seq<P>, op: MutationOp) -> nat {
    handling_ids(ps, op).len()
}

/// The filesystem change that carries out `op`.
pub open spec fn fs_call_of(op: MutationOp) -> FsCall {
    match op {
        MutationOp::Rename { from, to } => FsCall::Rename(from@, to@),
        MutationOp::Unlink { path } => FsCall::Unlink(path@),
        MutationOp::Rmdir { path } => FsCall::Rmdir(path@),
        MutationOp::Create { path } => FsCall::CreateFile(path@),
        MutationOp::Mkdir { path } => FsCall::Mkdir(path@),
    }
}

/// Provider ids separated by `, `.
pub open spec fn ids_text(ids: Seq<Seq<char>>) -> Seq<char>
    decreases ids.len(),
{
    if ids.len() == 0 {
        Seq::empty()
    } else if ids.len() == 1 {
        ids[0]
    } else {
        ids_text(ids.drop_last()) + ", "@ + ids.last()
    }
}

/// A mutation, as the ambiguity error names it.
pub open spec fn op_text(op: MutationOp) -> Seq<char> {
    match op {
        MutationOp::Rename { from, to } => "Rename { from: "@ + join_segments(from@) + ", to: "@ + join_segments(to@) + " }"@,
        MutationOp::Unlink { path } => "Unlink { path: "@ + join_segments(path@) + " }"@,
        MutationOp::Rmdir { path } => "Rmdir { path: "@ + join_segments(path@) + " }"@,
        MutationOp::Create { path } => "Create { path: "@ + join_segments(path@) + " }"@,
        MutationOp::Mkdir { path } => "Mkdir { path: "@ + join_segments(path@) + " }"@,
    }
}

/// The text of a mutation, as [`op_text`] gives it.
fn describe_op(op: &MutationOp) -> (r: String)
    ensures
        r@ == op_text(*op),
{
    let mut s: String;
    match op {
        MutationOp::Rename { from, to } => {
            s = "Rename { from: ".to_owned();
            s.append(from.as_str());
            s.append(", to: ");
            s.append(to.as_str());
        },
        MutationOp::Unlink { path } => {
            s = "Unlink { path: ".to_owned();
            s.append(path.as_str());
        },
        MutationOp::Rmdir { path } => {
            s = "Rmdir { path: ".to_owned();
            s.append(path.as_str());
        },
        MutationOp::Create { path } => {
            s = "Create { path: ".to_owned();
            s.append(path.as_str());
        },
        MutationOp::Mkdir { path } => {
            s = "Mkdir { path: ".to_owned();
            s.append(path.as_str());
        },
    }
    s.append(" }");
    s
}

/// What the providers' answers to a real mutation `op` settle, given the
/// ids of those that handled it: with none it is left to the real
/// filesystem (`None`); one handling it has done it; more are ambiguous,
/// and the error names them and the mutation.
pub fn settle_mutation(handlers: &Vec<ProviderId>, op: &MutationOp) -> (r: Option<Result<(), DispatchError>>)
    ensures
        handlers@.len() == 0 ==> r is None,
        handlers@.len() == 1 ==> r == Some(Ok::<(), DispatchError>(())),
        handlers@.len() > 1 ==> (r matches Some(Err(e)) && e.kind == ErrorKind::Other
            && e.message@ == "ambiguous mutation: providers ["@ + ids_text(id_views(handlers@)) + "] all claimed "@ + op_text(*op)),
{
    if handlers.len() > 1 {
        let mut m = "ambiguous mutation: providers [".to_owned();
        let n = handlers.len();
        let mut i: usize = 0;
        let ghost start = m@;
        assert(id_views(handlers@).subrange(0, 0) =~= Seq::<Seq<char>>::empty());
        while i < n
            invariant
                n == handlers@.len(),
                i <= n,
                m@ == start + ids_text(id_views(handlers@).subrange(0, i as int)),
            decreases n - i,
        {
            let ghost sub = id_views(handlers@).subrange(0, i + 1);
            proof {
                assert(sub.drop_last() =~= id_views(handlers@).subrange(0, i as int));
                assert(sub.last() == handlers@[i as int]@);
            }
            if i > 0 {
                m.append(", ");
            } else {
                assert(sub =~= seq![handlers@[0]@]);
            }
            m.append(handlers[i].as_str());
            i = i + 1;
        }
        assert(id_views(handlers@).subrange(0, n as int) =~= id_views(handlers@));
        m.append("] all claimed ");
        let d = describe_op(op);
        m.append(d.as_str());
        return Some(Err(io_err(ErrorKind::Other, m)));
    }
    if handlers.len() == 1 {
        return Some(Ok(()));
    }
    None
}

impl<P: Provider, F: RealFs, E: EventSink, N: KernelNotifier> Router<P, F, E, N> {
    /// The inode cached for `name` in the directory `ctx.path`; an error
    /// when the directory or the entry is not cached.
    pub fn lookup_inode_in_dir(&self, name: &str, ctx: &RequestContext) -> (r: Result<u64, DispatchError>)
        requires
            self.wf(),
        ensures
            ({
                let key = join_segments(ctx.path@);
                let v = self.cache.view();
                &&& (v.contains_key(key) && v[key]@.entries.contains_key(name@)) ==> r == Ok::<u64, DispatchError>(v[key]@.entries[name@].inode)
                &&& !(v.contains_key(key) && v[key]@.entries.contains_key(name@)) ==> (r matches Err(e) && e.kind == ErrorKind::NotFound)
            }),
    {
        let dir = match self.cache.get(ctx.path) {
            Some(d) => d,
            None => return Err(dir_not_found(ctx.path)),
        };
        match dir.get(name) {
            Some(cn) => Ok(cn.inode),
            None => Err(entry_not_found(name, ctx.path)),
        }
    }

    /// Cache a real entry just created by a mutation, returning its inode
    /// (the cached one if the name was cached already).
    pub fn insert_real_entry(&mut self, name: &str, file_type: FileKind, dir_path: &VfsPath) -> (r: u64)
        requires
            old(self).wf(),
        ensures
            final(self).wf(),
            same_services(*old(self), *final(self)),
            final(self).content_cache == old(self).content_cache,
            ({
                let key = join_segments(dir_path@);
                let v0 = old(self).cache.view();
                let od = if v0.contains_key(key) { v0[key]@ } else { fresh_dir() };
                let fv = final(self).cache.view();
                &&& fv.dom() == v0.dom().insert(key)
                &&& forall|k: Seq<char>| k != key && #[trigger] v0.contains_key(k) ==> fv[k] == v0[k]
                &&& fv[key]@ == (DirView {
                    entries: od.entries.insert(name@, CachedNode {
                        inode: r,
                        kind: CachedNodeKind::Real { file_type },
                        source: NodeSource::Mutated,
                        generation: 0,
                    }),
                    ..od
                })
                &&& od.entries.contains_key(name@) ==> r == od.entries[name@].inode
                    && final(self).inodes.view() == old(self).inodes.view()
                &&& !od.entries.contains_key(name@) ==> !old(self).inodes.view().contains_key(r)
                    && final(self).inodes.view().dom() == old(self).inodes.view().dom().insert(r)
                    && final(self).inodes.view()[r].dir_path@ == dir_path@
                    && final(self).inodes.view()[r].name@ == name@
                    && final(self).inodes.view()[r].parent_inode == dir_parent_inode(v0, dir_path@)
                    && forall|i: u64| i != r && #[trigger] old(self).inodes.view().contains_key(i)
                        ==> final(self).inodes.view()[i] == old(self).inodes.view()[i]
            }),
    {
        let parent = self.parent_inode_for_dir(dir_path);
        let mut dir = self.cache.take_dir(dir_path);
        let entry = NodeEntry { name: name.to_owned(), kind: CachedNodeKind::Real { file_type }, source: NodeSource::Mutated };
        let inode = insert_node(&mut dir, dir_path, entry, &mut self.inodes, parent);
        self.cache.put_dir(dir_path, dir);
        assert(self.cache.view().dom() =~= old(self).cache.view().dom().insert(join_segments(dir_path@)));
        inode
    }

    /// Move the cache entry `src_name` of `src_dir` to `target_name` in
    /// another directory `target_dir`, and point `inode` there.
    fn rename_cross_dir(&mut self, inode: u64, src_name: &str, src_dir: &VfsPath, target_dir: &VfsPath, target_name: &str)
        requires
            old(self).wf(),
            join_segments(src_dir@) != join_segments(target_dir@),
        ensures
            final(self).wf(),
            same_services(*old(self), *final(self)),
            final(self).content_cache == old(self).content_cache,
            ({
                let s = join_segments(src_dir@);
                let t = join_segments(target_dir@);
                let v0 = old(self).cache.view();
                let ods = if v0.contains_key(s) { v0[s]@ } else { fresh_dir() };
                let mid = v0.insert(s, final(self).cache.view()[s]);
                let odt = if mid.contains_key(t) { mid[t]@ } else { fresh_dir() };
                let fv = final(self).cache.view();
                &&& fv[s]@ == (DirView { entries: ods.entries.remove(src_name@), ..ods })
                &&& ods.entries.contains_key(src_name@) ==> fv.dom() == v0.dom().insert(s).insert(t)
                    && fv[t]@ == (DirView { entries: odt.entries.insert(target_name@, ods.entries[src_name@]), ..odt })
                &&& !ods.entries.contains_key(src_name@) ==> fv.dom() == v0.dom().insert(s)
                &&& forall|k: Seq<char>| k != s && k != t && #[trigger] v0.contains_key(k) ==> fv[k] == v0[k]
                &&& !ods.entries.contains_key(src_name@) && v0.contains_key(t) ==> fv[t] == v0[t]
                &&& old(self).inodes.view().contains_key(inode) ==> final(self).inodes.view() == old(self).inodes.view().insert(inode,
                    final(self).inodes.view()[inode])
                    && final(self).inodes.view()[inode].dir_path@ == target_dir@
                    && final(self).inodes.view()[inode].name@ == target_name@
                &&& !old(self).inodes.view().contains_key(inode) ==> final(self).inodes.view() == old(self).inodes.view()
            }),
    {
        let mut sdir = self.cache.take_dir(src_dir);
        let cached = sdir.remove_entry(src_name);
        self.cache.put_dir(src_dir, sdir);
        match cached {
            Some(node) => {
                let mut tdir = self.cache.take_dir(target_dir);
                tdir.insert(target_name.to_owned(), node);
                self.cache.put_dir(target_dir, tdir);
            },
            None => {},
        }
        let target_parent = self.parent_inode_for_dir(target_dir);
        self.inodes.update(inode, target_dir.duplicate(), target_name.to_owned(), target_parent);
        proof {
            let s = join_segments(src_dir@);
            let t = join_segments(target_dir@);
            let v0 = old(self).cache.view();
            if cached is Some {
                assert(self.cache.view().dom() =~= v0.dom().insert(s).insert(t));
            } else {
                assert(self.cache.view().dom() =~= v0.dom().insert(s));
            }
        }
    }

    /// Carry out a real-filesystem mutation: the providers may intercept
    /// it, at most one of them; if none does, the real filesystem does it,
    /// and what it gives is the result. Two or more claiming it is an
    /// error that names them.
    pub fn dispatch_real_mutation(&self, op: &MutationOp) -> (r: Result<(), DispatchError>)
        ensures
            handler_count(self.registry.providers(), *op) >= 2 ==> (r matches Err(e) && e.kind == ErrorKind::Other
                && e.message@ == "ambiguous mutation: providers ["@ + ids_text(handling_ids(self.registry.providers(), *op))
                    + "] all claimed "@ + op_text(*op)),
            handler_count(self.registry.providers(), *op) == 1 ==> r is Ok,
            handler_count(self.registry.providers(), *op) == 0 ==> self.real_fs.spec_outcome(fs_call_of(*op), r),
    {
        let providers = self.registry.active_providers();
        let mut handlers: Vec<ProviderId> = Vec::new();
        let n = providers.len();
        let mut i: usize = 0;
        while i < n
            invariant
                n == providers@.len(),
                providers@ == self.registry.providers(),
                i <= n,
                id_views(handlers@) == handling_ids(providers@.subrange(0, i as int), *op),
            decreases n - i,
        {
            let handled = match providers[i].handle_mutation(op) {
                Ok(MutationOutcome::Handled) => true,
                _ => false,
            };
            let ghost h0 = handlers@;
            if handled {
                handlers.push(providers[i].id());
                assert(id_views(handlers@) =~= id_views(h0).push(providers@[i as int].spec_id()@));
            }
            proof {
                let sub = providers@.subrange(0, i + 1);
                assert(sub.drop_last() =~= providers@.subrange(0, i as int));
                assert(sub.last() == providers@[i as int]);
            }
            i = i + 1;
        }
        assert(providers@.subrange(0, n as int) =~= providers@);
        match settle_mutation(&handlers, op) {
            Some(settled) => return settled,
            None => {},
        }
        match op {
            MutationOp::Rename { from, to } => self.real_fs.rename(from, to),
            MutationOp::Unlink { path } => self.real_fs.unlink(path),
            MutationOp::Rmdir { path } => self.real_fs.rmdir(path),
            MutationOp::Create { path } => self.real_fs.create_file(path),
            MutationOp::Mkdir { path } => self.real_fs.mkdir(path),
        }
    }

    /// Create `name` in the directory `ctx.path` through the providers:
    /// after resolving the directory, an entry already cached there is an
    /// error; a node one provider claims is cached as a mutation.
    fn provision_node(&mut self, name: &str, ctx: &RequestContext, op: ClaimOp) -> (r: Result<Option<u64>, DispatchError>)
        requires
            old(self).wf(),
            old(self).cache.view().contains_key(join_segments(ctx.path@))
                ==> old(self).cache.view()[join_segments(ctx.path@)]@.generation < u64::MAX,
        ensures
            final(self).wf(),
            same_services(*old(self), *final(self)),
            final(self).content_cache.gens() == old(self).content_cache.gens(),
            forall|i: u64| #[trigger] old(self).inodes.view().contains_key(i)
                ==> final(self).inodes.view().contains_key(i) && final(self).inodes.view()[i] == old(self).inodes.view()[i],
            r matches Ok(Some(ino)) ==> final(self).cache.view().contains_key(join_segments(ctx.path@))
                && final(self).cache.view()[join_segments(ctx.path@)]@.entries.contains_key(name@)
                && final(self).cache.view()[join_segments(ctx.path@)]@.entries[name@].inode == ino
                && final(self).cache.view()[join_segments(ctx.path@)]@.entries[name@].source == NodeSource::Mutated
                && !old(self).inodes.view().contains_key(ino)
                && final(self).inodes.view().contains_key(ino)
                && final(self).inodes.view()[ino].dir_path@ == ctx.path@
                && final(self).inodes.view()[ino].name@ == name@,
            r matches Ok(None) ==> !(final(self).cache.view().contains_key(join_segments(ctx.path@))
                && final(self).cache.view()[join_segments(ctx.path@)]@.entries.contains_key(name@)),            ({
                let key = join_segments(ctx.path@);
                let v0 = old(self).cache.view();
                fresh_in(v0, key, old(self).content_cache.gens()) && v0[key]@.entries.contains_key(name@)
                    ==> (r matches Err(e) && e.kind == ErrorKind::AlreadyExists)
            }),
            ({
                let key = join_segments(ctx.path@);
                let v0 = old(self).cache.view();
                fresh_in(v0, key, old(self).content_cache.gens()) && !v0[key]@.entries.contains_key(name@)
                    && old(self).registry.providers().len() == 0
                    ==> r == Ok::<Option<u64>, DispatchError>(None) && final(self).cache.view() == v0
            }),
    {
        let path = ctx.path;
        match self.ensure_resolved(ctx) {
            Ok(()) => {},
            Err(e) => return Err(e),
        }
        match self.cache.get(path) {
            Some(dir) => {
                if dir.get(name).is_some() {
                    return Err(entry_exists(name, path));
                }
            },
            None => {},
        }
        let owned = match self.single_claim_dispatch(op, name, ctx) {
            Ok(Some(o)) => o,
            Ok(None) => return Ok(None),
            Err(e) => return Err(e),
        };
        let parent = self.parent_inode_for_dir(path);
        let mut dir = self.cache.take_dir(path);
        let entry = NodeEntry { name: name.to_owned(), kind: owned.into_cached_kind(), source: NodeSource::Mutated };
        let inode = insert_node(&mut dir, path, entry, &mut self.inodes, parent);
        self.cache.put_dir(path, dir);
        Ok(Some(inode))
    }

    /// Create a file (or, with `mkdir`, a directory) `name` in `ctx.path`:
    /// a provider may claim it; otherwise, if the directory exists on the
    /// real filesystem, it is created there and cached. `None` when neither
    /// handles it. Events the providers emitted are processed before
    /// returning.
    fn create_or_mkdir(&mut self, name: &str, ctx: &RequestContext, mkdir: bool) -> (r: Result<Option<u64>, DispatchError>)
        requires
            old(self).wf(),
            old(self).cache.view().contains_key(join_segments(ctx.path@))
                ==> old(self).cache.view()[join_segments(ctx.path@)]@.generation < u64::MAX,
        ensures
            final(self).wf(),
            final(self).registry == old(self).registry,
            final(self).path_filter == old(self).path_filter,
            final(self).content_cache.gens() == old(self).content_cache.gens(),
            forall|i: u64| #[trigger] old(self).inodes.view().contains_key(i)
                ==> final(self).inodes.view().contains_key(i) && final(self).inodes.view()[i] == old(self).inodes.view()[i],
            r matches Ok(Some(ino)) ==> !old(self).inodes.view().contains_key(ino)
                && final(self).inodes.view().contains_key(ino)
                && final(self).inodes.view()[ino].dir_path@ == ctx.path@
                && final(self).inodes.view()[ino].name@ == name@,
            ({
                let key = join_segments(ctx.path@);
                let v0 = old(self).cache.view();
                fresh_in(v0, key, old(self).content_cache.gens()) && v0[key]@.entries.contains_key(name@)
                    ==> (r matches Err(e) && e.kind == ErrorKind::AlreadyExists)
            }),
    {
        let op = if mkdir { ClaimOp::Mkdir } else { ClaimOp::Create };
        match self.provision_node(name, ctx, op) {
            Ok(Some(inode)) => {
                self.process_events();
                return Ok(Some(inode));
            },
            Ok(None) => {},
            Err(e) => return Err(e),
        }
        let path = ctx.path;
        if !self.real_fs.is_dir(path) {
            return Ok(None);
        }
        let target = match path.join(name) {
            Ok(p) => p,
            Err(_) => return Err(invalid_path(name)),
        };
        let mop = if mkdir { MutationOp::Mkdir { path: target } } else { MutationOp::Create { path: target } };
        match self.dispatch_real_mutation(&mop) {
            Ok(()) => {},
            Err(e) => return Err(e),
        }
        let kind = if mkdir { FileKind::Directory } else { FileKind::File };
        let inode = self.insert_real_entry(name, kind, path);
        self.process_events();
        Ok(Some(inode))
    }

    /// Create the file `name` in the directory `ctx.path`.
    pub fn create_node(&mut self, name: &str, ctx: &RequestContext) -> (r: Result<Option<u64>, DispatchError>)
        requires
            old(self).wf(),
            old(self).cache.view().contains_key(join_segments(ctx.path@))
                ==> old(self).cache.view()[join_segments(ctx.path@)]@.generation < u64::MAX,
        ensures
            final(self).wf(),
            final(self).registry == old(self).registry,
            final(self).path_filter == old(self).path_filter,
            final(self).content_cache.gens() == old(self).content_cache.gens(),
            forall|i: u64| #[trigger] old(self).inodes.view().contains_key(i)
                ==> final(self).inodes.view().contains_key(i) && final(self).inodes.view()[i] == old(self).inodes.view()[i],
            r matches Ok(Some(ino)) ==> !old(self).inodes.view().contains_key(ino)
                && final(self).inodes.view().contains_key(ino)
                && final(self).inodes.view()[ino].dir_path@ == ctx.path@
                && final(self).inodes.view()[ino].name@ == name@,
            ({
                let key = join_segments(ctx.path@);
                let v0 = old(self).cache.view();
                fresh_in(v0, key, old(self).content_cache.gens()) && v0[key]@.entries.contains_key(name@)
                    ==> (r matches Err(e) && e.kind == ErrorKind::AlreadyExists)
            }),
    {
        self.create_or_mkdir(name, ctx, false)
    }

    /// Create the directory `name` in the directory `ctx.path`.
    pub fn mkdir_node(&mut self, name: &str, ctx: &RequestContext) -> (r: Result<Option<u64>, DispatchError>)
        requires
            old(self).wf(),
            old(self).cache.view().contains_key(join_segments(ctx.path@))
                ==> old(self).cache.view()[join_segments(ctx.path@)]@.generation < u64::MAX,
        ensures
            final(self).wf(),
            final(self).registry == old(self).registry,
            final(self).path_filter == old(self).path_filter,
            final(self).content_cache.gens() == old(self).content_cache.gens(),
            forall|i: u64| #[trigger] old(self).inodes.view().contains_key(i)
                ==> final(self).inodes.view().contains_key(i) && final(self).inodes.view()[i] == old(self).inodes.view()[i],
            r matches Ok(Some(ino)) ==> !old(self).inodes.view().contains_key(ino)
                && final(self).inodes.view().contains_key(ino)
                && final(self).inodes.view()[ino].dir_path@ == ctx.path@
                && final(self).inodes.view()[ino].name@ == name@,
            ({
                let key = join_segments(ctx.path@);
                let v0 = old(self).cache.view();
                fresh_in(v0, key, old(self).content_cache.gens()) && v0[key]@.entries.contains_key(name@)
                    ==> (r matches Err(e) && e.kind == ErrorKind::AlreadyExists)
            }),
    {
        self.create_or_mkdir(name, ctx, true)
    }

    /// Remove the entry `name` (a directory when `is_dir`) of `ctx.path`:
    /// a virtual node is unlinked by its provider, its content dropped and
    /// its source file's generation advanced; a real entry is removed
    /// through [`Router::dispatch_real_mutation`]. The entry then leaves
    /// the cache, and the providers' events are processed.
    pub fn remove_node(&mut self, name: &str, is_dir: bool, ctx: &RequestContext) -> (r: Result<(), DispatchError>)
        requires
            old(self).wf(),
            old(self).cache.view().contains_key(join_segments(ctx.path@))
                ==> old(self).cache.view()[join_segments(ctx.path@)]@.generation < u64::MAX,
            forall|k: Seq<char>| generation_of(old(self).content_cache.gens(), k) < u64::MAX,
        ensures
            final(self).wf(),
            final(self).registry == old(self).registry,
            final(self).path_filter == old(self).path_filter,
            forall|i: u64| #[trigger] old(self).inodes.view().contains_key(i)
                ==> final(self).inodes.view().contains_key(i) && final(self).inodes.view()[i] == old(self).inodes.view()[i],
            r is Ok ==> final(self).cache.view().contains_key(join_segments(ctx.path@))
                && !final(self).cache.view()[join_segments(ctx.path@)]@.entries.contains_key(name@),            ({
                let key = join_segments(ctx.path@);
                let v0 = old(self).cache.view();
                fresh_in(v0, key, old(self).content_cache.gens()) && !v0[key]@.entries.contains_key(name@)
                    ==> (r matches Err(e) && e.kind == ErrorKind::NotFound) && final(self).cache.view() == v0
            }),
    {
        let path = ctx.path;
        match self.ensure_resolved(ctx) {
            Ok(()) => {},
            Err(e) => return Err(e),
        }
        let inode = match self.lookup_inode_in_dir(name, ctx) {
            Ok(i) => i,
            Err(e) => return Err(e),
        };
        let resolved = match self.resolve_inode(inode) {
            Some(r) => r,
            None => return Err(inode_not_found(inode)),
        };
        match resolved {
            ResolvedInode::Virtual { node, provider_id, dir_path } => {
                let unlinked = match self.registry.find_provider(provider_id) {
                    Some(p) => {
                        let uctx = self.make_request_context(&dir_path);
                        p.unlink(&uctx, &node)
                    },
                    None => return Err(io_err(ErrorKind::Unsupported, message("no active provider for ", name, "", ""))),
                };
                match unlinked {
                    Ok(()) => {},
                    Err(e) => return Err(handler_failure(e)),
                }
                self.content_cache.invalidate(inode);
                match node.source() {
                    Some((source_file, _)) => {
                        self.content_cache.bump_file_generation(source_file);
                    },
                    None => {},
                }
            },
            ResolvedInode::Real { path: real_path, .. } => {
                let op = if is_dir { MutationOp::Rmdir { path: real_path } } else { MutationOp::Unlink { path: real_path } };
                match self.dispatch_real_mutation(&op) {
                    Ok(()) => {},
                    Err(e) => return Err(e),
                }
            },
        }
        let mut dir = self.cache.take_dir(path);
        dir.remove(name);
        self.cache.put_dir(path, dir);
        self.process_events();
        Ok(())
    }

    /// Rename the entry `src_name` of `src_ctx.path` to `target_name` in
    /// `target_dir`: a virtual node is renamed by its provider, its content
    /// dropped, its cache entry evicted and the target directory marked
    /// for re-resolution; a real entry is renamed through
    /// [`Router::dispatch_real_mutation`] and its cache entry moved,
    /// keeping its inode ([`Router::update_cache_after_real_rename`]).
    /// The providers' events are processed afterwards.
    pub fn rename_node(&mut self, src_name: &str, src_ctx: &RequestContext, target_dir: &VfsPath, target_name: &str) -> (r: Result<(), DispatchError>)
        requires
            old(self).wf(),
            old(self).cache.view().contains_key(join_segments(src_ctx.path@))
                ==> old(self).cache.view()[join_segments(src_ctx.path@)]@.generation < u64::MAX,
        ensures
            final(self).wf(),
            final(self).registry == old(self).registry,
            final(self).path_filter == old(self).path_filter,
            final(self).content_cache.gens() == old(self).content_cache.gens(),
            r is Ok && (src_ctx.path@ != target_dir@ || src_name@ != target_name@) ==> ({
                let s = join_segments(src_ctx.path@);
                &&& final(self).cache.view().contains_key(s)
                &&& !final(self).cache.view()[s]@.entries.contains_key(src_name@)
            }),            ({
                let key = join_segments(src_ctx.path@);
                let v0 = old(self).cache.view();
                fresh_in(v0, key, old(self).content_cache.gens()) && !v0[key]@.entries.contains_key(src_name@)
                    ==> (r matches Err(e) && e.kind == ErrorKind::NotFound) && final(self).cache.view() == v0
            }),
    {
        let path = src_ctx.path;
        match self.ensure_resolved(src_ctx) {
            Ok(()) => {},
            Err(e) => return Err(e),
        }
        let inode = match self.lookup_inode_in_dir(src_name, src_ctx) {
            Ok(i) => i,
            Err(e) => return Err(e),
        };
        let resolved = match self.resolve_inode(inode) {
            Some(r) => r,
            None => return Err(inode_not_found(inode)),
        };
        let target_path = match target_dir.join(target_name) {
            Ok(p) => p,
            Err(_) => return Err(invalid_path(target_name)),
        };
        match resolved {
            ResolvedInode::Virtual { node, provider_id, dir_path } => {
                let renamed = match self.registry.find_provider(provider_id) {
                    Some(p) => {
                        let rctx = self.make_request_context(&dir_path);
                        let rename_ctx = RenameContext { request: &rctx, target_path: &target_path, target_name };
                        p.rename(&rename_ctx, &node)
                    },
                    None => return Err(io_err(ErrorKind::Unsupported, message("no active provider for ", src_name, "", ""))),
                };
                match renamed {
                    Ok(()) => {},
                    Err(e) => return Err(handler_failure(e)),
                }
                self.content_cache.invalidate(inode);
                let mut dir = self.cache.take_dir(path);
                dir.remove(src_name);
                self.cache.put_dir(path, dir);
                self.cache.invalidate_dir(target_dir);
            },
            ResolvedInode::Real { path: real_path, .. } => {
                let op = MutationOp::Rename { from: real_path, to: target_path };
                match self.dispatch_real_mutation(&op) {
                    Ok(()) => {},
                    Err(e) => return Err(e),
                }
                self.update_cache_after_real_rename(inode, src_name, path, target_dir, target_name);
            },
        }
        self.process_events();
        Ok(())
    }

    /// Bring the caches up to date after the real entry `src_name` of
    /// `src_dir` was renamed to `target_name` in `target_dir`: the cache
    /// entry moves (keeping its inode, so the inode stays resolvable),
    /// the inode table points the inode at its new place, and both
    /// directories are marked for re-resolution.
    pub fn update_cache_after_real_rename(&mut self, inode: u64, src_name: &str, src_dir: &VfsPath, target_dir: &VfsPath, target_name: &str)
        requires
            old(self).wf(),
        ensures
            final(self).wf(),
            same_services(*old(self), *final(self)),
            final(self).content_cache == old(self).content_cache,
            ({
                let s = join_segments(src_dir@);
                let t = join_segments(target_dir@);
                let v0 = old(self).cache.view();
                let fv = final(self).cache.view();
                let moved = v0.contains_key(s) && v0[s]@.entries.contains_key(src_name@);
                &&& moved ==> fv.contains_key(t) && fv[t]@.entries.contains_key(target_name@)
                    && fv[t]@.entries[target_name@] == v0[s]@.entries[src_name@]
                &&& moved && (src_dir@ != target_dir@ || src_name@ != target_name@) ==> !fv[s]@.entries.contains_key(src_name@)
                &&& fv.contains_key(s) && !fv[s]@.resolved
                &&& fv.contains_key(t) ==> !fv[t]@.resolved
                &&& forall|k: Seq<char>| k != s && k != t && #[trigger] v0.contains_key(k) ==> fv[k]@ == v0[k]@
                &&& old(self).inodes.view().contains_key(inode) ==> final(self).inodes.view() == old(self).inodes.view().insert(inode,
                    final(self).inodes.view()[inode])
                    && final(self).inodes.view()[inode].dir_path@ == target_dir@
                    && final(self).inodes.view()[inode].name@ == target_name@
                &&& !old(self).inodes.view().contains_key(inode) ==> final(self).inodes.view() == old(self).inodes.view()
                &&& moved && old(self).inodes.view().contains_key(inode) && v0[s]@.entries[src_name@].inode == inode
                    ==> resolves_to(fv, final(self).inodes.view(), inode, target_dir@, target_name@)
            }),
    {
        src_dir.check_valid();
        target_dir.check_valid();
        let ghost s = join_segments(src_dir@);
        let ghost t = join_segments(target_dir@);
        let ghost v0 = self.cache.view();
        if src_dir.equals(target_dir) {
            let mut dir = self.cache.take_dir(src_dir);
            dir.move_entry(src_name, target_name.to_owned());
            self.cache.put_dir(src_dir, dir);
            let parent = self.parent_inode_for_dir(src_dir);
            self.inodes.update(inode, src_dir.duplicate(), target_name.to_owned(), parent);
        } else {
            proof {
                if join_segments(src_dir@) == join_segments(target_dir@) {
                    law_text_determines_path(src_dir@, target_dir@);
                }
            }
            self.rename_cross_dir(inode, src_name, src_dir, target_dir, target_name);
        }
        let ghost v1 = self.cache.view();
        let ghost i1 = self.inodes.view();
        proof {
            let moved = v0.contains_key(s) && v0[s]@.entries.contains_key(src_name@);
            if moved {
                assert(v1.contains_key(t));
                assert(v1[t]@.entries.contains_key(target_name@));
                assert(v1[t]@.entries[target_name@] == v0[s]@.entries[src_name@]);
            }
            assert(v1.contains_key(s));
        }
        self.cache.invalidate_dir(src_dir);
        let ghost v2 = self.cache.view();
        self.cache.invalidate_dir(target_dir);
        proof {
            let fv = self.cache.view();
            assert(fv.dom() == v1.dom());
            assert(fv[s]@.entries == v1[s]@.entries);
            if v1.contains_key(t) {
                assert(fv[t]@.entries == v1[t]@.entries);
            }
            assert(!fv[s]@.resolved);
            assert(i1 == self.inodes.view());
            let moved = v0.contains_key(s) && v0[s]@.entries.contains_key(src_name@);
            if moved {
                assert(fv.contains_key(t) && fv[t]@.entries.contains_key(target_name@));
                assert(fv[t]@.entries[target_name@] == v0[s]@.entries[src_name@]);
                if src_dir@ != target_dir@ || src_name@ != target_name@ {
                    assert(!fv[s]@.entries.contains_key(src_name@));
                }
            }
            assert forall|k: Seq<char>| k != s && k != t && #[trigger] v0.contains_key(k) implies fv[k]@ == v0[k]@ by {
                assert(v1.contains_key(k));
                assert(v1[k] == v0[k]);
                assert(v2[k]@ == v1[k]@);
            }
            if old(self).inodes.view().contains_key(inode) {
                assert(self.inodes.view() == old(self).inodes.view().insert(inode, self.inodes.view()[inode]));
                assert(self.inodes.view()[inode].dir_path@ == target_dir@);
                assert(self.inodes.view()[inode].name@ == target_name@);
            } else {
                assert(self.inodes.view() == old(self).inodes.view());
            }
            if moved && old(self).inodes.view().contains_key(inode) && v0[s]@.entries[src_name@].inode == inode {
                assert(fv[t]@.entries[target_name@].inode == inode);
                assert(resolves_to(fv, self.inodes.view(), inode, target_dir@, target_name@));
            }
        }
    }
}

} // verus!

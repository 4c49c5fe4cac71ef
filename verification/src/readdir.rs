//! Directory listings and navigation between directory inodes.

use vstd::prelude::*;
use crate::cache::{visible, CachedNode, ProcessVisibility};
use crate::events::{EventSink, KernelNotifier};
use crate::node::FileKind;
use crate::path::{join_segments, valid_segment, VfsPath};
use crate::real_fs::{RealDirEntry, RealFs};
use crate::registry::Provider;
use crate::router::{ReaddirEntry, Router, ROOT_INODE};

verus! {

/// The parent inode of `inode` in the inode table `inodes`: the root is
/// its own parent, and so is an unknown inode.
pub open spec fn parent_of(inodes: Map<u64, crate::router::InodeEntry>, inode: u64) -> u64 {
    if inode == ROOT_INODE {
        ROOT_INODE
    } else if inodes.contains_key(inode) {
        inodes[inode].parent_inode
    } else {
        ROOT_INODE
    }
}

/// A listing entry that stands for the cached entry `n` named `name`.
pub open spec fn lists(e: ReaddirEntry, name: Seq<char>, n: CachedNode) -> bool {
    e.inode == n.inode && e.kind == n.kind.kind_of() && e.name@ == name
}

impl<P: Provider, F: RealFs, E: EventSink, N: KernelNotifier> Router<P, F, E, N> {
    /// The parent inode of `inode`; the root, and an unknown inode, have
    /// the root as parent.
    pub fn parent_inode(&self, inode: u64) -> (r: u64)
        ensures
            r == parent_of(self.inodes.view(), inode),
    {
        if inode == ROOT_INODE {
            return ROOT_INODE;
        }
        match self.inodes.get(inode) {
            Some(e) => e.parent_inode,
            None => ROOT_INODE,
        }
    }

    /// The path of the directory `inode`: the root for the root inode,
    /// else the inode's directory with its name appended.
    pub fn dir_path_for_inode(&self, inode: u64) -> (r: Option<VfsPath>)
        ensures
            inode == ROOT_INODE ==> (r matches Some(p) && p@.len() == 0),
            inode != ROOT_INODE ==> {
                let e = self.inodes.view()[inode];
                &&& r is Some <==> self.inodes.view().contains_key(inode) && valid_segment(e.name@)
                &&& r matches Some(p) ==> p@ == e.dir_path@.push(e.name@)
            },
    {
        if inode == ROOT_INODE {
            return Some(VfsPath::root());
        }
        let entry = match self.inodes.get(inode) {
            Some(e) => e,
            None => return None,
        };
        match entry.dir_path.join(entry.name.as_str()) {
            Ok(p) => Some(p),
            Err(_) => None,
        }
    }

    /// The `.` and `..` entries of the directory `dir_inode`.
    fn readdir_boilerplate(&self, dir_inode: u64) -> (r: Vec<ReaddirEntry>)
        ensures
            r@.len() == 2,
            r@[0].inode == dir_inode && r@[0].kind == FileKind::Directory && r@[0].name@ == "."@,
            r@[1].inode == parent_of(self.inodes.view(), dir_inode) && r@[1].kind == FileKind::Directory
                && r@[1].name@ == ".."@,
    {
        let mut v: Vec<ReaddirEntry> = Vec::new();
        v.push(ReaddirEntry::dot(dir_inode));
        v.push(ReaddirEntry::dotdot(self.parent_inode(dir_inode)));
        v
    }

    /// Append the entries of the real directory `dir_path`, with inode 0
    /// (assigned on lookup); nothing when it cannot be read.
    fn append_real_entries(&self, entries: &mut Vec<ReaddirEntry>, dir_path: &VfsPath)
        ensures
            final(entries)@.len() >= old(entries)@.len(),
            final(entries)@.subrange(0, old(entries)@.len() as int) == old(entries)@,
            forall|i: int| old(entries)@.len() <= i < final(entries)@.len() ==> (#[trigger] final(entries)@[i]).inode == 0,
            exists|ls: Seq<RealDirEntry>| #[trigger] ls.len() + old(entries)@.len() == final(entries)@.len()
                && forall|i: int| 0 <= i < ls.len() ==> (#[trigger] final(entries)@[old(entries)@.len() + i]) == (ReaddirEntry {
                    inode: 0,
                    kind: ls[i].file_type,
                    name: ls[i].name,
                }),
    {
        let ghost start = entries@;
        match self.real_fs.read_dir(dir_path) {
            Ok(listing) => {
                let ghost ls = listing@;
                let mut rest = listing;
                let n = rest.len();
                let mut i: usize = 0;
                while i < n
                    invariant
                        i <= n,
                        n == ls.len(),
                        rest@ == ls.subrange(i as int, n as int),
                        entries@.len() == start.len() + i,
                        entries@.subrange(0, start.len() as int) == start,
                        forall|j: int| start.len() <= j < entries@.len() ==> (#[trigger] entries@[j]).inode == 0,
                        forall|j: int| 0 <= j < i ==> (#[trigger] entries@[start.len() + j]) == (ReaddirEntry {
                            inode: 0,
                            kind: ls[j].file_type,
                            name: ls[j].name,
                        }),
                    decreases n - i,
                {
                    let ghost e0 = entries@;
                    let e = rest.remove(0);
                    proof {
                        assert(ls.subrange(i as int, n as int)[0] == ls[i as int]);
                        assert(rest@ =~= ls.subrange(i + 1, n as int));
                    }
                    entries.push(ReaddirEntry::real_entry(0, e.file_type, e.name));
                    assert(entries@.subrange(0, start.len() as int) =~= start);
                    proof {
                        assert forall|j: int| 0 <= j < i + 1 implies (#[trigger] entries@[start.len() + j]) == (ReaddirEntry {
                            inode: 0,
                            kind: ls[j].file_type,
                            name: ls[j].name,
                        }) by {
                            if j < i {
                                assert(entries@[start.len() + j] == e0[start.len() + j]);
                            }
                        }
                    }
                    i = i + 1;
                }
                assert(ls.len() + start.len() == entries@.len());
            },
            Err(_) => {
                assert(Seq::<RealDirEntry>::empty().len() + start.len() == entries@.len());
            },
        }
    }

    /// The listing of the directory `dir_path` (inode `dir_inode`): `.`
    /// and `..`, then, for a passthrough directory, its real entries
    /// (inode 0), else the cached entries a process of `visibility` sees,
    /// each once.
    pub fn collect_readdir_entries(&self, dir_path: &VfsPath, dir_inode: u64, visibility: ProcessVisibility) -> (r: Vec<ReaddirEntry>)
        requires
            self.wf(),
        ensures
            r@.len() >= 2,
            r@[0].inode == dir_inode && r@[0].kind == FileKind::Directory && r@[0].name@ == "."@,
            r@[1].inode == parent_of(self.inodes.view(), dir_inode) && r@[1].kind == FileKind::Directory
                && r@[1].name@ == ".."@,
            ({
                let key = join_segments(dir_path@);
                let v = self.cache.view();
                &&& !v.contains_key(key) ==> r@.len() == 2
                &&& v.contains_key(key) && v[key]@.passthrough ==> forall|i: int| 2 <= i < r@.len() ==> (#[trigger] r@[i]).inode == 0
                &&& v.contains_key(key) && !v[key]@.passthrough ==> {
                    let d = v[key]@;
                    exists|ks: Seq<Seq<char>>|
                        ks.no_duplicates()
                        && (forall|k: Seq<char>| #[trigger] ks.contains(k) <==> (d.entries.contains_key(k)
                            && (visibility is All || visible(d.entries[k]))))
                        && r@.len() == ks.len() + 2
                        && (forall|i: int| 0 <= i < ks.len() ==> #[trigger] lists(r@[i + 2], ks[i], d.entries[ks[i]]))
                }
            }),
    {
        let mut entries = self.readdir_boilerplate(dir_inode);
        let dir = match self.cache.get(dir_path) {
            Some(d) => d,
            None => return entries,
        };
        if dir.is_passthrough() {
            self.append_real_entries(&mut entries, dir_path);
            proof {
                assert(entries@[0] == entries@.subrange(0, 2)[0]);
                assert(entries@[1] == entries@.subrange(0, 2)[1]);
            }
            return entries;
        }
        let listed = dir.readdir_entries(visibility);
        let ghost d = dir@;
        let ghost ks = choose|ks: Seq<Seq<char>>|
            ks.no_duplicates()
            && (forall|k: Seq<char>| #[trigger] ks.contains(k) <==> (dir@.entries.contains_key(k)
                && (visibility is All || visible(dir@.entries[k]))))
            && listed@.len() == ks.len()
            && (forall|i: int| 0 <= i < ks.len() ==> #[trigger] listed@[i].0@ == ks[i]
                && *listed@[i].1 == dir@.entries[ks[i]]);
        let n = listed.len();
        let mut i: usize = 0;
        while i < n
            invariant
                n == listed@.len(),
                n == ks.len(),
                i <= n,
                entries@.len() == i + 2,
                entries@[0].inode == dir_inode && entries@[0].kind == FileKind::Directory && entries@[0].name@ == "."@,
                entries@[1].inode == parent_of(self.inodes.view(), dir_inode) && entries@[1].kind == FileKind::Directory
                    && entries@[1].name@ == ".."@,
                forall|j: int| 0 <= j < ks.len() ==> #[trigger] listed@[j].0@ == ks[j] && *listed@[j].1 == d.entries[ks[j]],
                forall|j: int| 0 <= j < i ==> #[trigger] lists(entries@[j + 2], ks[j], d.entries[ks[j]]),
            decreases n - i,
        {
            let (name, cn) = listed[i];
            entries.push(ReaddirEntry { inode: cn.inode, kind: cn.kind.file_kind(), name: name.to_owned() });
            proof {
                assert(listed@[i as int].0@ == ks[i as int]);
                assert forall|j: int| 0 <= j < i + 1 implies #[trigger] lists(entries@[j + 2], ks[j], d.entries[ks[j]]) by {
                    if j < i {
                        assert(lists(entries@[j + 2], ks[j], d.entries[ks[j]]));
                    }
                }
            }
            i = i + 1;
        }
        entries
    }

    /// The listing of the real directory `dir_path` only, for processes
    /// that must not see virtual nodes: `.`, `..`, then its real entries
    /// (inode 0).
    pub fn readdir_real(&self, dir_path: &VfsPath, dir_inode: u64) -> (r: Vec<ReaddirEntry>)
        ensures
            r@.len() >= 2,
            r@[0].inode == dir_inode && r@[0].kind == FileKind::Directory && r@[0].name@ == "."@,
            r@[1].inode == parent_of(self.inodes.view(), dir_inode) && r@[1].kind == FileKind::Directory
                && r@[1].name@ == ".."@,
            forall|i: int| 2 <= i < r@.len() ==> (#[trigger] r@[i]).inode == 0,
    {
        let mut entries = self.readdir_boilerplate(dir_inode);
        self.append_real_entries(&mut entries, dir_path);
        proof {
            assert(entries@[0] == entries@.subrange(0, 2)[0]);
            assert(entries@[1] == entries@.subrange(0, 2)[1]);
        }
        entries
    }
}

} // verus!

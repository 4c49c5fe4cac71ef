use std::cell::RefCell;

use nyne::cache::{CachedNodeKind, ProcessVisibility};
use nyne::edit::{apply_file_edits, EditOutcome, FileEditResult, ValidationResult};
use nyne::lookup::Resolver;
use nyne::err::{decimal, extract_errno, inode_not_found, io_err, DispatchError, ErrnoExt, ErrorKind, Errno};
use nyne::events::{BufferedEventSink, EventSink, InvalidationEvent, KernelNotifier};
use nyne::mutation::{MutationOp, MutationOutcome};
use nyne::node::{CachePolicy, FileKind, VirtualNode};
use nyne::path::VfsPath;
use nyne::path_filter::{decide, PathFilter, Verdict};
use nyne::provider::ProviderId;
use nyne::real_fs::{RealDirEntry, RealFs};
use nyne::registry::{Provider, ProviderRegistry};
use nyne::resolve::{ConflictInfo, ConflictResolution};
use nyne::router::{ResolvedInode, Router, ROOT_INODE};
use nyne::routing::ctx::{RenameContext, RequestContext};
use nyne::routing::tree::HandlerError;

fn vpath(s: &str) -> VfsPath {
    VfsPath::new(s).unwrap()
}

/// An in-memory real filesystem: full path text and kind of each entry.
struct MemFs {
    entries: RefCell<Vec<(String, FileKind)>>,
}

impl MemFs {
    fn new(entries: &[(&str, FileKind)]) -> Self {
        MemFs { entries: RefCell::new(entries.iter().map(|(p, k)| (p.to_string(), *k)).collect()) }
    }

    fn has(&self, path: &str) -> bool {
        self.entries.borrow().iter().any(|(p, _)| p == path)
    }
}

fn parent_and_name(p: &str) -> (&str, &str) {
    match p.rfind('/') {
        Some(i) => (&p[..i], &p[i + 1..]),
        None => ("", p),
    }
}

impl RealFs for MemFs {
    fn read_dir(&self, path: &VfsPath) -> Result<Vec<RealDirEntry>, DispatchError> {
        let dir = path.as_str();
        if !dir.is_empty() && !self.has(dir) {
            return Err(io_err(ErrorKind::NotFound, "missing".to_owned()));
        }
        Ok(self
            .entries
            .borrow()
            .iter()
            .filter(|(p, _)| parent_and_name(p).0 == dir)
            .map(|(p, k)| RealDirEntry { name: parent_and_name(p).1.to_owned(), file_type: *k })
            .collect())
    }
    fn path_exists(&self, path: &VfsPath) -> bool {
        path.as_str().is_empty() || self.has(path.as_str())
    }
    fn is_dir(&self, path: &VfsPath) -> bool {
        path.as_str().is_empty()
            || self.entries.borrow().iter().any(|(p, k)| p == path.as_str() && *k == FileKind::Directory)
    }
    fn file_type(&self, path: &VfsPath) -> Result<FileKind, DispatchError> {
        self.entries
            .borrow()
            .iter()
            .find(|(p, _)| p == path.as_str())
            .map(|(_, k)| *k)
            .ok_or_else(|| io_err(ErrorKind::NotFound, "missing".to_owned()))
    }
    fn rename(&self, from: &VfsPath, to: &VfsPath) -> Result<(), DispatchError> {
        for e in self.entries.borrow_mut().iter_mut() {
            if e.0 == from.as_str() {
                e.0 = to.as_str().to_owned();
            }
        }
        Ok(())
    }
    fn unlink(&self, path: &VfsPath) -> Result<(), DispatchError> {
        self.entries.borrow_mut().retain(|(p, _)| p != path.as_str());
        Ok(())
    }
    fn write(&self, path: &VfsPath, _content: &str) -> Result<(), DispatchError> {
        if !self.has(path.as_str()) {
            self.entries.borrow_mut().push((path.as_str().to_owned(), FileKind::File));
        }
        Ok(())
    }
    fn rmdir(&self, path: &VfsPath) -> Result<(), DispatchError> {
        self.unlink(path)
    }
    fn create_file(&self, path: &VfsPath) -> Result<(), DispatchError> {
        self.entries.borrow_mut().push((path.as_str().to_owned(), FileKind::File));
        Ok(())
    }
    fn mkdir(&self, path: &VfsPath) -> Result<(), DispatchError> {
        self.entries.borrow_mut().push((path.as_str().to_owned(), FileKind::Directory));
        Ok(())
    }
}

#[derive(Clone, Copy)]
enum Answer {
    Yield,
    Force,
    Retry(&'static str),
}

/// A provider listing fixed nodes, answering conflicts one fixed way.
struct TestProvider {
    id: &'static str,
    nodes: Vec<(&'static str, &'static str, FileKind)>,
    answer: Answer,
    claims: Vec<&'static str>,
    renames: RefCell<Vec<(String, String, String, String)>>,
}

impl TestProvider {
    fn new(id: &'static str, nodes: &[(&'static str, &'static str, FileKind)], answer: Answer) -> Self {
        TestProvider { id, nodes: nodes.to_vec(), answer, claims: Vec::new(), renames: RefCell::new(Vec::new()) }
    }
}

impl Provider for TestProvider {
    fn id(&self) -> ProviderId {
        ProviderId::new(self.id)
    }
    fn children(&self, ctx: &RequestContext) -> Result<Option<Vec<VirtualNode>>, HandlerError> {
        let here: Vec<VirtualNode> = self
            .nodes
            .iter()
            .filter(|(d, _, _)| *d == ctx.path.as_str())
            .map(|(_, n, k)| VirtualNode::new(n, *k))
            .collect();
        Ok(if here.is_empty() { None } else { Some(here) })
    }
    fn lookup(&self, _ctx: &RequestContext, name: &str) -> Result<Option<VirtualNode>, HandlerError> {
        Ok(self.claims.iter().find(|c| **c == name).map(|c| VirtualNode::file(c)))
    }
    fn create(&self, _ctx: &RequestContext, _name: &str) -> Result<Option<VirtualNode>, HandlerError> {
        Ok(None)
    }
    fn mkdir(&self, _ctx: &RequestContext, _name: &str) -> Result<Option<VirtualNode>, HandlerError> {
        Ok(None)
    }
    fn on_conflict(&self, _ctx: &RequestContext, conflict: &ConflictInfo) -> Result<ConflictResolution, HandlerError> {
        Ok(match self.answer {
            Answer::Yield => ConflictResolution::Yield,
            Answer::Force => ConflictResolution::Force(vec![VirtualNode::file(&conflict.name)]),
            Answer::Retry(n) => ConflictResolution::Retry(vec![VirtualNode::file(n)]),
        })
    }
    fn unlink(&self, _ctx: &RequestContext, _node: &VirtualNode) -> Result<(), HandlerError> {
        Ok(())
    }
    fn rename(&self, ctx: &RenameContext, node: &VirtualNode) -> Result<(), HandlerError> {
        self.renames.borrow_mut().push((
            ctx.request.path.as_str().to_owned(),
            node.name().to_owned(),
            ctx.target_path.as_str().to_owned(),
            ctx.target_name.to_owned(),
        ));
        Ok(())
    }
    fn handle_mutation(&self, _op: &MutationOp) -> Result<MutationOutcome, HandlerError> {
        Ok(MutationOutcome::NotHandled)
    }
    fn on_fs_change(&self, _changed: &[VfsPath]) -> Vec<InvalidationEvent> {
        Vec::new()
    }
}

/// A notifier that records what the kernel is told.
#[derive(Default)]
struct Recorder {
    entries: RefCell<Vec<(u64, String)>>,
}

impl KernelNotifier for Recorder {
    fn inval_inode(&self, _inode: u64) {}
    fn inval_entry(&self, parent_inode: u64, name: &str) {
        self.entries.borrow_mut().push((parent_inode, name.to_owned()));
    }
}

type TestRouter = Router<TestProvider, MemFs, BufferedEventSink, Recorder>;

fn router(providers: Vec<TestProvider>, fs: MemFs) -> TestRouter {
    Router::new(ProviderRegistry::new(providers), fs, BufferedEventSink::new(), PathFilter::new(None, Vec::new()))
}

fn entry_kind(r: &TestRouter, dir: &str, name: &str) -> Option<String> {
    let d = vpath(dir);
    let state = r.cache.get(&d)?;
    let cn = state.get(name)?;
    Some(match &cn.kind {
        CachedNodeKind::Real { .. } => "real".to_owned(),
        CachedNodeKind::Virtual { provider_id, .. } => format!("virtual:{}", provider_id.as_str()),
    })
}

#[test]
fn ensure_resolved_merges_virtual_and_real_entries() {
    let fs = MemFs::new(&[("b.txt", FileKind::File), ("src", FileKind::Directory)]);
    let mut r = router(vec![TestProvider::new("p", &[("", "a.md", FileKind::File)], Answer::Yield)], fs);
    let root = VfsPath::root();
    let ctx = RequestContext { path: &root };
    r.ensure_resolved(&ctx).unwrap();
    assert_eq!(entry_kind(&r, "", "a.md").as_deref(), Some("virtual:p"));
    assert_eq!(entry_kind(&r, "", "b.txt").as_deref(), Some("real"));
    assert_eq!(entry_kind(&r, "", "src").as_deref(), Some("real"));
    let listing = r.collect_readdir_entries(&root, ROOT_INODE, ProcessVisibility::Default);
    let names: Vec<&str> = listing.iter().map(|e| e.name.as_str()).collect();
    assert_eq!(&names[..2], &[".", ".."]);
    assert_eq!(listing.len(), 5);
    assert!(names.contains(&"a.md") && names.contains(&"b.txt") && names.contains(&"src"));
}

#[test]
fn directory_without_virtual_nodes_is_passthrough() {
    let fs = MemFs::new(&[("b.txt", FileKind::File)]);
    let mut r = router(vec![TestProvider::new("p", &[], Answer::Yield)], fs);
    let root = VfsPath::root();
    r.ensure_resolved(&RequestContext { path: &root }).unwrap();
    let dir = r.cache.get(&root).unwrap();
    assert!(dir.is_resolved() && dir.is_passthrough());
    assert!(dir.get("b.txt").is_none());
    let listing = r.collect_readdir_entries(&root, ROOT_INODE, ProcessVisibility::Default);
    assert_eq!(listing.len(), 3);
    assert_eq!(listing[2].name, "b.txt");
    assert_eq!(listing[2].inode, 0);
}

#[test]
fn re_resolving_keeps_inodes_stable() {
    let fs = MemFs::new(&[("b.txt", FileKind::File)]);
    let mut r = router(vec![TestProvider::new("p", &[("", "a.md", FileKind::File)], Answer::Yield)], fs);
    let root = VfsPath::root();
    let ctx = RequestContext { path: &root };
    let a1 = r.lookup_name("a.md", &ctx).unwrap().unwrap();
    let b1 = r.lookup_name("b.txt", &ctx).unwrap().unwrap();
    assert_ne!(a1, b1);
    r.invalidate_dir(&root);
    assert!(!r.cache.get(&root).unwrap().is_resolved());
    r.ensure_resolved(&ctx).unwrap();
    assert_eq!(r.lookup_name("a.md", &ctx).unwrap(), Some(a1));
    assert_eq!(r.lookup_name("b.txt", &ctx).unwrap(), Some(b1));
}

#[test]
fn real_entry_wins_when_provider_yields() {
    let fs = MemFs::new(&[("b.txt", FileKind::File)]);
    let mut r = router(vec![TestProvider::new("p", &[("", "b.txt", FileKind::File)], Answer::Yield)], fs);
    let root = VfsPath::root();
    r.ensure_resolved(&RequestContext { path: &root }).unwrap();
    assert_eq!(entry_kind(&r, "", "b.txt").as_deref(), Some("real"));
}

#[test]
fn forced_node_shadows_real_entry() {
    let fs = MemFs::new(&[("b.txt", FileKind::File)]);
    let mut r = router(vec![TestProvider::new("p", &[("", "b.txt", FileKind::File)], Answer::Force)], fs);
    let root = VfsPath::root();
    r.ensure_resolved(&RequestContext { path: &root }).unwrap();
    assert_eq!(entry_kind(&r, "", "b.txt").as_deref(), Some("virtual:p"));
    let dir = r.cache.get(&root).unwrap();
    match &dir.get("b.txt").unwrap().kind {
        CachedNodeKind::Virtual { node, .. } => assert!(node.shadows_real()),
        CachedNodeKind::Real { .. } => panic!("expected the forced node"),
    }
}

#[test]
fn retried_node_survives_under_new_name() {
    let fs = MemFs::new(&[("b.txt", FileKind::File)]);
    let mut r = router(vec![TestProvider::new("p", &[("", "b.txt", FileKind::File)], Answer::Retry("b.txt@"))], fs);
    let root = VfsPath::root();
    r.ensure_resolved(&RequestContext { path: &root }).unwrap();
    assert_eq!(entry_kind(&r, "", "b.txt").as_deref(), Some("real"));
    assert_eq!(entry_kind(&r, "", "b.txt@").as_deref(), Some("virtual:p"));
}

#[test]
fn colliding_providers_keep_the_first_node() {
    let fs = MemFs::new(&[]);
    let mut r = router(
        vec![
            TestProvider::new("first", &[("", "x", FileKind::Directory)], Answer::Yield),
            TestProvider::new("second", &[("", "x", FileKind::Directory), ("", "y", FileKind::File)], Answer::Yield),
        ],
        fs,
    );
    let root = VfsPath::root();
    r.ensure_resolved(&RequestContext { path: &root }).unwrap();
    assert_eq!(entry_kind(&r, "", "x").as_deref(), Some("virtual:first"));
    assert_eq!(entry_kind(&r, "", "y").as_deref(), Some("virtual:second"));
}

#[test]
fn lookup_falls_back_to_provider_claim_then_real_fs() {
    let fs = MemFs::new(&[("dir", FileKind::Directory), ("dir/real.rs", FileKind::File)]);
    let mut p = TestProvider::new("p", &[("", "v", FileKind::File)], Answer::Yield);
    p.claims = vec!["claimed"];
    let mut r = router(vec![p], fs);
    let root = VfsPath::root();
    let ctx = RequestContext { path: &root };
    let claimed = r.lookup_name("claimed", &ctx).unwrap().unwrap();
    assert_eq!(r.cache.get(&root).unwrap().get("claimed").unwrap().inode, claimed);
    assert_eq!(r.lookup_name("missing", &ctx).unwrap(), None);
    let dir = vpath("dir");
    let inode = r.lookup_real("real.rs", &RequestContext { path: &dir }).unwrap().unwrap();
    match r.resolve_inode(inode).unwrap() {
        ResolvedInode::Real { file_type, path } => {
            assert_eq!(file_type, FileKind::File);
            assert_eq!(path.as_str(), "dir/real.rs");
        }
        ResolvedInode::Virtual { .. } => panic!("expected a real entry"),
    }
    assert_eq!(r.dir_path_for_inode(inode).unwrap().as_str(), "dir/real.rs");
    assert_eq!(r.parent_inode(ROOT_INODE), ROOT_INODE);
}

#[test]
fn tied_claims_are_an_error() {
    let fs = MemFs::new(&[]);
    let mut a = TestProvider::new("a", &[], Answer::Force);
    a.claims = vec!["n"];
    let mut b = TestProvider::new("b", &[], Answer::Force);
    b.claims = vec!["n"];
    let mut r = router(vec![a, b], fs);
    let root = VfsPath::root();
    assert!(r.lookup_name("n", &RequestContext { path: &root }).is_err());
}

#[test]
fn removing_a_real_file_unlinks_and_evicts_it() {
    let fs = MemFs::new(&[("b.txt", FileKind::File)]);
    let mut r = router(vec![TestProvider::new("p", &[("", "a.md", FileKind::File)], Answer::Yield)], fs);
    let root = VfsPath::root();
    let ctx = RequestContext { path: &root };
    r.ensure_resolved(&ctx).unwrap();
    r.remove_node("b.txt", false, &ctx).unwrap();
    assert!(!r.real_fs.has("b.txt"));
    assert!(r.cache.get(&root).unwrap().get("b.txt").is_none());
    let err = r.remove_node("b.txt", false, &ctx).unwrap_err();
    assert_eq!(extract_errno(&err), Errno::NoEnt);
}

#[test]
fn renaming_a_real_file_keeps_its_inode_resolvable() {
    let fs = MemFs::new(&[("b.txt", FileKind::File), ("sub", FileKind::Directory)]);
    let mut r = router(vec![TestProvider::new("p", &[("", "a.md", FileKind::File)], Answer::Yield)], fs);
    let root = VfsPath::root();
    let ctx = RequestContext { path: &root };
    let inode = r.lookup_name("b.txt", &ctx).unwrap().unwrap();
    let sub = vpath("sub");
    r.rename_node("b.txt", &ctx, &sub, "c.txt").unwrap();
    assert!(r.real_fs.has("sub/c.txt"));
    match r.resolve_inode(inode).unwrap() {
        ResolvedInode::Real { path, .. } => assert_eq!(path.as_str(), "sub/c.txt"),
        ResolvedInode::Virtual { .. } => panic!("expected a real entry"),
    }
    assert!(r.cache.get(&root).unwrap().get("b.txt").is_none());
    assert!(!r.cache.get(&root).unwrap().is_resolved());
}

#[test]
fn renaming_a_virtual_node_asks_its_provider() {
    let fs = MemFs::new(&[("sub", FileKind::Directory)]);
    let mut r = router(vec![TestProvider::new("p", &[("", "a.md", FileKind::File)], Answer::Yield)], fs);
    let root = VfsPath::root();
    let ctx = r.make_request_context(&root);
    assert_eq!(ctx.path.as_str(), "");
    let ctx = RequestContext { path: &root };
    r.lookup_name("a.md", &ctx).unwrap().unwrap();
    let sub = vpath("sub");
    r.rename_node("a.md", &ctx, &sub, "b.md").unwrap();
    let renames = r.registry.active_providers()[0].renames.borrow().clone();
    assert_eq!(renames, vec![("".to_owned(), "a.md".to_owned(), "sub/b.md".to_owned(), "b.md".to_owned())]);
    assert!(r.cache.get(&root).unwrap().get("a.md").is_none());
}

#[test]
fn creating_a_real_file_caches_it() {
    let fs = MemFs::new(&[("b.txt", FileKind::File)]);
    let mut r = router(vec![TestProvider::new("p", &[("", "a.md", FileKind::File)], Answer::Yield)], fs);
    let root = VfsPath::root();
    let ctx = RequestContext { path: &root };
    let inode = r.create_node("new.txt", &ctx).unwrap().unwrap();
    assert!(r.real_fs.has("new.txt"));
    assert_eq!(r.cache.get(&root).unwrap().get("new.txt").unwrap().inode, inode);
    let err = r.create_node("new.txt", &ctx).unwrap_err();
    assert_eq!(extract_errno(&err), Errno::Exist);
    let d = r.mkdir_node("newdir", &ctx).unwrap().unwrap();
    assert!(r.real_fs.is_dir(&vpath("newdir")));
    assert_ne!(d, inode);
}

#[test]
fn fs_changes_bump_generations_and_unresolve_parents() {
    let fs = MemFs::new(&[("src", FileKind::Directory), ("src/lib.rs", FileKind::File)]);
    let mut r = router(vec![TestProvider::new("p", &[("src", "lib.rs@", FileKind::Directory)], Answer::Yield)], fs);
    r.set_kernel_notifier(Recorder::default());
    let src = vpath("src");
    r.ensure_resolved(&RequestContext { path: &src }).unwrap();
    assert!(r.cache.get(&src).unwrap().is_resolved());
    let changed = vpath("src/lib.rs");
    assert_eq!(r.content_cache.file_generation(&changed), 0);
    r.handle_fs_changes(&[changed.duplicate()]);
    assert_eq!(r.content_cache.file_generation(&changed), 1);
    assert!(!r.cache.get(&src).unwrap().is_resolved());
    let told = r.kernel_notifier.as_ref().unwrap().entries.borrow().clone();
    assert!(told.iter().any(|(_, n)| n == "lib.rs"));
}

#[test]
fn content_is_cached_until_written() {
    let fs = MemFs::new(&[]);
    let mut r = router(vec![TestProvider::new("p", &[], Answer::Yield)], fs);
    let node = VirtualNode::file("OVERVIEW.md").with_source(vpath("src/lib.rs"), 0);
    let pid = ProviderId::new("p");
    let first = r.read_content(7, &node, pid, || Ok(b"one".to_vec())).unwrap();
    assert_eq!(first, b"one");
    let cached = r.read_content(7, &node, pid, || Ok(b"two".to_vec())).unwrap();
    assert_eq!(cached, b"one");
    assert_eq!(r.content_cache_size(7), Some(3));
    let outcome: Result<u8, DispatchError> = r.write_content(7, &node, || Ok(1u8));
    assert_eq!(outcome.unwrap(), 1);
    assert_eq!(r.content_cache.file_generation(&vpath("src/lib.rs")), 1);
    assert_eq!(r.content_cache_size(7), None);
    let fresh = r.read_content(7, &node, pid, || Ok(b"three".to_vec())).unwrap();
    assert_eq!(fresh, b"three");
    let never = VirtualNode::file("live").with_cache_policy(CachePolicy::Never);
    r.read_content(8, &never, pid, || Ok(b"x".to_vec())).unwrap();
    assert_eq!(r.content_cache_size(8), None);
}

#[test]
fn errno_follows_error_kind() {
    assert_eq!(extract_errno(&io_err(ErrorKind::NotFound, String::new())), Errno::NoEnt);
    assert_eq!(extract_errno(&io_err(ErrorKind::AlreadyExists, String::new())), Errno::Exist);
    assert_eq!(extract_errno(&io_err(ErrorKind::PermissionDenied, String::new())), Errno::Access);
    assert_eq!(extract_errno(&io_err(ErrorKind::InvalidInput, String::new())), Errno::Inval);
    assert_eq!(extract_errno(&io_err(ErrorKind::Unsupported, String::new())), Errno::NotSup);
    assert_eq!(extract_errno(&io_err(ErrorKind::Other, String::new())), Errno::Io);
    let raw: Result<(), i32> = Err(13);
    assert_eq!(extract_errno(&raw.into_dispatch().unwrap_err()), Errno::Raw(13));
    let e = inode_not_found(42);
    assert_eq!(e.message, "inode 42 not found");
    assert_eq!(decimal(0), "0");
    assert_eq!(decimal(1907), "1907");
}

#[test]
fn gitignore_verdicts_decide_skipping() {
    assert!(!decide(&[]));
    assert!(!decide(&[Verdict::NoMatch]));
    assert!(decide(&[Verdict::NoMatch, Verdict::Ignore, Verdict::Whitelist]));
    assert!(!decide(&[Verdict::Whitelist, Verdict::Ignore]));
    let filter = PathFilter::new(Some(".git".to_owned()), Vec::new());
    assert!(filter.is_skippable(&vpath(".git/HEAD")));
    assert!(!filter.is_skippable(&vpath("src/lib.rs")));
    assert!(!filter.is_skippable(&VfsPath::root()));
}

#[test]
fn path_text_round_trips() {
    let p = vpath("src/lib.rs@/symbols");
    let q = VfsPath::new(p.as_str()).unwrap();
    assert!(q.equals(&p));
    assert_eq!(q.depth(), 3);
    assert!(VfsPath::new("a//b").is_err());
    let joined = p.join("Foo").unwrap();
    assert!(joined.parent().unwrap().equals(&p));
    assert_eq!(joined.name(), Some("Foo"));
}

#[test]
fn provider_events_are_processed() {
    let fs = MemFs::new(&[("b.txt", FileKind::File)]);
    let mut r = router(vec![TestProvider::new("p", &[("", "a.md", FileKind::File)], Answer::Yield)], fs);
    let root = VfsPath::root();
    r.ensure_resolved(&RequestContext { path: &root }).unwrap();
    r.events.emit(InvalidationEvent::Provider { provider_id: ProviderId::new("p") });
    r.process_events();
    assert!(r.cache.get(&root).unwrap().get("a.md").is_none());
    assert!(r.cache.get(&root).unwrap().get("b.txt").is_some());
    assert!(!r.cache.get(&root).unwrap().is_resolved());
}

#[test]
fn resolver_lists_and_looks_up_virtual_nodes() {
    let fs = MemFs::new(&[("b.txt", FileKind::File)]);
    let mut r = router(
        vec![TestProvider::new("p", &[("", "a.md", FileKind::File), ("", "c.md", FileKind::File)], Answer::Yield)],
        fs,
    );
    let root = VfsPath::root();
    let mut names: Vec<String> = r.resolve(&root).unwrap().iter().map(|n| n.name().to_owned()).collect();
    names.sort();
    assert_eq!(names, vec!["a.md".to_owned(), "c.md".to_owned()]);
    let found = r.lookup(&vpath("a.md")).unwrap().unwrap();
    assert_eq!(found.name(), "a.md");
    assert!(r.lookup(&vpath("b.txt")).unwrap().is_none());
    assert!(r.lookup(&VfsPath::root()).unwrap().is_none());
}

#[test]
fn file_edits_are_applied_in_plan_order() {
    let fs = MemFs::new(&[("old.rs", FileKind::File), ("gone.rs", FileKind::File)]);
    let edits = vec![
        FileEditResult {
            source_file: vpath("old.rs"),
            display_path: "old.rs".to_owned(),
            original: "a".to_owned(),
            modified: "b".to_owned(),
            outcome: EditOutcome::Rename { new_path: vpath("new.rs") },
            validation: ValidationResult::Pass,
        },
        FileEditResult {
            source_file: vpath("gone.rs"),
            display_path: "gone.rs".to_owned(),
            original: "x".to_owned(),
            modified: String::new(),
            outcome: EditOutcome::Delete,
            validation: ValidationResult::Skipped,
        },
        FileEditResult {
            source_file: vpath("fresh.rs"),
            display_path: "fresh.rs".to_owned(),
            original: String::new(),
            modified: "fn main() {}".to_owned(),
            outcome: EditOutcome::Create,
            validation: ValidationResult::Pass,
        },
    ];
    apply_file_edits(&edits, &fs).unwrap();
    assert!(!fs.has("old.rs") && fs.has("new.rs"));
    assert!(!fs.has("gone.rs"));
    assert!(fs.has("fresh.rs"));
}

use nyne::cache::{CachedNodeKind, DirState, NodeEntry, NodeSource};
use nyne::cli::{check_session_ids, session_id_for, DuplicateSessionId, MountSpec, SessionArgs};
use nyne::edit::{plan_file_edits, EditOutcome, FileEditResult, FsAction, ValidationResult};
use nyne::events::{BufferedEventSink, EventSink, InvalidationEvent, LoggingEventSink, WriteMode};
use nyne::format::{ascii_words, format_git_date, to_kebab, truncate_kebab, unified_diff};
use nyne::node::{FileKind, VirtualNode};
use nyne::path::VfsPath;
use nyne::provider::ProviderId;
use nyne::registry::{ControlCommand, ControlRegistry, NamedRegistry, Provider, ProviderRegistry};
use nyne::resolve::{
    apply_force_resolution, collect_conflict_responses, detect_collisions, gather_children, panic_message,
    resolve_competing_claims, settle_real_conflict, split_real_conflicts, ClaimError, ConflictInfo, ConflictResolution,
    OwnedNode,
    PanicPayload,
};
use nyne::router::{insert_node, InodeEntry, InodeMap, ReaddirEntry, ResolvedInode};
use nyne::mutation::{settle_mutation, MutationOp, MutationOutcome};
use nyne::lookup::compose_children;
use nyne::err::{inode_not_found, invalid_path, not_found};
use nyne::pattern::PatternError;
use nyne::routing::ctx::{RenameContext, RequestContext};
use nyne::routing::tree::HandlerError;
use nyne::script::{provider_script_address, script_address, ScriptRegistry};

fn vpath(s: &str) -> VfsPath {
    VfsPath::new(s).unwrap()
}

fn owned(name: &str, pid: &'static str) -> OwnedNode {
    OwnedNode { node: VirtualNode::file(name), provider_id: ProviderId::new(pid) }
}

fn names(nodes: &[OwnedNode]) -> Vec<(&str, &str)> {
    nodes.iter().map(|o| (o.node.name(), o.provider_id.as_str())).collect()
}

#[test]
fn gather_children_attributes_and_reports_total_failure() {
    let ok = gather_children(vec![
        (ProviderId::new("a"), Some(Ok(Some(vec![VirtualNode::file("x"), VirtualNode::file("y")])))),
        (ProviderId::new("b"), Some(Err(HandlerError { message: "boom".to_owned() }))),
        (ProviderId::new("c"), None),
        (ProviderId::new("d"), Some(Ok(Some(vec![VirtualNode::file("z")])))),
    ])
    .unwrap();
    assert_eq!(names(&ok), vec![("x", "a"), ("y", "a"), ("z", "d")]);

    let declined = gather_children(vec![
        (ProviderId::new("a"), Some(Ok(None))),
        (ProviderId::new("b"), Some(Err(HandlerError { message: "boom".to_owned() }))),
    ]);
    assert!(declined.unwrap().is_empty());

    let failed = gather_children(vec![
        (ProviderId::new("a"), Some(Err(HandlerError { message: "first".to_owned() }))),
        (ProviderId::new("b"), Some(Err(HandlerError { message: "last".to_owned() }))),
    ]);
    assert_eq!(failed.err().unwrap().message, "last");
    assert!(gather_children(vec![]).unwrap().is_empty());
}

#[test]
fn collisions_are_names_of_several_providers() {
    let nodes = vec![owned("a", "p"), owned("b", "p"), owned("a", "q"), owned("a", "p"), owned("c", "r"), owned("c", "r")];
    let collisions = detect_collisions(&nodes);
    assert_eq!(collisions.len(), 1);
    assert_eq!(collisions[0].0, "a");
    let ids: Vec<&str> = collisions[0].1.iter().map(ProviderId::as_str).collect();
    assert_eq!(ids, vec!["p", "q"]);
    assert!(detect_collisions(&[]).is_empty());
    let reversed = detect_collisions(&[owned("n", "zeta"), owned("n", "beta"), owned("n", "alpha")]);
    let ids: Vec<&str> = reversed[0].1.iter().map(ProviderId::as_str).collect();
    assert_eq!(ids, vec!["alpha", "beta", "zeta"]);
}

#[test]
fn conflict_answers_are_collected_in_order() {
    let outcome = collect_conflict_responses(vec![
        (ProviderId::new("a"), Some(Ok(ConflictResolution::Yield))),
        (ProviderId::new("b"), Some(Ok(ConflictResolution::Force(vec![VirtualNode::file("n")])))),
        (ProviderId::new("c"), Some(Ok(ConflictResolution::Retry(vec![VirtualNode::file("n2"), VirtualNode::file("n3")])))),
        (ProviderId::new("d"), Some(Err(HandlerError { message: "failed".to_owned() }))),
        (ProviderId::new("e"), None),
    ]);
    assert_eq!(outcome.forces.len(), 1);
    assert_eq!(outcome.forces[0].0.as_str(), "b");
    assert_eq!(names(&outcome.retries), vec![("n2", "c"), ("n3", "c")]);
}

#[test]
fn force_resolution_single_winner_shadows_real() {
    assert!(apply_force_resolution(vec![]).is_none());
    let won = apply_force_resolution(vec![(ProviderId::new("p"), vec![VirtualNode::file("n")])]).unwrap();
    assert_eq!(names(&won), vec![("n", "p")]);
    assert!(won[0].node.shadows_real());
    let tied = apply_force_resolution(vec![
        (ProviderId::new("p"), vec![VirtualNode::file("n")]),
        (ProviderId::new("q"), vec![VirtualNode::file("n")]),
    ]);
    assert!(tied.is_none());
}

#[test]
fn competing_claims() {
    let claims = || vec![owned("n", "p"), owned("n", "q")];
    assert!(resolve_competing_claims(claims(), &[]).unwrap().is_none());
    let won = resolve_competing_claims(claims(), &[ProviderId::new("q")]).unwrap().unwrap();
    assert_eq!(won.provider_id.as_str(), "q");
    assert!(resolve_competing_claims(claims(), &[ProviderId::new("z")]).unwrap().is_none());
    assert_eq!(
        resolve_competing_claims(claims(), &[ProviderId::new("p"), ProviderId::new("q")]).err(),
        Some(ClaimError::TiedForce(2))
    );
}

#[test]
fn real_conflicts_split_and_settle() {
    let (kept, groups) = split_real_conflicts(
        vec![owned("a", "p"), owned("README", "p"), owned("b", "q"), owned("README", "q"), owned("Cargo.toml", "q")],
        &["README", "Cargo.toml", "src"],
    );
    assert_eq!(names(&kept), vec![("a", "p"), ("b", "q")]);
    assert_eq!(groups.len(), 2);
    let readme = groups.iter().find(|(n, _)| n == "README").unwrap();
    assert_eq!(names(&readme.1), vec![("README", "p"), ("README", "q")]);

    let (won, shadowed) = settle_real_conflict(vec![(ProviderId::new("p"), vec![VirtualNode::file("README")])], vec![], &["README"]);
    assert!(shadowed);
    assert!(won[0].node.shadows_real());

    let (retried, shadowed) =
        settle_real_conflict(vec![], vec![owned("README", "q"), owned("README.virtual", "q")], &["README"]);
    assert!(!shadowed);
    assert_eq!(names(&retried), vec![("README.virtual", "q")]);
}

#[test]
fn panic_messages() {
    assert_eq!(panic_message(&PanicPayload::Static("boom")), "boom");
    assert_eq!(panic_message(&PanicPayload::Formatted("bang 3".to_owned())), "bang 3");
    assert_eq!(panic_message(&PanicPayload::Opaque), "non-string panic");
}

#[test]
fn owned_node_becomes_virtual_entry() {
    match owned("x", "p").into_cached_kind() {
        CachedNodeKind::Virtual { node, provider_id } => {
            assert_eq!(node.name(), "x");
            assert_eq!(provider_id.as_str(), "p");
        }
        CachedNodeKind::Real { .. } => panic!("expected a virtual entry"),
    }
}

#[test]
fn named_registry_last_registration_wins() {
    let reg = NamedRegistry::from_entries("test", vec![("a", 1), ("b", 2), ("a", 3)]);
    assert_eq!(reg.get("a"), Some(&3));
    assert_eq!(reg.get("b"), Some(&2));
    assert_eq!(reg.get("c"), None);
}

#[test]
fn dispatch_returns_none_for_unknown_command() {
    let registry: ControlRegistry<fn(i32, &str) -> String> = ControlRegistry::from_commands(vec![]);
    assert!(registry.dispatch("Unknown", 0, "ctx").is_none());
}

fn pong(_payload: i32, _ctx: &str) -> String {
    "Pong".to_owned()
}

fn echo(payload: i32, ctx: &str) -> String {
    format!("{ctx}:{payload}")
}

#[test]
fn dispatch_calls_registered_handler() {
    let registry: ControlRegistry<fn(i32, &str) -> String> =
        ControlRegistry::from_commands(vec![ControlCommand { name: "Ping", handler: pong }]);
    assert_eq!(registry.dispatch("Ping", 0, "ctx"), Some("Pong".to_owned()));
}

#[test]
fn dispatch_passes_payload_to_handler() {
    let registry: ControlRegistry<fn(i32, &str) -> String> = ControlRegistry::from_commands(vec![
        ControlCommand { name: "Echo", handler: pong },
        ControlCommand { name: "Echo", handler: echo },
    ]);
    assert_eq!(registry.dispatch("Echo", 42, "ctx"), Some("ctx:42".to_owned()));
    assert!(registry.handler("Echo").is_some());
}

struct Stub(&'static str);

impl Provider for Stub {
    fn id(&self) -> ProviderId {
        ProviderId::new(self.0)
    }
    fn children(&self, _ctx: &RequestContext) -> Result<Option<Vec<VirtualNode>>, HandlerError> {
        Ok(None)
    }
    fn lookup(&self, _ctx: &RequestContext, _name: &str) -> Result<Option<VirtualNode>, HandlerError> {
        Ok(None)
    }
    fn create(&self, _ctx: &RequestContext, _name: &str) -> Result<Option<VirtualNode>, HandlerError> {
        Ok(None)
    }
    fn mkdir(&self, _ctx: &RequestContext, _name: &str) -> Result<Option<VirtualNode>, HandlerError> {
        Ok(None)
    }
    fn on_conflict(&self, _ctx: &RequestContext, _conflict: &ConflictInfo) -> Result<ConflictResolution, HandlerError> {
        Ok(ConflictResolution::Yield)
    }
    fn unlink(&self, _ctx: &RequestContext, _node: &VirtualNode) -> Result<(), HandlerError> {
        Ok(())
    }
    fn rename(&self, _ctx: &RenameContext, _node: &VirtualNode) -> Result<(), HandlerError> {
        Ok(())
    }
    fn handle_mutation(&self, _op: &MutationOp) -> Result<MutationOutcome, HandlerError> {
        Ok(MutationOutcome::NotHandled)
    }
    fn on_fs_change(&self, _changed: &[VfsPath]) -> Vec<InvalidationEvent> {
        Vec::new()
    }
}

#[test]
fn provider_registry_finds_first_by_id() {
    let empty: ProviderRegistry<Stub> = ProviderRegistry::empty();
    assert!(empty.active_providers().is_empty());
    assert!(empty.find_provider(ProviderId::new("git")).is_none());
    let reg = ProviderRegistry::new(vec![Stub("git"), Stub("source")]);
    assert_eq!(reg.active_providers().len(), 2);
    assert_eq!(reg.find_provider(ProviderId::new("source")).unwrap().0, "source");
    assert!(reg.find_provider(ProviderId::new("lsp")).is_none());
}

#[test]
fn buffered_sink_drains_in_order() {
    let mut sink = BufferedEventSink::new();
    sink.emit(InvalidationEvent::Subtree { path: vpath("a") });
    sink.emit(InvalidationEvent::Provider { provider_id: ProviderId::new("p") });
    let drained = sink.drain();
    assert_eq!(drained.len(), 2);
    assert!(matches!(drained[0], InvalidationEvent::Subtree { .. }));
    assert!(sink.drain().is_empty());
    let mut logging = LoggingEventSink;
    logging.emit(InvalidationEvent::Node { provider_id: ProviderId::new("p"), vpath: vpath("a/b") });
    assert!(logging.drain().is_empty());
    assert_ne!(WriteMode::Normal, WriteMode::Truncate);
}

#[test]
fn inode_map_allocates_fresh_numbers() {
    let mut inodes = InodeMap::new();
    let a = inodes.allocate(InodeEntry { dir_path: VfsPath::root(), name: "a".to_owned(), parent_inode: 1 });
    let b = inodes.allocate(InodeEntry { dir_path: VfsPath::root(), name: "b".to_owned(), parent_inode: 1 });
    assert_eq!(a, 2);
    assert_ne!(a, b);
    assert_eq!(inodes.get(b).unwrap().name, "b");
    assert!(inodes.get(0).is_none());
    assert!(inodes.get(1).is_none());
    assert!(inodes.get(99).is_none());
    inodes.update(a, vpath("d"), "renamed".to_owned(), 7);
    let e = inodes.get(a).unwrap();
    assert_eq!((e.dir_path.as_str(), e.name.as_str(), e.parent_inode), ("d", "renamed", 7));
}

#[test]
fn insert_node_keeps_inodes_stable() {
    let mut inodes = InodeMap::new();
    let mut dir = DirState::new();
    dir.begin_resolve();
    let dir_path = vpath("src");
    let entry = |name: &str, source| NodeEntry {
        name: name.to_owned(),
        kind: CachedNodeKind::Virtual { node: VirtualNode::file(name), provider_id: ProviderId::new("p") },
        source,
    };
    let first = insert_node(&mut dir, &dir_path, entry("a", NodeSource::Children), &mut inodes, 1);
    let again = insert_node(&mut dir, &dir_path, entry("a", NodeSource::Lookup), &mut inodes, 1);
    assert_eq!(first, again);
    assert_eq!(dir.get("a").unwrap().generation, 0);
    let other = insert_node(&mut dir, &dir_path, entry("b", NodeSource::Derived), &mut inodes, 1);
    assert_ne!(other, first);
    assert_eq!(dir.get("b").unwrap().generation, 1);
    assert_eq!(inodes.get(other).unwrap().dir_path.as_str(), "src");
}

#[test]
fn readdir_entries_and_resolved_paths() {
    let dot = ReaddirEntry::dot(5);
    assert_eq!((dot.inode, dot.kind, dot.name.as_str()), (5, FileKind::Directory, "."));
    assert_eq!(ReaddirEntry::dotdot(1).name, "..");
    assert_eq!(ReaddirEntry::real_entry(9, FileKind::File, "f".to_owned()).inode, 9);
    let real = ResolvedInode::Real { file_type: FileKind::File, path: vpath("a/b.rs") };
    assert_eq!(real.path_str(), "a/b.rs");
    let virt = ResolvedInode::Virtual { node: VirtualNode::file("x"), provider_id: ProviderId::new("p"), dir_path: vpath("a") };
    assert_eq!(virt.path_str(), "a");
}

#[test]
fn script_addresses() {
    assert_eq!(script_address("provider", "myplugin", "on-save"), "provider.myplugin.on-save");
    assert_eq!(provider_script_address("coding", "decompose"), "provider.coding.decompose");
    let reg = ScriptRegistry::from_entries(vec![("provider.a.x".to_owned(), 1), ("provider.a.x".to_owned(), 2)]);
    assert_eq!(reg.get("provider.a.x"), Ok(&2));
    assert_eq!(reg.get("nope").err().unwrap().address, "nope");
}

fn edit(outcome: EditOutcome, original: &str, modified: &str) -> FileEditResult {
    FileEditResult {
        source_file: vpath("f.rs"),
        display_path: "f.rs".to_owned(),
        original: original.to_owned(),
        modified: modified.to_owned(),
        outcome,
        validation: ValidationResult::Skipped,
    }
}

#[test]
fn edits_plan_filesystem_actions() {
    let actions = plan_file_edits(&[
        edit(EditOutcome::Modify, "same", "same"),
        edit(EditOutcome::Modify, "old", "new"),
        edit(EditOutcome::Create, "", "fresh"),
        edit(EditOutcome::Delete, "gone", ""),
        edit(EditOutcome::Rename { new_path: vpath("g.rs") }, "x", "x"),
        edit(EditOutcome::Rename { new_path: vpath("h.rs") }, "x", "y"),
    ]);
    let kinds: Vec<&str> = actions
        .iter()
        .map(|a| match a {
            FsAction::Write { .. } => "write",
            FsAction::Unlink { .. } => "unlink",
            FsAction::Rename { .. } => "rename",
        })
        .collect();
    assert_eq!(kinds, vec!["write", "write", "unlink", "rename", "rename", "write"]);
    match &actions[5] {
        FsAction::Write { path, content } => assert_eq!((path.as_str(), content.as_str()), ("h.rs", "y")),
        _ => panic!("expected a write"),
    }
}

#[test]
fn mount_spec_parsing() {
    let spec = MountSpec::parse("myid:/path/to/project");
    assert_eq!((spec.explicit_id(), spec.path()), (Some("myid"), "/path/to/project"));
    let spec = MountSpec::parse("/home/user");
    assert_eq!((spec.explicit_id(), spec.path()), (None, "/home/user"));
    let spec = MountSpec::parse("a/b:c");
    assert_eq!((spec.explicit_id(), spec.path()), (None, "a/b:c"));
    assert_eq!(MountSpec::parse(":").explicit_id(), None);
    assert_eq!(MountSpec::parse("foo:").path(), "foo:");
    let spec = MountSpec::parse("my:project/src");
    assert_eq!((spec.explicit_id(), spec.path()), (Some("my"), "project/src"));
    assert_eq!(SessionArgs { id: Some("s1".to_owned()) }.id(), Some("s1"));
    assert_eq!(SessionArgs { id: None }.id(), None);
    let spec: MountSpec = "x:y".parse().unwrap();
    assert_eq!((spec.explicit_id(), spec.path()), (Some("x"), "y"));
}

#[test]
fn mount_session_ids_must_be_unique() {
    let ids = |v: &[&str]| v.iter().map(|s| s.to_string()).collect::<Vec<String>>();
    assert_eq!(check_session_ids(&ids(&[])), Ok(()));
    assert_eq!(check_session_ids(&ids(&["a", "b", "c"])), Ok(()));
    let err = check_session_ids(&ids(&["a", "b", "b", "a"])).unwrap_err();
    assert_eq!(err, DuplicateSessionId { id: "b".to_owned() });
    assert_eq!(err.message(), "duplicate session ID b - use explicit prefixes to disambiguate");
}

#[test]
fn kebab_names() {
    assert_eq!(ascii_words("  Hello, World! 42 "), "Hello World 42");
    assert_eq!(to_kebab("Hello, World!", 64), "hello-world");
    assert_eq!(to_kebab("Fix the parser bug", 10), "fix-the");
    assert_eq!(to_kebab("abcdefghijkl", 5), "abcde");
    assert_eq!(truncate_kebab("a-b-c", 3), "a");
    assert_eq!(truncate_kebab("ab-cd", 4), "ab");
    assert_eq!(truncate_kebab("abc", 3), "abc");
}

#[test]
fn git_dates_and_diffs() {
    assert_eq!(format_git_date(0), "1970-01-01");
    assert_eq!(format_git_date(86_400 * 365), "1971-01-01");
    assert_eq!(format_git_date(i64::MAX), "-");
    assert_eq!(unified_diff("a\n", "a\n", "f.txt"), "");
    let diff = unified_diff("a\n", "b\n", "f.txt");
    assert!(diff.contains("--- a/f.txt"));
    assert!(diff.contains("+++ b/f.txt"));
    assert!(diff.contains("-a"));
    assert!(diff.contains("+b"));
}

#[test]
fn composing_children_merges_collisions_after_the_rest() {
    let files = |ns: &[&str]| ns.iter().map(|n| VirtualNode::file(n)).collect::<Vec<VirtualNode>>();
    let results = vec![
        (ProviderId::new("p1"), Some(Ok(Some(files(&["a", "b"]))))),
        (ProviderId::new("p2"), Some(Ok(Some(files(&["b", "c"]))))),
        (ProviderId::new("p3"), Some(Ok(None))),
    ];
    let v = compose_children(results).unwrap();
    let got: Vec<(String, String)> =
        v.iter().map(|o| (o.provider_id.as_str().to_owned(), o.node.name().to_owned())).collect();
    assert_eq!(
        got,
        vec![
            ("p1".to_owned(), "a".to_owned()),
            ("p2".to_owned(), "c".to_owned()),
            ("p1".to_owned(), "b".to_owned()),
        ]
    );
    let panicked = vec![
        (ProviderId::new("p1"), None),
        (ProviderId::new("p2"), Some(Err(HandlerError { message: "boom".to_owned() }))),
    ];
    assert!(compose_children(panicked).unwrap().is_empty());
    let failing = vec![
        (ProviderId::new("p1"), Some(Err(HandlerError { message: "first".to_owned() }))),
        (ProviderId::new("p2"), Some(Err(HandlerError { message: "boom".to_owned() }))),
    ];
    match compose_children(failing) {
        Err(err) => assert_eq!(err.message, "boom"),
        Ok(_) => panic!("expected the failure"),
    }
}

#[test]
fn mutation_claims_settle_by_count() {
    let op = MutationOp::Rename { from: VfsPath::new("a/b").unwrap(), to: VfsPath::new("c").unwrap() };
    assert!(settle_mutation(&vec![], &op).is_none());
    assert_eq!(settle_mutation(&vec![ProviderId::new("git")], &op).map(|r| r.is_ok()), Some(true));
    let two = vec![ProviderId::new("git"), ProviderId::new("lsp")];
    let err = settle_mutation(&two, &op).unwrap().unwrap_err();
    assert_eq!(err.message, "ambiguous mutation: providers [git, lsp] all claimed Rename { from: a/b, to: c }");
}

#[test]
fn error_messages_name_their_subject() {
    assert_eq!(not_found("a/b").message, "not found: a/b");
    assert_eq!(inode_not_found(42).message, "inode 42 not found");
    assert_eq!(invalid_path("x").message, "invalid path: x");
    assert_eq!(PatternError::EmptyName.message(), "empty capture name");
}

#[test]
fn kebab_slug_is_a_bounded_prefix() {
    let full = to_kebab("My Variable NAME", 100);
    assert_eq!(full, "my-variable-name");
    let cut = to_kebab("My Variable NAME", 13);
    assert_eq!(cut, "my-variable");
    assert!(cut.len() <= 13 && full.starts_with(&cut));
}

#[test]
fn session_id_is_the_last_component() {
    assert_eq!(session_id_for("/home/user/project"), "project");
    assert_eq!(session_id_for("/home/user/project/"), "project");
    assert_eq!(session_id_for("/"), "root");
    assert_eq!(session_id_for("name"), "name");
}

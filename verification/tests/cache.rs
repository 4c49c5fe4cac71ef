use nyne::cache::{CachedNode, CachedNodeKind, DirState, L1Cache, NodeSource, ProcessVisibility};
use nyne::content_cache::{ContentCache, FileGenerations};
use nyne::node::{FileKind, VirtualNode};
use nyne::path::VfsPath;
use nyne::provider::ProviderId;

fn vpath(s: &str) -> VfsPath {
    VfsPath::new(s).unwrap()
}

/// A virtual cache entry owned by the provider `test`.
fn make_node(name: &str, inode: u64, resolve_gen: u64, source: NodeSource) -> (String, CachedNode) {
    let pid = ProviderId::new("test");
    (
        name.to_owned(),
        CachedNode::new(inode, CachedNodeKind::Virtual { provider_id: pid, node: VirtualNode::file(name) }, source, resolve_gen),
    )
}

/// A real filesystem cache entry.
fn make_real_node(name: &str, source: NodeSource, inode: u64) -> (String, CachedNode) {
    (name.to_owned(), CachedNode::new(inode, CachedNodeKind::Real { file_type: FileKind::File }, source, 0))
}

#[test]
fn is_visible_virtual_readdir() {
    let (_, cn) = make_node("a.rs", 1, 1, NodeSource::Children);
    assert!(cn.is_visible(), "default Visibility::Readdir should be visible");
}

#[test]
fn is_visible_virtual_hidden() {
    let pid = ProviderId::new("test");
    let cn = CachedNode::new(
        1,
        CachedNodeKind::Virtual { provider_id: pid, node: VirtualNode::file("hidden").hidden() },
        NodeSource::Children,
        1,
    );
    assert!(!cn.is_visible(), "Visibility::Hidden should not be visible");
}

#[test]
fn is_visible_derived_respects_visibility() {
    let (_, cn) = make_node("derived.rs", 1, 1, NodeSource::Derived);
    assert!(cn.is_visible(), "derived node with default Readdir should be visible");

    let pid = ProviderId::new("test");
    let cn = CachedNode::new(
        2,
        CachedNodeKind::Virtual { provider_id: pid, node: VirtualNode::file("hidden").hidden() },
        NodeSource::Derived,
        1,
    );
    assert!(!cn.is_visible(), "derived node with Hidden should not be visible");
}

#[test]
fn is_visible_mutated_always_visible() {
    let (_, cn) = make_node("mutated", 1, 0, NodeSource::Mutated);
    assert!(cn.is_visible(), "mutated nodes are always visible");
}

#[test]
fn is_visible_real_always_visible() {
    let (_, cn) = make_real_node("real.txt", NodeSource::Lookup, 1);
    assert!(cn.is_visible(), "real nodes are always visible");
}

#[test]
fn lookup_virtual_nodes_are_hidden() {
    let (_, cn) = make_node("looked-up", 1, 0, NodeSource::Lookup);
    assert!(!cn.is_visible());
}

#[test]
fn sweep_stale_resolve_sweeps_derived_entries() {
    let mut dir = DirState::new();
    dir.begin_resolve();
    let generation = dir.resolve_generation();

    let (name, cn) = make_node("children.rs", 10, generation, NodeSource::Children);
    dir.insert(name, cn);

    let (name, cn) = make_node("derived.rs", 20, generation, NodeSource::Derived);
    dir.insert(name, cn);

    let (name, cn) = make_node("lookup.rs", 30, 0, NodeSource::Lookup);
    dir.insert(name, cn);

    // New generation: children and derived entries of the old one go.
    dir.begin_resolve();
    let swept = dir.sweep_stale_resolve(dir.resolve_generation());

    assert_eq!(swept.len(), 2, "both children and derived should be swept");
    assert!(dir.get("children.rs").is_none());
    assert!(dir.get("derived.rs").is_none());
    assert!(dir.get("lookup.rs").is_some(), "lookup entries survive sweep");
}

#[test]
fn sweep_keeps_current_generation_and_reports_inodes() {
    let mut dir = DirState::new();
    dir.begin_resolve();
    dir.begin_resolve();
    let current = dir.resolve_generation();
    assert_eq!(current, 2);
    let (n, cn) = make_node("old.rs", 7, 1, NodeSource::Children);
    dir.insert(n, cn);
    let (n, cn) = make_node("new.rs", 8, current, NodeSource::Children);
    dir.insert(n, cn);
    let (n, cn) = make_node("made.rs", 9, 0, NodeSource::Mutated);
    dir.insert(n, cn);
    let swept = dir.sweep_stale_resolve(current);
    assert_eq!(swept, vec![7]);
    assert!(dir.get("new.rs").is_some());
    assert!(dir.get("made.rs").is_some());
    assert!(dir.sweep_stale_resolve(current).is_empty());
}

#[test]
fn is_source_stale_false_when_no_source() {
    let dir = DirState::new();
    assert!(!dir.is_source_stale(|_| 99), "no source → never stale");
}

#[test]
fn is_source_stale_false_when_generation_matches() {
    let mut dir = DirState::new();
    dir.set_source_generation(VfsPath::new("src/lib.rs").unwrap(), 5);
    assert!(!dir.is_source_stale(|_| 5));
}

#[test]
fn is_source_stale_true_when_generation_advanced() {
    let mut dir = DirState::new();
    dir.set_source_generation(VfsPath::new("src/lib.rs").unwrap(), 5);
    assert!(dir.is_source_stale(|_| 6));
}

#[test]
fn readdir_entries_filter_by_visibility() {
    let mut dir = DirState::new();
    let (n, cn) = make_node("shown", 1, 0, NodeSource::Children);
    dir.insert(n, cn);
    let (n, cn) = make_node("looked-up", 2, 0, NodeSource::Lookup);
    dir.insert(n, cn);
    assert_eq!(dir.readdir_entries(ProcessVisibility::Default).len(), 1);
    assert_eq!(dir.readdir_entries(ProcessVisibility::All).len(), 2);
    assert_eq!(dir.visible_entries()[0].0, "shown");
}

#[test]
fn insert_replaces_same_name() {
    let mut dir = DirState::new();
    let (n, cn) = make_node("x", 1, 0, NodeSource::Children);
    dir.insert(n, cn);
    let (n, cn) = make_node("x", 2, 0, NodeSource::Children);
    dir.insert(n, cn);
    assert_eq!(dir.all_entries().len(), 1);
    assert_eq!(dir.get("x").unwrap().inode, 2);
}

#[test]
fn move_entry_keeps_inode() {
    let mut dir = DirState::new();
    let (n, cn) = make_node("a", 41, 0, NodeSource::Mutated);
    dir.insert(n, cn);
    assert_eq!(dir.move_entry("a", "b".to_owned()), Some(41));
    assert!(dir.get("a").is_none());
    assert_eq!(dir.get("b").unwrap().inode, 41);
    assert_eq!(dir.move_entry("missing", "c".to_owned()), None);
    assert_eq!(dir.remove("b"), Some(41));
    assert_eq!(dir.remove("b"), None);
}

#[test]
fn remove_by_provider_unresolves_only_when_something_went() {
    let mut dir = DirState::new();
    dir.begin_resolve();
    let (n, cn) = make_real_node("real", NodeSource::Children, 3);
    dir.insert(n, cn);
    dir.remove_by_provider(ProviderId::new("test"));
    assert!(dir.is_resolved());
    let (n, cn) = make_node("virt", 4, 1, NodeSource::Children);
    dir.insert(n, cn);
    dir.remove_by_provider(ProviderId::new("other"));
    assert!(dir.is_resolved());
    dir.remove_by_provider(ProviderId::new("test"));
    assert!(!dir.is_resolved());
    assert!(dir.get("virt").is_none());
    assert!(dir.get("real").is_some());
}

#[test]
fn resolve_flags() {
    let mut dir = DirState::new();
    assert!(!dir.is_resolved());
    dir.mark_passthrough();
    assert!(dir.is_resolved() && dir.is_passthrough());
    dir.begin_resolve();
    assert!(dir.is_resolved() && !dir.is_passthrough());
    assert_eq!(dir.resolve_generation(), 1);
    dir.mark_unresolved();
    assert!(!dir.is_resolved());
    assert!(!dir.is_no_cache());
    dir.mark_no_cache();
    assert!(dir.is_no_cache());
}

#[test]
fn file_generations_starts_at_zero() {
    let fg = FileGenerations::new();
    assert_eq!(fg.get(&vpath("a.rs")), 0);
}

#[test]
fn file_generations_bump_increments() {
    let mut fg = FileGenerations::new();
    let p = vpath("a.rs");
    assert_eq!(fg.bump(&p), 1);
    assert_eq!(fg.bump(&p), 2);
    assert_eq!(fg.get(&p), 2);
}

#[test]
fn file_generations_independent_per_file() {
    let mut fg = FileGenerations::new();
    fg.bump(&vpath("a.rs"));
    fg.bump(&vpath("a.rs"));
    fg.bump(&vpath("b.rs"));
    assert_eq!(fg.get(&vpath("a.rs")), 2);
    assert_eq!(fg.get(&vpath("b.rs")), 1);
}

fn make_cache() -> ContentCache {
    ContentCache::new(FileGenerations::new())
}

#[test]
fn get_returns_fresh_entry() {
    let mut cache = make_cache();
    let sf = vpath("src/lib.rs");
    cache.insert(1, b"hello".to_vec(), ProviderId::new("test"), Some(&sf));
    assert!(cache.get(1).is_some());
}

#[test]
fn get_evicts_stale_entry() {
    let mut cache = make_cache();
    let sf = vpath("src/lib.rs");
    cache.insert(1, b"hello".to_vec(), ProviderId::new("test"), Some(&sf));
    cache.file_generations.bump(&sf);
    assert!(cache.get(1).is_none(), "stale entry should be evicted");
}

#[test]
fn get_size_evicts_stale_entry() {
    let mut cache = make_cache();
    let sf = vpath("src/lib.rs");
    cache.insert(1, b"hello".to_vec(), ProviderId::new("test"), Some(&sf));
    cache.file_generations.bump(&sf);
    assert!(cache.get_size(1).is_none(), "stale entry should be evicted");
}

#[test]
fn entry_without_source_is_never_stale() {
    let mut cache = make_cache();
    cache.insert(1, b"hello".to_vec(), ProviderId::new("test"), None);
    // Bumping an unrelated file leaves the entry alone.
    cache.file_generations.bump(&vpath("unrelated.rs"));
    assert!(cache.get(1).is_some());
}

#[test]
fn reinsert_after_bump_is_fresh() {
    let mut cache = make_cache();
    let sf = vpath("src/lib.rs");
    cache.insert(1, b"old".to_vec(), ProviderId::new("test"), Some(&sf));
    cache.file_generations.bump(&sf);
    assert!(cache.get(1).is_none());
    // Re-inserted at the current generation, the entry is fresh.
    cache.insert(1, b"new".to_vec(), ProviderId::new("test"), Some(&sf));
    assert!(cache.get(1).is_some());
}

#[test]
fn content_round_trip_and_invalidation() {
    let mut cache = make_cache();
    let stored = cache.insert(5, b"abc".to_vec(), ProviderId::new("p"), None);
    assert_eq!(stored, b"abc".to_vec());
    assert_eq!(cache.get(5), Some(b"abc".to_vec()));
    assert_eq!(cache.get_size(5), Some(3));
    cache.insert(6, b"d".to_vec(), ProviderId::new("q"), None);
    cache.invalidate_provider(ProviderId::new("p"));
    assert!(cache.get(5).is_none());
    assert!(cache.get(6).is_some());
    cache.invalidate(6);
    assert!(cache.get(6).is_none());
    cache.insert(7, b"e".to_vec(), ProviderId::new("q"), None);
    cache.clear();
    assert!(cache.get(7).is_none());
}

#[test]
fn invalidate_subtree_marks_nested_dirs_unresolved() {
    let mut cache = L1Cache::new();

    let edit = vpath("src/foo.rs@/symbols/Bar@/edit");
    let staged = vpath("src/foo.rs@/symbols/Bar@/edit/staged");

    cache.get_or_create(&edit).begin_resolve();
    cache.get_or_create(&staged).begin_resolve();

    assert!(cache.get(&edit).unwrap().is_resolved());
    assert!(cache.get(&staged).unwrap().is_resolved());

    cache.invalidate_subtree(&edit);

    assert!(!cache.get(&edit).unwrap().is_resolved(), "edit/ should be unresolved");
    assert!(!cache.get(&staged).unwrap().is_resolved(), "edit/staged/ should be unresolved");
}

#[test]
fn invalidate_subtree_allows_re_resolve_with_new_entries() {
    let mut cache = L1Cache::new();
    let staged = vpath("src/foo.rs@/symbols/Bar@/edit/staged");

    {
        let dir = cache.get_or_create(&staged);
        dir.begin_resolve();
        let generation = dir.resolve_generation();
        let (name, node) = make_node("10-replace.diff", 100, generation, NodeSource::Children);
        dir.insert(name, node);
    }

    assert_eq!(cache.get(&staged).unwrap().readdir_entries(ProcessVisibility::Default).len(), 1);
    assert!(cache.get(&staged).unwrap().is_resolved());

    cache.invalidate_subtree(&vpath("src/foo.rs@/symbols/Bar@/edit"));

    assert!(!cache.get(&staged).unwrap().is_resolved());

    {
        let dir = cache.get_or_create(&staged);
        dir.begin_resolve();
        let generation = dir.resolve_generation();
        let (n1, cn1) = make_node("10-replace.diff", 100, generation, NodeSource::Children);
        let (n2, cn2) = make_node("20-insert_after.diff", 101, generation, NodeSource::Children);
        dir.insert(n1, cn1);
        dir.insert(n2, cn2);
        let swept = dir.sweep_stale_resolve(generation);
        assert!(swept.is_empty(), "no entries should be swept");
    }

    let entries: Vec<String> = cache
        .get(&staged)
        .unwrap()
        .readdir_entries(ProcessVisibility::Default)
        .iter()
        .map(|(n, _)| (*n).to_owned())
        .collect();
    assert_eq!(entries.len(), 2, "should have 2 entries after re-resolve, got: {entries:?}");
}

#[test]
fn collect_dir_inodes_under_finds_nested_dirs() {
    let mut cache = L1Cache::new();

    let edit = vpath("src/foo.rs@/symbols/Bar@/edit");
    let staged = vpath("src/foo.rs@/symbols/Bar@/edit/staged");
    let unrelated = vpath("src/other.rs@/symbols/Baz@/edit");

    cache.get_or_create(&edit).begin_resolve();
    cache.get_or_create(&staged).begin_resolve();
    cache.get_or_create(&unrelated).begin_resolve();

    // Stand-in inodes: the length of each directory's path text.
    let inodes: Vec<u64> = cache.keys_under(&edit).iter().map(|p| p.len() as u64).collect();

    assert_eq!(inodes.len(), 2, "should find 2 directories under edit/");
    assert!(inodes.contains(&(edit.as_str().len() as u64)));
    assert!(inodes.contains(&(staged.as_str().len() as u64)));
}

#[test]
fn subtree_is_component_wise() {
    let mut cache = L1Cache::new();
    let a = vpath("a");
    let sibling = vpath("a-b");
    cache.get_or_create(&a).begin_resolve();
    cache.get_or_create(&sibling).begin_resolve();
    cache.invalidate_subtree(&a);
    assert!(!cache.get(&a).unwrap().is_resolved());
    assert!(cache.get(&sibling).unwrap().is_resolved(), "a sibling sharing a text prefix is not below");
    assert_eq!(cache.keys_under(&VfsPath::root()).len(), 2);
}

#[test]
fn l1_entries_inodes_and_provider_invalidation() {
    let mut cache = L1Cache::new();
    let dir = vpath("src");
    let below = vpath("src/mod");
    {
        let d = cache.get_or_create(&dir);
        d.begin_resolve();
        let (n, cn) = make_node("a", 11, 1, NodeSource::Children);
        d.insert(n, cn);
        let (n, cn) = make_real_node("b", NodeSource::Lookup, 12);
        d.insert(n, cn);
    }
    {
        let d = cache.get_or_create(&below);
        let (n, cn) = make_node("c", 13, 0, NodeSource::Lookup);
        d.insert(n, cn);
    }
    let mut inodes = cache.collect_inodes_under(&dir);
    inodes.sort();
    assert_eq!(inodes, vec![11, 12, 13]);
    assert_eq!(cache.entries_under(&below).len(), 1);
    assert_eq!(cache.remove_entry(&dir, "b"), Some(12));
    assert_eq!(cache.remove_entry(&vpath("nowhere"), "b"), None);
    cache.invalidate_provider(ProviderId::new("test"));
    assert!(!cache.get(&dir).unwrap().is_resolved());
    assert!(cache.get(&dir).unwrap().get("a").is_none());
    assert!(cache.collect_inodes_under(&dir).is_empty());
    cache.invalidate_dir(&below);
    cache.clear();
    assert!(cache.get(&dir).is_none());
}

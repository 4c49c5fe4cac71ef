//! Virtual filesystem nodes as the dispatch layer sees them.

use vstd::prelude::*;
use vstd::string::*;
use crate::path::VfsPath;

verus! {

/// Kind of a filesystem entry.
#[derive(Debug, Clone, Copy, PartialEq, Eq, Structural)]
pub enum FileKind {
    File,
    Directory,
    Symlink,
}

/// Whether a virtual node is listed by `readdir`.
#[derive(Debug, Clone, Copy, PartialEq, Eq, Structural)]
pub enum Visibility {
    /// Listed by `readdir` and reachable by name.
    Readdir,
    /// Reachable by name only.
    Hidden,
}

/// Whether a node's generated content may be kept in the content cache.
#[derive(Debug, Clone, Copy, PartialEq, Eq, Structural)]
pub enum CachePolicy {
    /// Cache the content until it is invalidated.
    Cache,
    /// Regenerate the content on every read.
    Never,
}

/// A provider-generated node: a name, a kind, a visibility, the source
/// file it was derived from (with that file's generation at the time),
/// and its caching policy.
#[derive(Debug)]
pub struct VirtualNode {
    name: String,
    kind: FileKind,
    visibility: Visibility,
    shadows_real: bool,
    source: Option<(VfsPath, u64)>,
    cache_policy: CachePolicy,
}

/// Mathematical view of a [`VirtualNode`].
pub ghost struct NodeView {
    pub name: Seq<char>,
    pub kind: FileKind,
    pub visibility: Visibility,
    pub shadows_real: bool,
    pub source: Option<(Seq<Seq<char>>, u64)>,
    pub cache_policy: CachePolicy,
}

/// The view of a fresh node: listed, shadowing nothing, with no source
/// file, its content cached.
pub open spec fn plain_node(name: Seq<char>, kind: FileKind) -> NodeView {
    NodeView {
        name,
        kind,
        visibility: Visibility::Readdir,
        shadows_real: false,
        source: None,
        cache_policy: CachePolicy::Cache,
    }
}

/// The view of an optional source stamp.
pub open spec fn source_view(s: Option<(VfsPath, u64)>) -> Option<(Seq<Seq<char>>, u64)> {
    match s {
        Some((p, g)) => Some((p@, g)),
        None => None,
    }
}

impl View for VirtualNode {
    type V = NodeView;

    closed spec fn view(&self) -> NodeView {
        NodeView {
            name: self.name@,
            kind: self.kind,
            visibility: self.visibility,
            shadows_real: self.shadows_real,
            source: source_view(self.source),
            cache_policy: self.cache_policy,
        }
    }
}

impl VirtualNode {
    /// A visible node of the given kind.
    pub fn new(name: &str, kind: FileKind) -> (r: Self)
        ensures
            r@ == plain_node(name@, kind),
    {
        VirtualNode {
            name: name.to_owned(),
            kind,
            visibility: Visibility::Readdir,
            shadows_real: false,
            source: None,
            cache_policy: CachePolicy::Cache,
        }
    }

    /// A visible regular file.
    pub fn file(name: &str) -> (r: Self)
        ensures
            r@ == plain_node(name@, FileKind::File),
    {
        VirtualNode::new(name, FileKind::File)
    }

    /// A visible directory.
    pub fn directory(name: &str) -> (r: Self)
        ensures
            r@ == plain_node(name@, FileKind::Directory),
    {
        VirtualNode::new(name, FileKind::Directory)
    }

    /// The same node, hidden from `readdir`.
    pub fn hidden(self) -> (r: Self)
        ensures
            r@ == (NodeView { visibility: Visibility::Hidden, ..self@ }),
    {
        VirtualNode { visibility: Visibility::Hidden, ..self }
    }

    /// The same node, marked as shadowing a real entry of the same name.
    pub fn mark_shadows_real(self) -> (r: Self)
        ensures
            r@ == (NodeView { shadows_real: true, ..self@ }),
    {
        VirtualNode { shadows_real: true, ..self }
    }

    /// The same node, derived from `source_file` at `generation`.
    pub fn with_source(self, source_file: VfsPath, generation: u64) -> (r: Self)
        ensures
            r@ == (NodeView { source: Some((source_file@, generation)), ..self@ }),
    {
        VirtualNode { source: Some((source_file, generation)), ..self }
    }

    /// The same node with the caching policy `policy`.
    pub fn with_cache_policy(self, policy: CachePolicy) -> (r: Self)
        ensures
            r@ == (NodeView { cache_policy: policy, ..self@ }),
    {
        VirtualNode { cache_policy: policy, ..self }
    }

    /// The source file the node was derived from, with its generation.
    pub fn source(&self) -> (r: Option<(&VfsPath, u64)>)
        ensures
            match r {
                Some((p, g)) => self@.source == Some((p@, g)),
                None => self@.source is None,
            },
    {
        match &self.source {
            Some((p, g)) => Some((p, *g)),
            None => None,
        }
    }

    /// The node's caching policy.
    pub fn cache_policy(&self) -> (r: CachePolicy)
        ensures
            r == self@.cache_policy,
    {
        self.cache_policy
    }

    /// The node's name.
    pub fn name(&self) -> (r: &str)
        ensures
            r@ == self@.name,
    {
        self.name.as_str()
    }

    /// The node's kind.
    pub fn kind(&self) -> (r: FileKind)
        ensures
            r == self@.kind,
    {
        self.kind
    }

    /// The node's visibility.
    pub fn visibility(&self) -> (r: Visibility)
        ensures
            r == self@.visibility,
    {
        self.visibility
    }

    /// Whether the node shadows a real entry.
    pub fn shadows_real(&self) -> (r: bool)
        ensures
            r == self@.shadows_real,
    {
        self.shadows_real
    }

    /// An independent copy.
    pub fn duplicate(&self) -> (r: Self)
        ensures
            r@ == self@,
    {
        VirtualNode {
            name: self.name.clone(),
            kind: self.kind,
            visibility: self.visibility,
            shadows_real: self.shadows_real,
            source: match &self.source {
                Some((p, g)) => Some((p.duplicate(), *g)),
                None => None,
            },
            cache_policy: self.cache_policy,
        }
    }
}

} // verus!

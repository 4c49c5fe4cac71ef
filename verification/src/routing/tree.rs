//! Route tree structure and the dispatch walk.
//!
//! The walk matches path segments against sub-route matchers in
//! precedence order, accumulating captures, and invokes the handlers of
//! the node it reaches. Rest captures with a suffix try their split
//! points from the rightmost leftwards, so the capture consumes as many
//! segments as still lets a deeper level match.

use vstd::prelude::*;
use crate::node::{plain_node, FileKind, NodeView, Visibility, VirtualNode};
use crate::text::{is_suffix, ends_with, strip_suffix, str_eq};
use crate::path::str_views;
use vstd::slice::slice_subrange;
use super::ctx::{RequestContext, RouteCtx};
use super::params::{empty_params, ParamsView, RouteParams};
use super::segment::{CaptureResult, SegmentMatcher};

verus! {

/// Failure reported by a route handler.
#[derive(Debug)]
pub struct HandlerError {
    pub message: String,
}

/// What a `children` handler returns: a listing, no listing, or a failure.
pub type Nodes = Result<Option<Vec<VirtualNode>>, HandlerError>;

/// What a `lookup` handler returns: a node, no node, or a failure.
pub type Node = Result<Option<VirtualNode>, HandlerError>;

/// Values a children handler may return, each standing for a [`Nodes`].
pub trait IntoNodes {
    /// The canonical listing result.
    fn into_nodes(self) -> Nodes;
}

impl IntoNodes for Nodes {
    /// The result itself.
    fn into_nodes(self) -> (r: Nodes)
        ensures
            r == self,
    {
        self
    }
}

impl IntoNodes for Vec<VirtualNode> {
    /// A listing of these nodes.
    fn into_nodes(self) -> (r: Nodes)
        ensures
            r == Ok::<Option<Vec<VirtualNode>>, HandlerError>(Some(self)),
    {
        Ok(Some(self))
    }
}

impl IntoNodes for Option<Vec<VirtualNode>> {
    /// A listing of these nodes, or no listing.
    fn into_nodes(self) -> (r: Nodes)
        ensures
            r == Ok::<Option<Vec<VirtualNode>>, HandlerError>(self),
    {
        Ok(self)
    }
}

/// Values a lookup handler may return, each standing for a [`Node`].
pub trait IntoNode {
    /// The canonical lookup result.
    fn into_node(self) -> Node;
}

impl IntoNode for Node {
    /// The result itself.
    fn into_node(self) -> (r: Node)
        ensures
            r == self,
    {
        self
    }
}

impl IntoNode for Option<VirtualNode> {
    /// This node, or none.
    fn into_node(self) -> (r: Node)
        ensures
            r == Ok::<Option<VirtualNode>, HandlerError>(self),
    {
        Ok(self)
    }
}

/// Views of a sequence of nodes.
pub open spec fn node_views(v: Seq<VirtualNode>) -> Seq<NodeView> {
    v.map_values(|n: VirtualNode| n@)
}

/// View of a [`Nodes`] result.
pub open spec fn nodes_view(r: Nodes) -> Result<Option<Seq<NodeView>>, Seq<char>> {
    match r {
        Ok(Some(v)) => Ok(Some(node_views(v@))),
        Ok(None) => Ok(None),
        Err(e) => Err(e.message@),
    }
}

/// View of a [`Node`] result.
pub open spec fn one_view(r: Node) -> Result<Option<NodeView>, Seq<char>> {
    match r {
        Ok(Some(n)) => Ok(Some(n@)),
        Ok(None) => Ok(None),
        Err(e) => Err(e.message@),
    }
}

/// The handlers a provider exposes to its route tree, addressed by name.
///
/// Each route node names the provider method that lists its directory
/// (`children`) or resolves a single name in it (`lookup`). The spec
/// functions say what those methods return, so the walk can be specified
/// for every provider.
pub trait RouteHandlers {
    /// What `children(handler, ..)` returns for a request path and captures.
    /// An implementation that does not describe its handlers leaves it
    /// unspecified.
    closed spec fn spec_children(&self, handler: Seq<char>, path: Seq<Seq<char>>, params: ParamsView)
        -> Result<Option<Seq<NodeView>>, Seq<char>> {
        arbitrary()
    }

    /// What `lookup(handler, .., name)` returns for a request path and
    /// captures. An implementation that does not describe its handlers
    /// leaves it unspecified.
    closed spec fn spec_lookup(&self, handler: Seq<char>, path: Seq<Seq<char>>, params: ParamsView, name: Seq<char>)
        -> Result<Option<NodeView>, Seq<char>> {
        arbitrary()
    }

    /// List the entries of the matched directory.
    fn children(&self, handler: &'static str, ctx: &RouteCtx<'_>) -> (r: Nodes)
        ensures
            nodes_view(r) == self.spec_children(handler@, ctx.path_view(), ctx.params_view());

    /// Resolve `name` in the matched directory.
    fn lookup(&self, handler: &'static str, ctx: &RouteCtx<'_>, name: &str) -> (r: Node)
        ensures
            one_view(r) == self.spec_lookup(handler@, ctx.path_view(), ctx.params_view(), name@);
}

/// A static file declared on a route node: listed by `children` and
/// found by `lookup` under `name`.
pub struct StaticFileEntry {
    pub name: &'static str,
    pub node: VirtualNode,
}

/// One level of a route tree.
pub struct RouteNode {
    pub segment: SegmentMatcher,
    pub children_handler: Option<&'static str>,
    pub lookup_handler: Option<&'static str>,
    pub static_files: Vec<StaticFileEntry>,
    /// Sorted by precedence when the tree is built.
    pub sub_routes: Vec<RouteNode>,
    /// Whether an exact sub-route is listed as a directory by its parent.
    pub emit: bool,
}

/// A provider's route tree.
pub struct RouteTree<P> {
    pub root: RouteNode,
    pub provider: core::marker::PhantomData<P>,
}

/// Kind of dispatch walk.
pub enum DispatchMode<'a> {
    /// List the entries at the matched path.
    Children,
    /// Resolve one name at the matched path.
    Lookup { name: &'a str },
}

/// View of a [`DispatchMode`].
pub ghost enum ModeView {
    Children,
    Lookup(Seq<char>),
}

/// Outcome of a walk, by mode.
pub enum MatchResult {
    Children(Option<Vec<VirtualNode>>),
    Lookup(Option<VirtualNode>),
}

/// View of a [`MatchResult`].
pub ghost enum MatchView {
    Children(Option<Seq<NodeView>>),
    Lookup(Option<NodeView>),
}

impl<'a> DispatchMode<'a> {
    pub open spec fn view_mode(&self) -> ModeView {
        match self {
            DispatchMode::Children => ModeView::Children,
            DispatchMode::Lookup { name } => ModeView::Lookup(name@),
        }
    }
}

impl MatchResult {
    pub open spec fn view_match(&self) -> MatchView {
        match self {
            MatchResult::Children(Some(v)) => MatchView::Children(Some(node_views(v@))),
            MatchResult::Children(None) => MatchView::Children(None),
            MatchResult::Lookup(Some(n)) => MatchView::Lookup(Some(n@)),
            MatchResult::Lookup(None) => MatchView::Lookup(None),
        }
    }

    /// The listing of a children walk (`None` for a lookup result).
    pub fn into_children(self) -> (r: Option<Vec<VirtualNode>>)
        ensures
            r matches Some(v) ==> view_children(self.view_match()) == Some(node_views(v@)),
            r is None ==> view_children(self.view_match()) is None,
    {
        match self {
            MatchResult::Children(v) => v,
            MatchResult::Lookup(_) => None,
        }
    }

    /// The node of a lookup walk (`None` for a children result).
    pub fn into_lookup(self) -> (r: Option<VirtualNode>)
        ensures
            r matches Some(n) ==> view_lookup(self.view_match()) == Some(n@),
            r is None ==> view_lookup(self.view_match()) is None,
    {
        match self {
            MatchResult::Lookup(v) => v,
            MatchResult::Children(_) => None,
        }
    }
}

/// The listing carried by a walk result.
pub open spec fn view_children(m: MatchView) -> Option<Seq<NodeView>> {
    match m {
        MatchView::Children(v) => v,
        MatchView::Lookup(_) => None,
    }
}

/// The node carried by a walk result.
pub open spec fn view_lookup(m: MatchView) -> Option<NodeView> {
    match m {
        MatchView::Lookup(v) => v,
        MatchView::Children(_) => None,
    }
}

/// Whether a walk result carries something.
pub open spec fn found(m: MatchView) -> bool {
    match m {
        MatchView::Children(v) => v is Some,
        MatchView::Lookup(v) => v is Some,
    }
}

/// The empty result of a walk in `mode`.
pub open spec fn nothing(mode: ModeView) -> MatchView {
    match mode {
        ModeView::Children => MatchView::Children(None),
        ModeView::Lookup(_) => MatchView::Lookup(None),
    }
}

/// Captures after folding in a single-segment match.
pub open spec fn with_capture(params: ParamsView, cap: Option<(Seq<char>, Seq<char>)>) -> ParamsView {
    match cap {
        Some((n, v)) => ParamsView { singles: params.singles.insert(n, v), ..params },
        None => params,
    }
}

/// Captures after recording a rest capture.
pub open spec fn with_rest(params: ParamsView, name: Seq<char>, segs: Seq<Seq<char>>) -> ParamsView {
    ParamsView { rest: params.rest.insert(name, segs), ..params }
}

/// Indices `< hi` of segments ending with `sfx`, from the rightmost down.
pub open spec fn splits_below(full: Seq<Seq<char>>, sfx: Seq<char>, hi: int) -> Seq<int>
    decreases hi,
{
    if hi <= 0 {
        Seq::empty()
    } else if is_suffix(sfx, full[hi - 1]) {
        seq![hi - 1] + splits_below(full, sfx, hi - 1)
    } else {
        splits_below(full, sfx, hi - 1)
    }
}

/// Split points of a suffix-bearing rest capture, rightmost first.
pub open spec fn rest_splits(full: Seq<Seq<char>>, sfx: Seq<char>) -> Seq<int> {
    splits_below(full, sfx, full.len() as int)
}

/// A segment with `sfx` removed when it ends with it.
pub open spec fn without_suffix(s: Seq<char>, sfx: Seq<char>) -> Seq<char> {
    if is_suffix(sfx, s) { s.subrange(0, s.len() - sfx.len()) } else { s }
}

/// The segments captured by a rest capture split at `pos`: the first
/// `pos + 1` segments, each stripped of `sfx` where it carries it.
pub open spec fn captured_segments(full: Seq<Seq<char>>, pos: int, sfx: Seq<char>) -> Seq<Seq<char>> {
    full.take(pos + 1).map_values(|s: Seq<char>| without_suffix(s, sfx))
}

/// There are no more split points than segments.
pub proof fn lemma_splits_len(full: Seq<Seq<char>>, sfx: Seq<char>, hi: int)
    requires
        0 <= hi <= full.len(),
    ensures
        splits_below(full, sfx, hi).len() <= hi,
        forall|k: int| 0 <= k < splits_below(full, sfx, hi).len() ==>
            0 <= #[trigger] splits_below(full, sfx, hi)[k] < hi,
    decreases hi,
{
    if hi > 0 {
        lemma_splits_len(full, sfx, hi - 1);
    }
}

/// Directory entries auto-emitted for the first `n` sub-routes: one per
/// exact sub-route with `emit` set.
pub open spec fn emitted_dirs(subs: Seq<RouteNode>, n: int) -> Seq<NodeView>
    decreases n,
{
    if n <= 0 {
        Seq::empty()
    } else {
        let prev = emitted_dirs(subs, n - 1);
        let c = subs[n - 1];
        if c.emit && c.segment is Exact {
            prev.push(plain_node(c.segment->Exact_0@, FileKind::Directory))
        } else {
            prev
        }
    }
}

/// The first node at index `>= i` called `name`.
pub open spec fn first_named(ns: Seq<NodeView>, name: Seq<char>, i: int) -> Option<NodeView>
    decreases ns.len() - i,
{
    if i < 0 || i >= ns.len() {
        None
    } else if ns[i].name == name {
        Some(ns[i])
    } else {
        first_named(ns, name, i + 1)
    }
}

/// Views of the static files of a node.
pub open spec fn static_views(files: Seq<StaticFileEntry>) -> Seq<NodeView> {
    files.map_values(|f: StaticFileEntry| f.node@)
}

/// The first static file at index `>= i` named `name`.
pub open spec fn static_named(files: Seq<StaticFileEntry>, name: Seq<char>, i: int) -> Option<NodeView>
    decreases files.len() - i,
{
    if i < 0 || i >= files.len() {
        None
    } else if files[i].name@ == name {
        Some(files[i].node@)
    } else {
        static_named(files, name, i + 1)
    }
}

/// The lookup handler of the first glob sub-route at index `>= i` that has one.
pub open spec fn glob_lookup(subs: Seq<RouteNode>, i: int) -> Option<&'static str>
    decreases subs.len() - i,
{
    if i < 0 || i >= subs.len() {
        None
    } else if subs[i].segment is Glob && subs[i].lookup_handler is Some {
        subs[i].lookup_handler
    } else {
        glob_lookup(subs, i + 1)
    }
}

/// Whether some sub-route at index `>= i` matches `seg` by itself.
pub open spec fn some_sub_matches(subs: Seq<RouteNode>, seg: Seq<char>) -> bool {
    exists|j: int| 0 <= j < subs.len() && (#[trigger] subs[j]).segment.spec_matches(seg) is Some
}

/// What invoking the children handler of `node` yields: the handler's
/// listing, then the static files, then one directory per emitted exact
/// sub-route; `None` when all of that is empty.
pub open spec fn spec_invoke_children<P: RouteHandlers>(node: RouteNode, p: P, path: Seq<Seq<char>>, params: ParamsView)
    -> Result<Option<Seq<NodeView>>, Seq<char>>
{
    let base: Result<Seq<NodeView>, Seq<char>> = match node.children_handler {
        None => Ok(Seq::empty()),
        Some(h) => match p.spec_children(h@, path, params) {
            Err(e) => Err(e),
            Ok(Some(v)) => Ok(v),
            Ok(None) => Ok(Seq::empty()),
        },
    };
    match base {
        Err(e) => Err(e),
        Ok(v) => {
            let all = v + static_views(node.static_files@) + emitted_dirs(node.sub_routes@, node.sub_routes@.len() as int);
            if all.len() == 0 { Ok(None) } else { Ok(Some(all)) }
        },
    }
}

/// What invoking the lookup of `node` for `name` yields: a static file of
/// that name; else the node's lookup handler; else, when that finds
/// nothing, the lookup handler of its first glob sub-route.
pub open spec fn spec_invoke_lookup<P: RouteHandlers>(node: RouteNode, p: P, path: Seq<Seq<char>>, params: ParamsView, name: Seq<char>)
    -> Result<Option<NodeView>, Seq<char>>
{
    match static_named(node.static_files@, name, 0) {
        Some(n) => Ok(Some(n)),
        None => {
            let own: Result<Option<NodeView>, Seq<char>> = match node.lookup_handler {
                None => Ok(None),
                Some(h) => p.spec_lookup(h@, path, params, name),
            };
            match own {
                Err(e) => Err(e),
                Ok(Some(n)) => Ok(Some(n)),
                Ok(None) => match glob_lookup(node.sub_routes@, 0) {
                    Some(h) => p.spec_lookup(h@, path, params, name),
                    None => Ok(None),
                },
            }
        },
    }
}

/// What invoking `node` in `mode` yields.
pub open spec fn spec_invoke<P: RouteHandlers>(node: RouteNode, p: P, path: Seq<Seq<char>>, params: ParamsView, mode: ModeView)
    -> Result<MatchView, Seq<char>>
{
    match mode {
        ModeView::Children => match spec_invoke_children(node, p, path, params) {
            Err(e) => Err(e),
            Ok(v) => Ok(MatchView::Children(v)),
        },
        ModeView::Lookup(name) => match spec_invoke_lookup(node, p, path, params, name) {
            Err(e) => Err(e),
            Ok(v) => Ok(MatchView::Lookup(v)),
        },
    }
}

/// Keep a result only when it carries something.
pub open spec fn keep_found(r: Result<MatchView, Seq<char>>) -> Result<Option<MatchView>, Seq<char>> {
    match r {
        Err(e) => Err(e),
        Ok(m) => if found(m) { Ok(Some(m)) } else { Ok(None) },
    }
}

/// The walk below `node` over the `rem`aining path segments.
pub open spec fn spec_dispatch<P: RouteHandlers>(node: RouteNode, p: P, path: Seq<Seq<char>>, rem: Seq<Seq<char>>,
    params: ParamsView, mode: ModeView) -> Result<MatchView, Seq<char>>
    decreases node, node.sub_routes@.len() + 1,
{
    if rem.len() == 0 {
        spec_invoke(node, p, path, params, mode)
    } else {
        spec_scan(node, p, path, rem, params, mode, 0)
    }
}

/// Try the sub-routes of `node` from index `i` on, in order; the first
/// one that claims the path decides.
pub open spec fn spec_scan<P: RouteHandlers>(node: RouteNode, p: P, path: Seq<Seq<char>>, rem: Seq<Seq<char>>,
    params: ParamsView, mode: ModeView, i: int) -> Result<MatchView, Seq<char>>
    decreases node, node.sub_routes@.len() - i,
{
    if i < 0 || i >= node.sub_routes@.len() {
        Ok(nothing(mode))
    } else {
        match spec_try_match(node.sub_routes@[i], p, path, rem, params, mode) {
            Err(e) => Err(e),
            Ok(Some(m)) => Ok(m),
            Ok(None) => spec_scan(node, p, path, rem, params, mode, i + 1),
        }
    }
}

/// Whether `child` claims the path (`Some`) or the next sibling is tried (`None`).
pub open spec fn spec_try_match<P: RouteHandlers>(child: RouteNode, p: P, path: Seq<Seq<char>>, rem: Seq<Seq<char>>,
    params: ParamsView, mode: ModeView) -> Result<Option<MatchView>, Seq<char>>
    decreases child, child.sub_routes@.len() + 4 + rem.len(),
{
    if rem.len() == 0 {
        Ok(None)
    } else {
        match child.segment {
            SegmentMatcher::RestCapture { name, suffix } => match suffix {
                None => keep_found(spec_dispatch(child, p, path, Seq::empty(), with_rest(params, name@, rem), mode)),
                Some(sfx) => {
                    proof { lemma_splits_len(rem, sfx@, rem.len() as int); }
                    spec_rest_loop(child, p, path, rem, params, mode, name@, sfx@, 0)
                },
            },
            SegmentMatcher::Glob => match mode {
                ModeView::Children => match spec_invoke_children(child, p, path, params) {
                    Err(e) => Err(e),
                    Ok(v) => Ok(Some(MatchView::Children(v))),
                },
                ModeView::Lookup(name) => match child.lookup_handler {
                    None => Ok(None),
                    Some(h) => match p.spec_lookup(h@, path, params, name) {
                        Err(e) => Err(e),
                        Ok(v) => Ok(Some(MatchView::Lookup(v))),
                    },
                },
            },
            other => match other.spec_matches(rem[0]) {
                None => Ok(None),
                Some(cap) => match spec_dispatch(child, p, path, rem.drop_first(), with_capture(params, cap), mode) {
                    Err(e) => Err(e),
                    Ok(m) => Ok(Some(m)),
                },
            },
        }
    }
}

/// Try the split points of a suffix-bearing rest capture from the `k`-th on.
pub open spec fn spec_rest_loop<P: RouteHandlers>(child: RouteNode, p: P, path: Seq<Seq<char>>, full: Seq<Seq<char>>,
    params: ParamsView, mode: ModeView, name: Seq<char>, sfx: Seq<char>, k: int) -> Result<Option<MatchView>, Seq<char>>
    decreases child, child.sub_routes@.len() + 2 + rest_splits(full, sfx).len() - k,
{
    let splits = rest_splits(full, sfx);
    if k < 0 || k >= splits.len() {
        Ok(None)
    } else {
        let pos = splits[k];
        let next = with_rest(params, name, captured_segments(full, pos, sfx));
        let remaining = full.subrange(pos + 1, full.len() as int);
        if remaining.len() == 0 {
            keep_found(spec_dispatch(child, p, path, Seq::empty(), next, mode))
        } else if some_sub_matches(child.sub_routes@, remaining[0]) {
            match spec_dispatch(child, p, path, remaining, next, mode) {
                Err(e) => Err(e),
                Ok(m) => if found(m) { Ok(Some(m)) } else { spec_rest_loop(child, p, path, full, params, mode, name, sfx, k + 1) },
            }
        } else {
            spec_rest_loop(child, p, path, full, params, mode, name, sfx, k + 1)
        }
    }
}


/// Indices of the segments of `full` that end with `suffix`, rightmost first.
pub fn find_rest_splits(full: &[&str], suffix: &str) -> (r: Vec<usize>)
    ensures
        r@.map_values(|i: usize| i as int) == rest_splits(str_views(full@), suffix@),
{
    let ghost fv = str_views(full@);
    let mut positions: Vec<usize> = Vec::new();
    let n = full.len();
    let mut hi: usize = n;
    while hi > 0
        invariant
            n == full@.len(),
            fv == str_views(full@),
            hi <= n,
            splits_below(fv, suffix@, n as int) == positions@.map_values(|i: usize| i as int) + splits_below(fv, suffix@, hi as int),
        decreases hi,
    {
        let ghost before = positions@;
        if ends_with(full[hi - 1], suffix) {
            positions.push(hi - 1);
            assert(positions@.map_values(|i: usize| i as int) =~= before.map_values(|i: usize| i as int).push(hi - 1));
        }
        assert(fv[hi - 1] == full@[hi - 1]@);
        hi = hi - 1;
    }
    proof {
        assert(positions@.map_values(|i: usize| i as int) + splits_below(fv, suffix@, 0) =~= positions@.map_values(|i: usize| i as int));
    }
    positions
}

/// The segments up to and including `split_pos`, each stripped of
/// `suffix` where it ends with it.
pub fn build_captured(full: &[&str], split_pos: usize, suffix: &str) -> (r: Vec<String>)
    requires
        split_pos < full@.len(),
    ensures
        super::params::strings_view(r@) == captured_segments(str_views(full@), split_pos as int, suffix@),
{
    let mut r: Vec<String> = Vec::new();
    let mut i: usize = 0;
    while i <= split_pos
        invariant
            split_pos < full@.len(),
            i <= split_pos + 1,
            r@.len() == i,
            forall|j: int| 0 <= j < i ==> #[trigger] r@[j]@ == without_suffix(full@[j]@, suffix@),
        decreases split_pos + 1 - i,
    {
        let s = full[i];
        let v = match strip_suffix(s, suffix) {
            Some(t) => t,
            None => s,
        };
        r.push(v.to_owned());
        i = i + 1;
    }
    assert(super::params::strings_view(r@) =~= captured_segments(str_views(full@), split_pos as int, suffix@));
    r
}

/// Fold a single-segment match into the captures.
pub fn apply_capture(params: RouteParams, capture: CaptureResult) -> (r: RouteParams)
    ensures
        r.pv() == with_capture(params.pv(), capture.view_capture()),
{
    let mut params = params;
    match capture {
        CaptureResult::Single(name, value) => {
            params.insert_single(name, value);
        },
        CaptureResult::Matched => {},
    }
    params
}

impl RouteNode {
    /// Run the children handler, then append the static files and one
    /// directory per emitted exact sub-route.
    pub fn invoke_children<P: RouteHandlers>(&self, provider: &P, ctx: &RequestContext<'_>, params: RouteParams) -> (r: Nodes)
        ensures
            nodes_view(r) == spec_invoke_children(*self, *provider, ctx.path@, params.pv()),
    {
        let route_ctx = RouteCtx::new(ctx, params);
        let mut nodes: Vec<VirtualNode> = match self.children_handler {
            Some(h) => match provider.children(h, &route_ctx) {
                Err(e) => return Err(e),
                Ok(Some(v)) => v,
                Ok(None) => Vec::new(),
            },
            None => Vec::new(),
        };
        let ghost base = node_views(nodes@);
        let nf = self.static_files.len();
        let mut i: usize = 0;
        while i < nf
            invariant
                nf == self.static_files@.len(),
                i <= nf,
                node_views(nodes@) == base + static_views(self.static_files@).take(i as int),
            decreases nf - i,
        {
            let ghost prev = nodes@;
            nodes.push(self.static_files[i].node.duplicate());
            proof {
                assert(node_views(nodes@) =~= node_views(prev).push(self.static_files@[i as int].node@));
                assert(static_views(self.static_files@).take(i + 1) =~= static_views(self.static_files@).take(i as int).push(self.static_files@[i as int].node@));
            }
            i = i + 1;
        }
        assert(static_views(self.static_files@).take(nf as int) =~= static_views(self.static_files@));
        let ghost mid = node_views(nodes@);
        let ns = self.sub_routes.len();
        let mut j: usize = 0;
        while j < ns
            invariant
                ns == self.sub_routes@.len(),
                j <= ns,
                node_views(nodes@) == mid + emitted_dirs(self.sub_routes@, j as int),
            decreases ns - j,
        {
            let child = &self.sub_routes[j];
            let ghost prev = nodes@;
            if child.emit {
                match child.segment {
                    SegmentMatcher::Exact(name) => {
                        nodes.push(VirtualNode::directory(name));
                        assert(node_views(nodes@) =~= node_views(prev).push(nodes@.last()@));
                    },
                    _ => {},
                }
            }
            proof {
                assert(node_views(nodes@) =~= mid + emitted_dirs(self.sub_routes@, j + 1));
            }
            j = j + 1;
        }
        if nodes.len() == 0 {
            Ok(None)
        } else {
            Ok(Some(nodes))
        }
    }

    /// Resolve `name`: static files first, then the lookup handler, then
    /// the lookup handler of the first glob sub-route.
    pub fn invoke_lookup<P: RouteHandlers>(&self, provider: &P, ctx: &RequestContext<'_>, params: RouteParams, name: &str) -> (r: Node)
        ensures
            one_view(r) == spec_invoke_lookup(*self, *provider, ctx.path@, params.pv(), name@),
    {
        let ghost pv = params.pv();
        let nf = self.static_files.len();
        let mut i: usize = 0;
        while i < nf
            invariant
                nf == self.static_files@.len(),
                i <= nf,
                static_named(self.static_files@, name@, 0) == static_named(self.static_files@, name@, i as int),
            decreases nf - i,
        {
            if str_eq(self.static_files[i].name, name) {
                return Ok(Some(self.static_files[i].node.duplicate()));
            }
            i = i + 1;
        }
        let remaining_params = match self.lookup_handler {
            Some(h) => {
                let route_ctx = RouteCtx::new(ctx, params);
                match provider.lookup(h, &route_ctx, name) {
                    Err(e) => return Err(e),
                    Ok(Some(n)) => return Ok(Some(n)),
                    Ok(None) => {},
                }
                route_ctx.into_params()
            },
            None => params,
        };
        let ns = self.sub_routes.len();
        let mut j: usize = 0;
        while j < ns
            invariant
                ns == self.sub_routes@.len(),
                j <= ns,
                remaining_params.pv() == pv,
                params.pv() == pv,
                glob_lookup(self.sub_routes@, 0) == glob_lookup(self.sub_routes@, j as int),
                static_named(self.static_files@, name@, 0) is None,
                self.lookup_handler matches Some(h) ==> provider.spec_lookup(h@, ctx.path@, pv, name@) == Ok::<Option<NodeView>, Seq<char>>(None),
            decreases ns - j,
        {
            let child = &self.sub_routes[j];
            match child.segment {
                SegmentMatcher::Glob => match child.lookup_handler {
                    Some(h) => {
                        let route_ctx = RouteCtx::new(ctx, remaining_params);
                        return provider.lookup(h, &route_ctx, name);
                    },
                    None => {},
                },
                _ => {},
            }
            j = j + 1;
        }
        Ok(None)
    }
}


/// View of a walk outcome.
pub open spec fn walk_view(r: Result<MatchResult, HandlerError>) -> Result<MatchView, Seq<char>> {
    match r {
        Err(e) => Err(e.message@),
        Ok(m) => Ok(m.view_match()),
    }
}

/// View of a single route's claim.
pub open spec fn claim_view(r: Result<Option<MatchResult>, HandlerError>) -> Result<Option<MatchView>, Seq<char>> {
    match r {
        Err(e) => Err(e.message@),
        Ok(Some(m)) => Ok(Some(m.view_match())),
        Ok(None) => Ok(None),
    }
}

/// The listing a children walk yields.
pub open spec fn children_of(r: Result<MatchView, Seq<char>>) -> Result<Option<Seq<NodeView>>, Seq<char>> {
    match r {
        Err(e) => Err(e),
        Ok(m) => Ok(view_children(m)),
    }
}

/// The node a lookup walk yields.
pub open spec fn lookup_of(r: Result<MatchView, Seq<char>>) -> Result<Option<NodeView>, Seq<char>> {
    match r {
        Err(e) => Err(e),
        Ok(m) => Ok(view_lookup(m)),
    }
}

impl MatchResult {
    /// Whether the result carries something.
    pub fn is_found(&self) -> (r: bool)
        ensures
            r == found(self.view_match()),
    {
        match self {
            MatchResult::Children(v) => v.is_some(),
            MatchResult::Lookup(v) => v.is_some(),
        }
    }
}

/// Strings of `full` as owned strings.
fn owned_segments(full: &[&str]) -> (r: Vec<String>)
    ensures
        super::params::strings_view(r@) == str_views(full@),
{
    let mut r: Vec<String> = Vec::new();
    let n = full.len();
    let mut i: usize = 0;
    while i < n
        invariant
            n == full@.len(),
            i <= n,
            r@.len() == i,
            forall|j: int| 0 <= j < i ==> #[trigger] r@[j]@ == full@[j]@,
        decreases n - i,
    {
        r.push(full[i].to_owned());
        i = i + 1;
    }
    assert(super::params::strings_view(r@) =~= str_views(full@));
    r
}

/// Keep a walk result only when it carries something.
fn keep_if_found(r: Result<MatchResult, HandlerError>) -> (out: Result<Option<MatchResult>, HandlerError>)
    ensures
        claim_view(out) == keep_found(walk_view(r)),
{
    match r {
        Err(e) => Err(e),
        Ok(m) => if m.is_found() { Ok(Some(m)) } else { Ok(None) },
    }
}

impl RouteNode {
    /// Whether some sub-route matches `seg` by itself.
    pub fn any_sub_matches(&self, seg: &str) -> (r: bool)
        ensures
            r == some_sub_matches(self.sub_routes@, seg@),
    {
        let n = self.sub_routes.len();
        let mut i: usize = 0;
        while i < n
            invariant
                n == self.sub_routes@.len(),
                i <= n,
                forall|j: int| 0 <= j < i ==> (#[trigger] self.sub_routes@[j]).segment.spec_matches(seg@) is None,
            decreases n - i,
        {
            if self.sub_routes[i].segment.matches(seg).is_some() {
                return true;
            }
            i = i + 1;
        }
        false
    }

    /// Invoke this node in `mode`.
    pub fn invoke<P: RouteHandlers>(&self, provider: &P, ctx: &RequestContext<'_>, params: RouteParams, mode: &DispatchMode<'_>)
        -> (r: Result<MatchResult, HandlerError>)
        ensures
            walk_view(r) == spec_invoke(*self, *provider, ctx.path@, params.pv(), mode.view_mode()),
    {
        match mode {
            DispatchMode::Children => match self.invoke_children(provider, ctx, params) {
                Err(e) => Err(e),
                Ok(v) => Ok(MatchResult::Children(v)),
            },
            DispatchMode::Lookup { name } => match self.invoke_lookup(provider, ctx, params, name) {
                Err(e) => Err(e),
                Ok(v) => Ok(MatchResult::Lookup(v)),
            },
        }
    }

    /// The walk below this node over the `remaining` segments.
    pub fn dispatch<P: RouteHandlers>(&self, provider: &P, ctx: &RequestContext<'_>, remaining: &[&str],
        params: &RouteParams, mode: &DispatchMode<'_>) -> (r: Result<MatchResult, HandlerError>)
        ensures
            walk_view(r) == spec_dispatch(*self, *provider, ctx.path@, str_views(remaining@), params.pv(), mode.view_mode()),
        decreases *self, self.sub_routes@.len() + 1,
    {
        if remaining.len() == 0 {
            assert(str_views(remaining@).len() == 0);
            return self.invoke(provider, ctx, params.duplicate(), mode);
        }
        let ghost rem = str_views(remaining@);
        let n = self.sub_routes.len();
        let mut i: usize = 0;
        while i < n
            invariant
                n == self.sub_routes@.len(),
                i <= n,
                remaining@.len() > 0,
                rem == str_views(remaining@),
                spec_dispatch(*self, *provider, ctx.path@, rem, params.pv(), mode.view_mode())
                    == spec_scan(*self, *provider, ctx.path@, rem, params.pv(), mode.view_mode(), i as int),
            decreases n - i,
        {
            match try_match(&self.sub_routes[i], provider, ctx, remaining, params, mode) {
                Err(e) => return Err(e),
                Ok(Some(m)) => return Ok(m),
                Ok(None) => {},
            }
            i = i + 1;
        }
        match mode {
            DispatchMode::Children => Ok(MatchResult::Children(None)),
            DispatchMode::Lookup { .. } => Ok(MatchResult::Lookup(None)),
        }
    }

    /// Children (readdir) walk.
    pub fn dispatch_children<P: RouteHandlers>(&self, provider: &P, ctx: &RequestContext<'_>, remaining: &[&str],
        params: &RouteParams) -> (r: Nodes)
        ensures
            nodes_view(r) == children_of(spec_dispatch(*self, *provider, ctx.path@, str_views(remaining@), params.pv(), ModeView::Children)),
    {
        let mode = DispatchMode::Children;
        match self.dispatch(provider, ctx, remaining, params, &mode) {
            Err(e) => Err(e),
            Ok(m) => Ok(m.into_children()),
        }
    }

    /// Lookup walk for `name`.
    pub fn dispatch_lookup<P: RouteHandlers>(&self, provider: &P, ctx: &RequestContext<'_>, remaining: &[&str],
        name: &str, params: &RouteParams) -> (r: Node)
        ensures
            one_view(r) == lookup_of(spec_dispatch(*self, *provider, ctx.path@, str_views(remaining@), params.pv(), ModeView::Lookup(name@))),
    {
        let mode = DispatchMode::Lookup { name };
        match self.dispatch(provider, ctx, remaining, params, &mode) {
            Err(e) => Err(e),
            Ok(m) => Ok(m.into_lookup()),
        }
    }
}

/// Try one sub-route: `Some` when it claims the path, `None` to try the
/// next sibling. Exact and capture matchers descend, rest captures try
/// their split points, and a glob invokes its handler at any depth.
pub fn try_match<P: RouteHandlers>(child: &RouteNode, provider: &P, ctx: &RequestContext<'_>, remaining: &[&str],
    params: &RouteParams, mode: &DispatchMode<'_>) -> (r: Result<Option<MatchResult>, HandlerError>)
    ensures
        claim_view(r) == spec_try_match(*child, *provider, ctx.path@, str_views(remaining@), params.pv(), mode.view_mode()),
    decreases *child, child.sub_routes@.len() + 4 + remaining@.len(),
{
    if remaining.len() == 0 {
        return Ok(None);
    }
    let segment = remaining[0];
    match child.segment {
        SegmentMatcher::RestCapture { name, suffix } => {
            try_rest_capture(child, name, suffix, remaining, params, provider, ctx, mode)
        },
        SegmentMatcher::Glob => match mode {
            DispatchMode::Children => match child.invoke_children(provider, ctx, params.duplicate()) {
                Err(e) => Err(e),
                Ok(v) => Ok(Some(MatchResult::Children(v))),
            },
            DispatchMode::Lookup { name } => match child.lookup_handler {
                None => Ok(None),
                Some(h) => {
                    let route_ctx = RouteCtx::new(ctx, params.duplicate());
                    match provider.lookup(h, &route_ctx, name) {
                        Err(e) => Err(e),
                        Ok(v) => Ok(Some(MatchResult::Lookup(v))),
                    }
                },
            },
        },
        _ => match child.segment.matches(segment) {
            None => Ok(None),
            Some(capture) => {
                let next = apply_capture(params.duplicate(), capture);
                let rest = slice_subrange(remaining, 1, remaining.len());
                assert(str_views(rest@) =~= str_views(remaining@).drop_first());
                match child.dispatch(provider, ctx, rest, &next, mode) {
                    Err(e) => Err(e),
                    Ok(m) => Ok(Some(m)),
                }
            },
        },
    }
}

/// Rest-capture matching. Without a suffix the capture takes every
/// remaining segment; with one, split points are tried rightmost first.
fn try_rest_capture<P: RouteHandlers>(child: &RouteNode, capture_name: &'static str, suffix: Option<&'static str>,
    full: &[&str], params: &RouteParams, provider: &P, ctx: &RequestContext<'_>, mode: &DispatchMode<'_>)
    -> (r: Result<Option<MatchResult>, HandlerError>)
    requires
        full@.len() > 0,
        child.segment == (SegmentMatcher::RestCapture { name: capture_name, suffix }),
    ensures
        claim_view(r) == spec_try_match(*child, *provider, ctx.path@, str_views(full@), params.pv(), mode.view_mode()),
    decreases *child, child.sub_routes@.len() + 3 + full@.len(),
{
    let ghost fv = str_views(full@);
    match suffix {
        None => {
            let mut next = params.duplicate();
            next.insert_rest(capture_name, owned_segments(full));
            let empty: Vec<&str> = Vec::new();
            assert(str_views(empty@) =~= Seq::<Seq<char>>::empty());
            keep_if_found(child.dispatch(provider, ctx, empty.as_slice(), &next, mode))
        },
        Some(sfx) => {
            proof { lemma_splits_len(fv, sfx@, fv.len() as int); }
            let splits = find_rest_splits(full, sfx);
            let ns = splits.len();
            let nfull = full.len();
            let mut k: usize = 0;
            while k < ns
                invariant
                    ns == splits@.len(),
                    k <= ns,
                    fv == str_views(full@),
                    fv.len() == full@.len(),
                    nfull == full@.len(),
                    fv.len() > 0,
                    splits@.map_values(|i: usize| i as int) == rest_splits(fv, sfx@),
                    forall|j: int| 0 <= j < rest_splits(fv, sfx@).len() ==> 0 <= #[trigger] rest_splits(fv, sfx@)[j] < fv.len(),
                    spec_try_match(*child, *provider, ctx.path@, fv, params.pv(), mode.view_mode())
                        == spec_rest_loop(*child, *provider, ctx.path@, fv, params.pv(), mode.view_mode(), capture_name@, sfx@, k as int),
                decreases ns - k,
            {
                let pos = splits[k];
                assert(splits@.map_values(|i: usize| i as int).len() == ns);
                assert(splits@.map_values(|i: usize| i as int)[k as int] == pos as int);
                assert(rest_splits(fv, sfx@)[k as int] == pos as int);
                assert(pos < full@.len());
                let captured = build_captured(full, pos, sfx);
                let mut next = params.duplicate();
                next.insert_rest(capture_name, captured);
                let remaining = slice_subrange(full, pos + 1, nfull);
                assert(str_views(remaining@) =~= fv.subrange(pos + 1, fv.len() as int));
                if remaining.len() == 0 {
                    assert(str_views(remaining@) =~= Seq::<Seq<char>>::empty());
                    return keep_if_found(child.dispatch(provider, ctx, remaining, &next, mode));
                }
                if child.any_sub_matches(remaining[0]) {
                    match child.dispatch(provider, ctx, remaining, &next, mode) {
                        Err(e) => return Err(e),
                        Ok(m) => {
                            if m.is_found() {
                                return Ok(Some(m));
                            }
                        },
                    }
                }
                k = k + 1;
            }
            Ok(None)
        },
    }
}

impl<P> RouteTree<P> {
    /// A tree rooted at `root`.
    pub fn from_root(root: RouteNode) -> (r: Self)
        ensures
            r.root == root,
    {
        RouteTree { root, provider: core::marker::PhantomData }
    }
}

impl<P: RouteHandlers> RouteTree<P> {
    /// Re-run the walk and pick the listed node called `name`.
    pub fn rebuild_node(&self, provider: &P, ctx: &RequestContext<'_>, name: &str) -> (r: Node)
        ensures
            one_view(r) == match children_of(spec_dispatch(self.root, *provider, ctx.path@, ctx.path@,
                empty_params(), ModeView::Children)) {
                Err(e) => Err(e),
                Ok(None) => Ok(None),
                Ok(Some(ns)) => Ok(first_named(ns, name@, 0)),
            },
    {
        match self.children(provider, ctx) {
            Err(e) => Err(e),
            Ok(None) => Ok(None),
            Ok(Some(nodes)) => {
                let mut nodes = nodes;
                let ghost all = node_views(nodes@);
                let n = nodes.len();
                let mut i: usize = 0;
                while i < n
                    invariant
                        n == nodes@.len(),
                        i <= n,
                        node_views(nodes@) == all,
                        first_named(all, name@, 0) == first_named(all, name@, i as int),
                        children_of(spec_dispatch(self.root, *provider, ctx.path@, ctx.path@,
                            empty_params(), ModeView::Children)) == Ok::<Option<Seq<NodeView>>, Seq<char>>(Some(all)),
                    decreases n - i,
                {
                    if str_eq(nodes[i].name(), name) {
                        assert(all[i as int] == nodes@[i as int]@);
                        let found = nodes.swap_remove(i);
                        return Ok(Some(found));
                    }
                    i = i + 1;
                }
                Ok(None)
            },
        }
    }

    /// Children (readdir) walk for the request path.
    pub fn children(&self, provider: &P, ctx: &RequestContext<'_>) -> (r: Nodes)
        ensures
            nodes_view(r) == children_of(spec_dispatch(self.root, *provider, ctx.path@, ctx.path@,
                empty_params(), ModeView::Children)),
    {
        let segments = ctx.path.segments();
        let params = RouteParams::new();
        self.root.dispatch_children(provider, ctx, segments.as_slice(), &params)
    }

    /// Lookup walk for `name` in the request path.
    pub fn lookup(&self, provider: &P, ctx: &RequestContext<'_>, name: &str) -> (r: Node)
        ensures
            one_view(r) == lookup_of(spec_dispatch(self.root, *provider, ctx.path@, ctx.path@,
                empty_params(), ModeView::Lookup(name@))),
    {
        let segments = ctx.path.segments();
        let params = RouteParams::new();
        self.root.dispatch_lookup(provider, ctx, segments.as_slice(), name, &params)
    }

    /// Children walk from explicit segments with pre-populated captures.
    pub fn children_at(&self, provider: &P, ctx: &RequestContext<'_>, segments: &[&str], params: &RouteParams) -> (r: Nodes)
        ensures
            nodes_view(r) == children_of(spec_dispatch(self.root, *provider, ctx.path@, str_views(segments@),
                params.pv(), ModeView::Children)),
    {
        self.root.dispatch_children(provider, ctx, segments, params)
    }

    /// Lookup walk from explicit segments with pre-populated captures.
    pub fn lookup_at(&self, provider: &P, ctx: &RequestContext<'_>, segments: &[&str], name: &str, params: &RouteParams) -> (r: Node)
        ensures
            one_view(r) == lookup_of(spec_dispatch(self.root, *provider, ctx.path@, str_views(segments@),
                params.pv(), ModeView::Lookup(name@))),
    {
        self.root.dispatch_lookup(provider, ctx, segments, name, params)
    }
}

/// The first static file named `name` from index `i` on is the one at `j`.
proof fn lemma_static_named_at(files: Seq<StaticFileEntry>, name: Seq<char>, i: int, j: int)
    requires
        0 <= i <= j < files.len(),
        files[j].name@ == name,
        forall|q: int| i <= q < j ==> (#[trigger] files[q]).name@ != name,
    ensures
        static_named(files, name, i) == Some(files[j].node@),
    decreases j - i,
{
    if i < j {
        lemma_static_named_at(files, name, i + 1, j);
    }
}

/// A route node's static files are consulted before its handlers: looking
/// up a name that one of its static files has gives the first such file,
/// and no lookup handler is asked.
pub proof fn law_static_files_first<P: RouteHandlers>(
    node: RouteNode,
    p: P,
    path: Seq<Seq<char>>,
    params: ParamsView,
    name: Seq<char>,
    j: int,
)
    requires
        0 <= j < node.static_files@.len(),
        node.static_files@[j].name@ == name,
        forall|q: int| 0 <= q < j ==> (#[trigger] node.static_files@[q]).name@ != name,
    ensures
        spec_invoke_lookup(node, p, path, params, name) == Ok::<Option<NodeView>, Seq<char>>(Some(node.static_files@[j].node@)),
{
    lemma_static_named_at(node.static_files@, name, 0, j);
}

/// A walk that has reached `node` with no segment left looks a name up in
/// the node's static files first: the first static file with that name is
/// the result, whatever the handlers would say.
pub proof fn law_walk_end_static_first<P: RouteHandlers>(
    node: RouteNode,
    p: P,
    path: Seq<Seq<char>>,
    params: ParamsView,
    name: Seq<char>,
    j: int,
)
    requires
        0 <= j < node.static_files@.len(),
        node.static_files@[j].name@ == name,
        forall|q: int| 0 <= q < j ==> (#[trigger] node.static_files@[q]).name@ != name,
    ensures
        lookup_of(spec_dispatch(node, p, path, Seq::empty(), params, ModeView::Lookup(name)))
            == Ok::<Option<NodeView>, Seq<char>>(Some(node.static_files@[j].node@)),
{
    law_static_files_first(node, p, path, params, name, j);
}

} // verus!

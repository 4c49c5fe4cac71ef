//! Fluent builder API for route trees.
//!
//! Sub-routes are ordered by matcher precedence when a node is built
//! (exact before captures before rest captures before globs), stably, so
//! the walk always tries the most specific matcher first.

use vstd::prelude::*;
use crate::node::VirtualNode;
use super::segment::SegmentMatcher;
use super::tree::{RouteNode, RouteTree, StaticFileEntry};

verus! {

/// Builder for a route tree; its root matches the mount root.
pub struct RouteTreeBuilder<P> {
    pub root: RouteNodeBuilder,
    pub provider: core::marker::PhantomData<P>,
}

/// Builder for one route node.
pub struct RouteNodeBuilder {
    pub segment: SegmentMatcher,
    pub children_handler: Option<&'static str>,
    pub lookup_handler: Option<&'static str>,
    pub static_files: Vec<StaticFileEntry>,
    pub sub_routes: Vec<RouteNodeBuilder>,
    pub emit: bool,
}

/// The subsequence of `s` whose matchers have precedence `r`, in order.
pub open spec fn bucket(s: Seq<SegmentMatcher>, r: u8) -> Seq<int>
    decreases s.len(),
{
    if s.len() == 0 {
        Seq::empty()
    } else if s.last().spec_precedence() == r {
        bucket(s.drop_last(), r).push(s.len() - 1)
    } else {
        bucket(s.drop_last(), r)
    }
}

/// Matchers of a sequence of nodes.
pub open spec fn node_segments(s: Seq<RouteNode>) -> Seq<SegmentMatcher> {
    s.map_values(|n: RouteNode| n.segment)
}

/// Matchers of a sequence of builders.
pub open spec fn builder_segments(s: Seq<RouteNodeBuilder>) -> Seq<SegmentMatcher> {
    s.map_values(|b: RouteNodeBuilder| b.segment)
}

/// Sub-routes are ordered by non-decreasing precedence.
pub open spec fn sorted_by_precedence(s: Seq<RouteNode>) -> bool {
    forall|i: int, j: int| 0 <= i < j < s.len() ==>
        (#[trigger] s[i]).segment.spec_precedence() <= (#[trigger] s[j]).segment.spec_precedence()
}

/// `n` is what building `b` yields: the same matcher, handlers, static
/// files and emission flag, and sub-routes that are the built
/// sub-builders, stably ordered by precedence.
pub open spec fn built_from(n: RouteNode, b: RouteNodeBuilder) -> bool
    decreases b,
{
    &&& n.segment == b.segment
    &&& n.children_handler == b.children_handler
    &&& n.lookup_handler == b.lookup_handler
    &&& n.static_files == b.static_files
    &&& n.emit == b.emit
    &&& n.sub_routes@.len() == b.sub_routes@.len()
    &&& sorted_by_precedence(n.sub_routes@)
    &&& forall|r: u8| #![trigger bucket(node_segments(n.sub_routes@), r)]
        bucket(node_segments(n.sub_routes@), r).len() == bucket(builder_segments(b.sub_routes@), r).len()
        && forall|k: int| #![trigger bucket(node_segments(n.sub_routes@), r)[k]]
            0 <= k < bucket(node_segments(n.sub_routes@), r).len() ==> {
            &&& 0 <= bucket(node_segments(n.sub_routes@), r)[k] < n.sub_routes@.len()
            &&& 0 <= bucket(builder_segments(b.sub_routes@), r)[k] < b.sub_routes@.len()
            &&& built_from(n.sub_routes@[bucket(node_segments(n.sub_routes@), r)[k]],
                    b.sub_routes@[bucket(builder_segments(b.sub_routes@), r)[k]])
        }
}

/// The sub-routes of `n` with precedence `r` are, in order, built from the
/// sub-builders of `b` with precedence `r`.
pub open spec fn bucket_matches(n: RouteNode, b: RouteNodeBuilder, r: u8) -> bool {
    let nb = bucket(node_segments(n.sub_routes@), r);
    let bb = bucket(builder_segments(b.sub_routes@), r);
    &&& nb.len() == bb.len()
    &&& forall|k: int| #![trigger nb[k]] 0 <= k < nb.len() ==> {
        &&& 0 <= nb[k] < n.sub_routes@.len()
        &&& 0 <= bb[k] < b.sub_routes@.len()
        &&& built_from(n.sub_routes@[nb[k]], b.sub_routes@[bb[k]])
    }
}

/// One precedence bucket of a concatenation of built buckets matches.
pub proof fn lemma_one_bucket(n: RouteNode, b: RouteNodeBuilder, v: Seq<RouteNode>, o: int, q: u8)
    requires
        bucket_built(v, b.sub_routes@, b.sub_routes@.len() as int, q),
        b.sub_routes@.take(b.sub_routes@.len() as int) == b.sub_routes@,
        0 <= o,
        o + v.len() <= n.sub_routes@.len(),
        forall|k: int| 0 <= k < v.len() ==> n.sub_routes@[o + k] == #[trigger] v[k],
        bucket(node_segments(n.sub_routes@), q).len() == v.len(),
        forall|k: int| 0 <= k < v.len() ==> #[trigger] bucket(node_segments(n.sub_routes@), q)[k] == o + k,
    ensures
        bucket_matches(n, b, q),
{
    let nb = bucket(node_segments(n.sub_routes@), q);
    let bb = bucket(builder_segments(b.sub_routes@), q);
    assert forall|k: int| #![trigger nb[k]] 0 <= k < nb.len() implies {
        &&& 0 <= nb[k] < n.sub_routes@.len()
        &&& 0 <= bb[k] < b.sub_routes@.len()
        &&& built_from(n.sub_routes@[nb[k]], b.sub_routes@[bb[k]])
    } by {
        assert(nb[k] == o + k);
        assert(n.sub_routes@[o + k] == v[k]);
    }
}

/// Every index `bucket` returns is an in-range position holding precedence `r`.
pub proof fn lemma_bucket_range(s: Seq<SegmentMatcher>, r: u8)
    ensures
        forall|k: int| 0 <= k < bucket(s, r).len() ==> 0 <= #[trigger] bucket(s, r)[k] < s.len()
            && s[bucket(s, r)[k]].spec_precedence() == r,
        bucket(s, r).len() <= s.len(),
    decreases s.len(),
{
    if s.len() > 0 {
        lemma_bucket_range(s.drop_last(), r);
    }
}

/// With no matcher of precedence `r`, the bucket is empty.
pub proof fn lemma_bucket_none(s: Seq<SegmentMatcher>, r: u8)
    requires
        forall|j: int| 0 <= j < s.len() ==> (#[trigger] s[j]).spec_precedence() != r,
    ensures
        bucket(s, r).len() == 0,
    decreases s.len(),
{
    if s.len() > 0 {
        lemma_bucket_none(s.drop_last(), r);
    }
}

/// When the matchers of precedence `r` occupy exactly `[lo, hi)`, with
/// lower precedences before and higher ones after, the bucket is that range.
pub proof fn lemma_bucket_block(s: Seq<SegmentMatcher>, r: u8, lo: int, hi: int)
    requires
        0 <= lo <= hi,
        forall|j: int| 0 <= j < s.len() && j < lo ==> (#[trigger] s[j]).spec_precedence() < r,
        forall|j: int| 0 <= j < s.len() && lo <= j < hi ==> (#[trigger] s[j]).spec_precedence() == r,
        forall|j: int| 0 <= j < s.len() && hi <= j ==> (#[trigger] s[j]).spec_precedence() > r,
        hi <= s.len(),
    ensures
        bucket(s, r).len() == hi - lo,
        forall|k: int| 0 <= k < hi - lo ==> #[trigger] bucket(s, r)[k] == lo + k,
    decreases s.len(),
{
    if s.len() == 0 {
    } else if s.len() > hi {
        lemma_bucket_block(s.drop_last(), r, lo, hi);
    } else if s.len() > lo {
        lemma_bucket_block(s.drop_last(), r, lo, hi - 1);
    } else {
        lemma_bucket_none(s, r);
    }
}

/// Precedences are at most five.
pub proof fn lemma_precedence_bound(m: SegmentMatcher)
    ensures
        m.spec_precedence() <= 5,
{
}

/// A builder with only its matcher set; exact matchers are emitted.
pub open spec fn fresh(b: RouteNodeBuilder, segment: SegmentMatcher) -> bool {
    &&& b.segment == segment
    &&& b.children_handler is None
    &&& b.lookup_handler is None
    &&& b.static_files@.len() == 0
    &&& b.sub_routes@.len() == 0
    &&& b.emit == (segment is Exact)
}

/// Every matcher falls in exactly one of the precedence buckets 0 to 5.
pub proof fn lemma_bucket_total(s: Seq<SegmentMatcher>)
    ensures
        bucket(s, 0).len() + bucket(s, 1).len() + bucket(s, 2).len() + bucket(s, 3).len()
            + bucket(s, 4).len() + bucket(s, 5).len() == s.len(),
    decreases s.len(),
{
    if s.len() > 0 {
        lemma_bucket_total(s.drop_last());
        lemma_precedence_bound(s.last());
    }
}

/// Concatenating the six buckets of built sub-routes, in precedence order,
/// yields the sub-routes of a node built from `b`.
pub proof fn lemma_build_result(r: RouteNode, b: RouteNodeBuilder,
    v0: Seq<RouteNode>, v1: Seq<RouteNode>, v2: Seq<RouteNode>, v3: Seq<RouteNode>, v4: Seq<RouteNode>, v5: Seq<RouteNode>)
    requires
        r.segment == b.segment,
        r.children_handler == b.children_handler,
        r.lookup_handler == b.lookup_handler,
        r.static_files == b.static_files,
        r.emit == b.emit,
        r.sub_routes@ == v0 + v1 + v2 + v3 + v4 + v5,
        bucket_built(v0, b.sub_routes@, b.sub_routes@.len() as int, 0),
        bucket_built(v1, b.sub_routes@, b.sub_routes@.len() as int, 1),
        bucket_built(v2, b.sub_routes@, b.sub_routes@.len() as int, 2),
        bucket_built(v3, b.sub_routes@, b.sub_routes@.len() as int, 3),
        bucket_built(v4, b.sub_routes@, b.sub_routes@.len() as int, 4),
        bucket_built(v5, b.sub_routes@, b.sub_routes@.len() as int, 5),
    ensures
        built_from(r, b),
{
    let subs = b.sub_routes@;
    assert(subs.take(subs.len() as int) =~= subs);
    let bsegs = builder_segments(subs);
    lemma_bucket_total(bsegs);
    let s = r.sub_routes@;
    let o1 = v0.len() as int;
    let o2 = o1 + v1.len();
    let o3 = o2 + v2.len();
    let o4 = o3 + v3.len();
    let o5 = o4 + v4.len();
    let o6 = o5 + v5.len();
    assert(s.len() == o6);
    assert(o6 == subs.len());
    assert forall|j: int| 0 <= j < s.len() implies
        #[trigger] s[j] == (if j < o1 { v0[j] } else if j < o2 { v1[j - o1] } else if j < o3 { v2[j - o2] }
            else if j < o4 { v3[j - o3] } else if j < o5 { v4[j - o4] } else { v5[j - o5] }) by {
    }
    let nsegs = node_segments(s);
    assert forall|j: int| 0 <= j < s.len() implies
        (#[trigger] nsegs[j]).spec_precedence() == (if j < o1 { 0u8 } else if j < o2 { 1u8 } else if j < o3 { 2u8 }
            else if j < o4 { 3u8 } else if j < o5 { 4u8 } else { 5u8 }) by {
        assert(nsegs[j] == s[j].segment);
        if j < o1 { assert(s[j] == v0[j]); } else if j < o2 { assert(s[j] == v1[j - o1]); }
        else if j < o3 { assert(s[j] == v2[j - o2]); } else if j < o4 { assert(s[j] == v3[j - o3]); }
        else if j < o5 { assert(s[j] == v4[j - o4]); } else { assert(s[j] == v5[j - o5]); }
    }
    assert(sorted_by_precedence(s)) by {
        assert forall|i: int, j: int| 0 <= i < j < s.len() implies
            (#[trigger] s[i]).segment.spec_precedence() <= (#[trigger] s[j]).segment.spec_precedence() by {
            assert(nsegs[i] == s[i].segment);
            assert(nsegs[j] == s[j].segment);
        }
    }
    lemma_bucket_block(nsegs, 0, 0, o1);
    lemma_bucket_block(nsegs, 1, o1, o2);
    lemma_bucket_block(nsegs, 2, o2, o3);
    lemma_bucket_block(nsegs, 3, o3, o4);
    lemma_bucket_block(nsegs, 4, o4, o5);
    lemma_bucket_block(nsegs, 5, o5, o6);
    assert forall|q: u8| #![trigger bucket(node_segments(r.sub_routes@), q)]
        bucket(node_segments(r.sub_routes@), q).len() == bucket(builder_segments(b.sub_routes@), q).len()
        && forall|k: int| #![trigger bucket(node_segments(r.sub_routes@), q)[k]]
            0 <= k < bucket(node_segments(r.sub_routes@), q).len() ==> {
            &&& 0 <= bucket(node_segments(r.sub_routes@), q)[k] < r.sub_routes@.len()
            &&& 0 <= bucket(builder_segments(b.sub_routes@), q)[k] < b.sub_routes@.len()
            &&& built_from(r.sub_routes@[bucket(node_segments(r.sub_routes@), q)[k]],
                    b.sub_routes@[bucket(builder_segments(b.sub_routes@), q)[k]])
        } by {
        if q == 0 { lemma_one_bucket(r, b, v0, 0, 0); }
        else if q == 1 { lemma_one_bucket(r, b, v1, o1, 1); }
        else if q == 2 { lemma_one_bucket(r, b, v2, o2, 2); }
        else if q == 3 { lemma_one_bucket(r, b, v3, o3, 3); }
        else if q == 4 { lemma_one_bucket(r, b, v4, o4, 4); }
        else if q == 5 { lemma_one_bucket(r, b, v5, o5, 5); }
        else {
            lemma_bucket_block(nsegs, q, o6, o6);
            assert forall|j: int| 0 <= j < bsegs.len() implies (#[trigger] bsegs[j]).spec_precedence() != q by {
                lemma_precedence_bound(bsegs[j]);
            }
            lemma_bucket_none(bsegs, q);
        }
    }
    assert(r.sub_routes@.len() == b.sub_routes@.len());
    assert(sorted_by_precedence(r.sub_routes@));
    assert(r.static_files == b.static_files);
}

/// Building the `i`-th sub-route extends the bucket of its precedence.
pub proof fn lemma_bucket_built_step(v: Seq<RouteNode>, subs: Seq<RouteNodeBuilder>, i: int, r: u8, node: RouteNode)
    requires
        bucket_built(v, subs, i, r),
        0 <= i < subs.len(),
        built_from(node, subs[i]),
    ensures
        node.segment.spec_precedence() == r ==> bucket_built(v.push(node), subs, i + 1, r),
        node.segment.spec_precedence() != r ==> bucket_built(v, subs, i + 1, r),
{
    let a = builder_segments(subs.take(i + 1));
    let b = builder_segments(subs.take(i));
    assert(a.drop_last() =~= b);
    assert(a.last() == subs[i].segment);
    lemma_bucket_range(b, r);
    if node.segment.spec_precedence() == r {
        assert(bucket(a, r) == bucket(b, r).push(i));
        let w = v.push(node);
        assert forall|k: int| #![trigger w[k]] 0 <= k < w.len() implies
            0 <= bucket(a, r)[k] < subs.len() && built_from(w[k], subs[bucket(a, r)[k]]) by {
            if k < v.len() {
                assert(w[k] == v[k]);
            }
        }
    } else {
        assert(bucket(a, r) == bucket(b, r));
    }
}

/// One bucket of the sub-routes built so far: nodes of precedence `r`, each
/// built from the corresponding builder among the first `i`.
pub open spec fn bucket_built(v: Seq<RouteNode>, subs: Seq<RouteNodeBuilder>, i: int, r: u8) -> bool {
    let bs = bucket(builder_segments(subs.take(i)), r);
    &&& v.len() == bs.len()
    &&& forall|k: int| 0 <= k < v.len() ==> (#[trigger] v[k]).segment.spec_precedence() == r
    &&& forall|k: int| #![trigger v[k]] 0 <= k < v.len() ==> 0 <= bs[k] < subs.len() && built_from(v[k], subs[bs[k]])
}

impl RouteNodeBuilder {
    /// A node builder for `segment`; exact segments are emitted by default.
    pub fn new(segment: SegmentMatcher) -> (r: Self)
        ensures
            fresh(r, segment),
    {
        let emit = match segment {
            SegmentMatcher::Exact(_) => true,
            _ => false,
        };
        RouteNodeBuilder {
            segment,
            children_handler: None,
            lookup_handler: None,
            static_files: Vec::new(),
            sub_routes: Vec::new(),
            emit,
        }
    }

    /// Do not list this node as a directory in its parent.
    pub fn no_emit(self) -> (r: Self)
        ensures
            r == (RouteNodeBuilder { emit: false, ..self }),
    {
        RouteNodeBuilder { emit: false, ..self }
    }

    /// Exact segment match.
    pub fn exact(name: &'static str) -> (r: Self)
        ensures
            fresh(r, SegmentMatcher::Exact(name)),
    {
        Self::new(SegmentMatcher::Exact(name))
    }

    /// Single-segment capture with optional prefix and suffix.
    pub fn capture(name: &'static str, prefix: Option<&'static str>, suffix: Option<&'static str>) -> (r: Self)
        ensures
            fresh(r, SegmentMatcher::Capture { name, prefix, suffix }),
    {
        Self::new(SegmentMatcher::Capture { name, prefix, suffix })
    }

    /// Rest capture (one or more segments) with an optional suffix.
    pub fn rest_capture(name: &'static str, suffix: Option<&'static str>) -> (r: Self)
        ensures
            fresh(r, SegmentMatcher::RestCapture { name, suffix }),
    {
        Self::new(SegmentMatcher::RestCapture { name, suffix })
    }

    /// Glob match.
    pub fn glob() -> (r: Self)
        ensures
            fresh(r, SegmentMatcher::Glob),
    {
        Self::new(SegmentMatcher::Glob)
    }

    /// Set the children handler.
    pub fn children(self, handler: &'static str) -> (r: Self)
        ensures
            r == (RouteNodeBuilder { children_handler: Some(handler), ..self }),
    {
        RouteNodeBuilder { children_handler: Some(handler), ..self }
    }

    /// Set the lookup handler.
    pub fn lookup(self, handler: &'static str) -> (r: Self)
        ensures
            r == (RouteNodeBuilder { lookup_handler: Some(handler), ..self }),
    {
        RouteNodeBuilder { lookup_handler: Some(handler), ..self }
    }

    /// Add a static file listed and found under `name`.
    pub fn file(self, name: &'static str, node: VirtualNode) -> (r: Self)
        ensures
            r.static_files@.len() == self.static_files@.len() + 1,
            r.static_files@.drop_last() == self.static_files@,
            r.static_files@.last().name == name,
            r.static_files@.last().node == node,
            r.segment == self.segment,
            r.children_handler == self.children_handler,
            r.lookup_handler == self.lookup_handler,
            r.sub_routes == self.sub_routes,
            r.emit == self.emit,
    {
        let mut b = self;
        b.static_files.push(StaticFileEntry { name, node });
        proof { assert(b.static_files@.drop_last() =~= self.static_files@); }
        b
    }

    /// Add a sub-route.
    pub fn route(self, child: Self) -> (r: Self)
        ensures
            r.sub_routes@ == self.sub_routes@.push(child),
            r.segment == self.segment,
            r.children_handler == self.children_handler,
            r.lookup_handler == self.lookup_handler,
            r.static_files == self.static_files,
            r.emit == self.emit,
    {
        let mut b = self;
        b.sub_routes.push(child);
        b
    }

    /// Build the node, building every sub-route and ordering them stably
    /// by precedence.
    pub fn build(self) -> (r: RouteNode)
        ensures
            built_from(r, self),
        decreases self,
    {
        let ghost this = self;
        let ghost subs = self.sub_routes@;
        let RouteNodeBuilder { segment, children_handler, lookup_handler, static_files, sub_routes, emit } = self;
        let mut pending = sub_routes;
        let n = pending.len();
        let mut b0: Vec<RouteNode> = Vec::new();
        let mut b1: Vec<RouteNode> = Vec::new();
        let mut b2: Vec<RouteNode> = Vec::new();
        let mut b3: Vec<RouteNode> = Vec::new();
        let mut b4: Vec<RouteNode> = Vec::new();
        let mut b5: Vec<RouteNode> = Vec::new();
        let mut i: usize = 0;
        assert(builder_segments(subs.take(0)) =~= Seq::<SegmentMatcher>::empty());
        while i < n
            invariant
                n == subs.len(),
                i <= n,
                subs == this.sub_routes@,
                self == this,
                pending@ == subs.subrange(i as int, n as int),
                bucket_built(b0@, subs, i as int, 0),
                bucket_built(b1@, subs, i as int, 1),
                bucket_built(b2@, subs, i as int, 2),
                bucket_built(b3@, subs, i as int, 3),
                bucket_built(b4@, subs, i as int, 4),
                bucket_built(b5@, subs, i as int, 5),
            decreases n - i,
        {
            let child = pending.remove(0);
            assert(child == subs[i as int]);
            proof {
                assert(decreases_to!(this => this.sub_routes));
                assert(decreases_to!(this.sub_routes => this.sub_routes@));
                assert(decreases_to!(this.sub_routes@ => this.sub_routes@[i as int]));
                assert(decreases_to!(this => child));
            }
            let node = child.build();
            let p = node.segment.precedence();
            proof {
                lemma_bucket_built_step(b0@, subs, i as int, 0, node);
                lemma_bucket_built_step(b1@, subs, i as int, 1, node);
                lemma_bucket_built_step(b2@, subs, i as int, 2, node);
                lemma_bucket_built_step(b3@, subs, i as int, 3, node);
                lemma_bucket_built_step(b4@, subs, i as int, 4, node);
                lemma_bucket_built_step(b5@, subs, i as int, 5, node);
            }
            if p == 0 {
                b0.push(node);
            } else if p == 1 {
                b1.push(node);
            } else if p == 2 {
                b2.push(node);
            } else if p == 3 {
                b3.push(node);
            } else if p == 4 {
                b4.push(node);
            } else {
                b5.push(node);
            }
            proof {
                assert(pending@ =~= subs.subrange(i + 1, n as int));
            }
            i = i + 1;
        }
        let ghost v0 = b0@;
        let ghost v1 = b1@;
        let ghost v2 = b2@;
        let ghost v3 = b3@;
        let ghost v4 = b4@;
        let ghost v5 = b5@;
        let mut out = b0;
        out.append(&mut b1);
        out.append(&mut b2);
        out.append(&mut b3);
        out.append(&mut b4);
        out.append(&mut b5);
        let r = RouteNode { segment, children_handler, lookup_handler, static_files, sub_routes: out, emit };
        proof { lemma_build_result(r, this, v0, v1, v2, v3, v4, v5); }
        r
    }
}

impl<P> RouteTreeBuilder<P> {
    /// An empty tree: a root node with no handlers and no sub-routes.
    pub fn new() -> (r: Self)
        ensures
            fresh(r.root, SegmentMatcher::Root),
    {
        RouteTreeBuilder { root: RouteNodeBuilder::new(SegmentMatcher::Root), provider: core::marker::PhantomData }
    }

    /// Add a sub-route at the root.
    pub fn route(self, child: RouteNodeBuilder) -> (r: Self)
        ensures
            r.root.sub_routes@ == self.root.sub_routes@.push(child),
            r.root.segment == self.root.segment,
            r.root.children_handler == self.root.children_handler,
            r.root.lookup_handler == self.root.lookup_handler,
            r.root.static_files == self.root.static_files,
            r.root.emit == self.root.emit,
    {
        RouteTreeBuilder { root: self.root.route(child), provider: core::marker::PhantomData }
    }

    /// Set the root children handler.
    pub fn children(self, handler: &'static str) -> (r: Self)
        ensures
            r.root == (RouteNodeBuilder { children_handler: Some(handler), ..self.root }),
    {
        RouteTreeBuilder { root: self.root.children(handler), provider: core::marker::PhantomData }
    }

    /// Set the root lookup handler.
    pub fn lookup(self, handler: &'static str) -> (r: Self)
        ensures
            r.root == (RouteNodeBuilder { lookup_handler: Some(handler), ..self.root }),
    {
        RouteTreeBuilder { root: self.root.lookup(handler), provider: core::marker::PhantomData }
    }

    /// Build the tree, ordering sub-routes by precedence at every level.
    pub fn build(self) -> (r: RouteTree<P>)
        ensures
            built_from(r.root, self.root),
    {
        RouteTree::from_root(self.root.build())
    }
}

impl<P> Default for RouteTreeBuilder<P> {
    fn default() -> (r: Self)
        ensures
            fresh(r.root, SegmentMatcher::Root),
    {
        RouteTreeBuilder::new()
    }
}

/// The positions of a bucket rise, and each holds a matcher of that rank.
pub proof fn lemma_bucket_increasing(s: Seq<SegmentMatcher>, r: u8)
    ensures
        forall|k1: int, k2: int| 0 <= k1 < k2 < bucket(s, r).len() ==> #[trigger] bucket(s, r)[k1] < #[trigger] bucket(s, r)[k2],
        forall|k: int| 0 <= k < bucket(s, r).len() ==> 0 <= #[trigger] bucket(s, r)[k] < s.len()
            && s[bucket(s, r)[k]].spec_precedence() == r,
    decreases s.len(),
{
    if s.len() > 0 {
        let front = s.drop_last();
        lemma_bucket_increasing(front, r);
        assert forall|k: int| 0 <= k < bucket(front, r).len() implies s[#[trigger] bucket(front, r)[k]] == front[bucket(front, r)[k]] by {}
    }
}

/// Building orders sub-routes by precedence, stably: the sub-routes are
/// in non-decreasing precedence, and among those of one rank, the k-th is
/// built from the k-th sub-builder of that rank, in the order the
/// sub-builders were added.
pub proof fn law_build_is_stable(n: RouteNode, b: RouteNodeBuilder)
    requires
        built_from(n, b),
    ensures
        sorted_by_precedence(n.sub_routes@),
        forall|r: u8, k1: int, k2: int|
            #![trigger bucket(node_segments(n.sub_routes@), r)[k1], bucket(node_segments(n.sub_routes@), r)[k2]]
            0 <= k1 < k2 < bucket(node_segments(n.sub_routes@), r).len() ==>
            bucket(node_segments(n.sub_routes@), r)[k1] < bucket(node_segments(n.sub_routes@), r)[k2]
            && bucket(builder_segments(b.sub_routes@), r)[k1] < bucket(builder_segments(b.sub_routes@), r)[k2]
            && built_from(n.sub_routes@[bucket(node_segments(n.sub_routes@), r)[k1]],
                b.sub_routes@[bucket(builder_segments(b.sub_routes@), r)[k1]])
            && built_from(n.sub_routes@[bucket(node_segments(n.sub_routes@), r)[k2]],
                b.sub_routes@[bucket(builder_segments(b.sub_routes@), r)[k2]]),
{
    assert forall|r: u8, k1: int, k2: int|
        #![trigger bucket(node_segments(n.sub_routes@), r)[k1], bucket(node_segments(n.sub_routes@), r)[k2]]
        0 <= k1 < k2 < bucket(node_segments(n.sub_routes@), r).len() implies
        bucket(node_segments(n.sub_routes@), r)[k1] < bucket(node_segments(n.sub_routes@), r)[k2]
        && bucket(builder_segments(b.sub_routes@), r)[k1] < bucket(builder_segments(b.sub_routes@), r)[k2]
        && built_from(n.sub_routes@[bucket(node_segments(n.sub_routes@), r)[k1]],
            b.sub_routes@[bucket(builder_segments(b.sub_routes@), r)[k1]])
        && built_from(n.sub_routes@[bucket(node_segments(n.sub_routes@), r)[k2]],
            b.sub_routes@[bucket(builder_segments(b.sub_routes@), r)[k2]]) by {
        let nb = bucket(node_segments(n.sub_routes@), r);
        let bb = bucket(builder_segments(b.sub_routes@), r);
        lemma_bucket_increasing(node_segments(n.sub_routes@), r);
        lemma_bucket_increasing(builder_segments(b.sub_routes@), r);
        assert(nb.len() == bb.len());
        assert(nb[k1] < nb[k2]);
        assert(bb[k1] < bb[k2]);
        assert(built_from(n.sub_routes@[nb[k1]], b.sub_routes@[bb[k1]]));
        assert(built_from(n.sub_routes@[nb[k2]], b.sub_routes@[bb[k2]]));
    }
}

} // verus!

//! Directory composition across providers: gathering children, detecting
//! name collisions, and settling conflicts by the force/retry/yield
//! protocol.

use vstd::prelude::*;
use crate::cache::CachedNodeKind;
use crate::keyed::Assoc;
use crate::node::{NodeView, VirtualNode};
use crate::provider::ProviderId;
use crate::routing::tree::{node_views, HandlerError};
use crate::text::{lemma_text_lt_irreflexive, lemma_text_lt_total, lemma_text_lt_transitive, str_eq, text_less, text_lt};

verus! {

/// A node paired with the provider that produced it.
pub struct OwnedNode {
    pub node: VirtualNode,
    pub provider_id: ProviderId,
}

/// Mathematical view of an [`OwnedNode`]: provider name and node view.
pub open spec fn owned_view(o: OwnedNode) -> (Seq<char>, NodeView) {
    (o.provider_id@, o.node@)
}

/// The views of a sequence of owned nodes.
pub open spec fn owned_views(v: Seq<OwnedNode>) -> Seq<(Seq<char>, NodeView)> {
    Seq::new(v.len(), |i: int| owned_view(v[i]))
}

/// The nodes `ns` attributed to the provider named `pid`.
pub open spec fn attributed(pid: Seq<char>, ns: Seq<NodeView>) -> Seq<(Seq<char>, NodeView)> {
    Seq::new(ns.len(), |i: int| (pid, ns[i]))
}

impl OwnedNode {
    /// The cache entry kind of this node.
    pub fn into_cached_kind(self) -> (r: CachedNodeKind)
        ensures
            r == (CachedNodeKind::Virtual { node: self.node, provider_id: self.provider_id }),
    {
        CachedNodeKind::Virtual { node: self.node, provider_id: self.provider_id }
    }
}

/// Attribute `nodes` to `pid`, appending them to `out`.
fn attribute_into(out: &mut Vec<OwnedNode>, pid: ProviderId, nodes: Vec<VirtualNode>)
    ensures
        owned_views(final(out)@) == owned_views(old(out)@) + attributed(pid@, node_views(nodes@)),
{
    let ghost start = owned_views(out@);
    let ghost nv = node_views(nodes@);
    let mut rest = nodes;
    let n = rest.len();
    let mut i: usize = 0;
    while i < n
        invariant
            n == nv.len(),
            i <= n,
            rest@.len() == n - i,
            node_views(rest@) == nv.subrange(i as int, n as int),
            owned_views(out@) == start + attributed(pid@, nv).subrange(0, i as int),
        decreases n - i,
    {
        let ghost r0 = rest@;
        let node = rest.remove(0);
        proof {
            assert(node_views(r0)[0] == nv.subrange(i as int, n as int)[0]);
            assert(node@ == nv[i as int]);
        }
        let ghost before = owned_views(out@);
        out.push(OwnedNode { node, provider_id: pid });
        proof {
            assert(node_views(rest@) =~= nv.subrange(i + 1, n as int)) by {
                assert forall|k: int| 0 <= k < rest@.len() implies node_views(rest@)[k] == nv.subrange(i + 1, n as int)[k] by {
                    assert(rest@[k] == r0[k + 1]);
                    assert(node_views(r0)[k + 1] == nv.subrange(i as int, n as int)[k + 1]);
                    assert(nv.subrange(i as int, n as int)[k + 1] == nv[i + 1 + k]);
                }
            }
            assert(nv.subrange(i as int, n as int)[0] == nv[i as int]);
            assert(owned_views(out@) =~= before.push((pid@, nv[i as int])));
            assert(attributed(pid@, nv).subrange(0, i + 1) =~= attributed(pid@, nv).subrange(0, i as int).push((pid@, nv[i as int])));
        }
        i = i + 1;
    }
    assert(attributed(pid@, nv).subrange(0, n as int) =~= attributed(pid@, nv));
}

/// What a provider's children listing gave: nodes, nothing to add, or a
/// failure; `None` where the provider panicked.
pub type ChildrenResult = Option<Result<Option<Vec<VirtualNode>>, HandlerError>>;

/// A provider succeeded: it listed nodes or declined; a panicked provider
/// counts as having declined.
pub open spec fn succeeded(r: ChildrenResult) -> bool {
    r matches Some(Ok(_)) || r is None
}

/// The nodes gathered from the providers' results, in order.
pub open spec fn gathered(rs: Seq<(ProviderId, ChildrenResult)>) -> Seq<(Seq<char>, NodeView)>
    decreases rs.len(),
{
    if rs.len() == 0 {
        Seq::empty()
    } else {
        gathered(rs.drop_last()) + match rs.last().1 {
            Some(Ok(Some(ns))) => attributed(rs.last().0@, node_views(ns@)),
            _ => Seq::empty(),
        }
    }
}

/// The last failure among the providers' results, if any.
pub open spec fn last_failure(rs: Seq<(ProviderId, ChildrenResult)>) -> Option<Seq<char>>
    decreases rs.len(),
{
    if rs.len() == 0 {
        None
    } else {
        match rs.last().1 {
            Some(Err(e)) => Some(e.message@),
            _ => last_failure(rs.drop_last()),
        }
    }
}

/// Gather the nodes the providers listed for a directory, each attributed
/// to its provider. A panicked provider counts as having declined, which
/// is a success. When no provider succeeded and one failed, the last
/// failure is returned.
pub fn gather_children(results: Vec<(ProviderId, ChildrenResult)>) -> (r: Result<Vec<OwnedNode>, HandlerError>)
    ensures
        (exists|i: int| 0 <= i < results@.len() && succeeded(#[trigger] results@[i].1)) || last_failure(results@) is None
            ==> (r matches Ok(v) && owned_views(v@) == gathered(results@)),
        !((exists|i: int| 0 <= i < results@.len() && succeeded(#[trigger] results@[i].1)) || last_failure(results@) is None)
            ==> (r matches Err(e) && e.message@ == last_failure(results@)->Some_0),
{
    let ghost rs = results@;
    let mut all: Vec<OwnedNode> = Vec::new();
    let mut any_success = false;
    let mut last_error: Option<HandlerError> = None;
    let mut rest = results;
    let n = rest.len();
    let mut i: usize = 0;
    assert(owned_views(all@) =~= gathered(rs.subrange(0, 0)));
    while i < n
        invariant
            n == rs.len(),
            i <= n,
            rest@ == rs.subrange(i as int, n as int),
            owned_views(all@) == gathered(rs.subrange(0, i as int)),
            any_success == exists|j: int| 0 <= j < i && succeeded(#[trigger] rs[j].1),
            match last_error {
                Some(e) => last_failure(rs.subrange(0, i as int)) == Some(e.message@),
                None => last_failure(rs.subrange(0, i as int)) is None,
            },
        decreases n - i,
    {
        let (pid, result) = rest.remove(0);
        proof {
            assert(rs.subrange(i as int, n as int)[0] == rs[i as int]);
            assert(rest@ =~= rs.subrange(i + 1, n as int));
            let sub = rs.subrange(0, i + 1);
            assert(sub.drop_last() =~= rs.subrange(0, i as int));
            assert(sub.last() == rs[i as int]);
        }
        let ghost before_success = any_success;
        match result {
            Some(Ok(Some(nodes))) => {
                any_success = true;
                attribute_into(&mut all, pid, nodes);
            },
            Some(Ok(None)) => {
                any_success = true;
            },
            Some(Err(e)) => {
                last_error = Some(e);
            },
            None => {
                any_success = true;
            },
        }
        proof {
            assert(any_success == exists|j: int| 0 <= j < i + 1 && succeeded(#[trigger] rs[j].1)) by {
                if any_success && !before_success {
                    assert(succeeded(rs[i as int].1));
                }
                if exists|j: int| 0 <= j < i + 1 && succeeded(#[trigger] rs[j].1) {
                    let j = choose|j: int| 0 <= j < i + 1 && succeeded(#[trigger] rs[j].1);
                    if j < i {
                        assert(before_success);
                    }
                }
            }
        }
        i = i + 1;
    }
    assert(rs.subrange(0, n as int) =~= rs);
    if !any_success {
        match last_error {
            Some(e) => return Err(e),
            None => {},
        }
    }
    Ok(all)
}

/// A naming conflict put to the providers involved: the contested name,
/// the providers claiming it, and whether a real entry has it too.
pub struct ConflictInfo {
    pub name: String,
    pub claimants: Vec<ProviderId>,
    pub with_real: bool,
}

/// A provider's answer to a conflict over a name.
pub enum ConflictResolution {
    /// Give the name up.
    Yield,
    /// Insist on the name, with these nodes.
    Force(Vec<VirtualNode>),
    /// Offer these nodes under other names.
    Retry(Vec<VirtualNode>),
}

/// The answers gathered for one conflict: who forced (with their nodes),
/// and the nodes offered under other names.
pub struct ConflictOutcome {
    pub forces: Vec<(ProviderId, Vec<VirtualNode>)>,
    pub retries: Vec<OwnedNode>,
}

/// A provider's answer: `None` where it panicked, an error where it failed.
pub type ConflictAnswer = Option<Result<ConflictResolution, HandlerError>>;

/// The views of the forces among the answers, in order.
pub open spec fn forces_of(rs: Seq<(ProviderId, ConflictAnswer)>) -> Seq<(Seq<char>, Seq<NodeView>)>
    decreases rs.len(),
{
    if rs.len() == 0 {
        Seq::empty()
    } else {
        forces_of(rs.drop_last()) + match rs.last().1 {
            Some(Ok(ConflictResolution::Force(ns))) => seq![(rs.last().0@, node_views(ns@))],
            _ => Seq::empty(),
        }
    }
}

/// The retried nodes among the answers, in order, with their providers.
pub open spec fn retries_of(rs: Seq<(ProviderId, ConflictAnswer)>) -> Seq<(Seq<char>, NodeView)>
    decreases rs.len(),
{
    if rs.len() == 0 {
        Seq::empty()
    } else {
        retries_of(rs.drop_last()) + match rs.last().1 {
            Some(Ok(ConflictResolution::Retry(ns))) => attributed(rs.last().0@, node_views(ns@)),
            _ => Seq::empty(),
        }
    }
}

/// The views of force entries.
pub open spec fn force_views(v: Seq<(ProviderId, Vec<VirtualNode>)>) -> Seq<(Seq<char>, Seq<NodeView>)> {
    Seq::new(v.len(), |i: int| (v[i].0@, node_views(v[i].1@)))
}

/// Gather the answers of the providers involved in a conflict, in order:
/// forces are kept with their nodes, retried nodes are attributed to their
/// providers, and yields, failures and panics are dropped.
pub fn collect_conflict_responses(answers: Vec<(ProviderId, ConflictAnswer)>) -> (r: ConflictOutcome)
    ensures
        force_views(r.forces@) == forces_of(answers@),
        owned_views(r.retries@) == retries_of(answers@),
{
    let ghost rs = answers@;
    let mut forces: Vec<(ProviderId, Vec<VirtualNode>)> = Vec::new();
    let mut retries: Vec<OwnedNode> = Vec::new();
    let mut rest = answers;
    let n = rest.len();
    let mut i: usize = 0;
    assert(force_views(forces@) =~= forces_of(rs.subrange(0, 0)));
    assert(owned_views(retries@) =~= retries_of(rs.subrange(0, 0)));
    while i < n
        invariant
            n == rs.len(),
            i <= n,
            rest@ == rs.subrange(i as int, n as int),
            force_views(forces@) == forces_of(rs.subrange(0, i as int)),
            owned_views(retries@) == retries_of(rs.subrange(0, i as int)),
        decreases n - i,
    {
        let (pid, answer) = rest.remove(0);
        proof {
            assert(rs.subrange(i as int, n as int)[0] == rs[i as int]);
            assert(rest@ =~= rs.subrange(i + 1, n as int));
            let sub = rs.subrange(0, i + 1);
            assert(sub.drop_last() =~= rs.subrange(0, i as int));
            assert(sub.last() == rs[i as int]);
        }
        let ghost fbefore = force_views(forces@);
        match answer {
            Some(Ok(ConflictResolution::Force(nodes))) => {
                forces.push((pid, nodes));
                assert(force_views(forces@) =~= fbefore.push((pid@, node_views(nodes@))));
            },
            Some(Ok(ConflictResolution::Retry(nodes))) => {
                attribute_into(&mut retries, pid, nodes);
                assert(force_views(forces@) =~= fbefore);
            },
            _ => {
                assert(force_views(forces@) =~= fbefore);
            },
        }
        i = i + 1;
    }
    assert(rs.subrange(0, n as int) =~= rs);
    ConflictOutcome { forces, retries }
}

/// The nodes `ns`, each marked as shadowing a real entry.
pub open spec fn shadowing(ns: Seq<NodeView>) -> Seq<NodeView> {
    Seq::new(ns.len(), |i: int| NodeView { shadows_real: true, ..ns[i] })
}

/// Settle the forces of a conflict: exactly one force wins, and its nodes,
/// marked as shadowing the real entry, are returned; no force or a tie
/// (two or more) gives `None`.
pub fn apply_force_resolution(forces: Vec<(ProviderId, Vec<VirtualNode>)>) -> (r: Option<Vec<OwnedNode>>)
    ensures
        forces@.len() == 1 ==> (r matches Some(w)
            && owned_views(w@) == attributed(forces@[0].0@, shadowing(node_views(forces@[0].1@)))),
        forces@.len() != 1 ==> r is None,
{
    if forces.len() != 1 {
        return None;
    }
    let mut forces = forces;
    let (pid, nodes) = forces.remove(0);
    let ghost nv = node_views(nodes@);
    let mut out: Vec<OwnedNode> = Vec::new();
    let mut rest = nodes;
    let n = rest.len();
    let mut i: usize = 0;
    while i < n
        invariant
            n == nv.len(),
            i <= n,
            rest@.len() == n - i,
            node_views(rest@) == nv.subrange(i as int, n as int),
            owned_views(out@) == attributed(pid@, shadowing(nv)).subrange(0, i as int),
        decreases n - i,
    {
        let ghost r0 = rest@;
        let node = rest.remove(0);
        proof {
            assert(node_views(r0)[0] == nv.subrange(i as int, n as int)[0]);
            assert(node@ == nv[i as int]);
        }
        let ghost before = owned_views(out@);
        out.push(OwnedNode { node: node.mark_shadows_real(), provider_id: pid });
        proof {
            assert(node_views(rest@) =~= nv.subrange(i + 1, n as int)) by {
                assert forall|k: int| 0 <= k < rest@.len() implies node_views(rest@)[k] == nv.subrange(i + 1, n as int)[k] by {
                    assert(rest@[k] == r0[k + 1]);
                    assert(node_views(r0)[k + 1] == nv.subrange(i as int, n as int)[k + 1]);
                    assert(nv.subrange(i as int, n as int)[k + 1] == nv[i + 1 + k]);
                }
            }
            assert(shadowing(nv)[i as int] == NodeView { shadows_real: true, ..nv[i as int] });
            assert(owned_views(out@) =~= before.push((pid@, shadowing(nv)[i as int])));
            assert(owned_views(out@) =~= attributed(pid@, shadowing(nv)).subrange(0, i + 1));
        }
        i = i + 1;
    }
    assert(attributed(pid@, shadowing(nv)).subrange(0, n as int) =~= attributed(pid@, shadowing(nv)));
    Some(out)
}

/// Why competing claims on a name could not be settled.
#[derive(Debug, PartialEq, Eq)]
pub enum ClaimError {
    /// This many providers force-claimed the name.
    TiedForce(usize),
}

/// The index of the first claim made by the provider named `pid`.
pub open spec fn first_claim_of(claims: Seq<OwnedNode>, pid: Seq<char>) -> Option<int>
    decreases claims.len(),
{
    if claims.len() == 0 {
        None
    } else {
        match first_claim_of(claims.drop_last(), pid) {
            Some(i) => Some(i),
            None => if claims.last().provider_id@ == pid { Some(claims.len() - 1) } else { None },
        }
    }
}

/// Settle claims by several providers on one name, given the providers
/// that forced: none drops the name, exactly one keeps that provider's
/// first claim, and more are a tie.
pub fn resolve_competing_claims(claims: Vec<OwnedNode>, forced: &[ProviderId]) -> (r: Result<Option<OwnedNode>, ClaimError>)
    ensures
        forced@.len() == 0 ==> r matches Ok(None),
        forced@.len() == 1 ==> match first_claim_of(claims@, forced@[0]@) {
            Some(i) => r matches Ok(Some(c)) && owned_view(c) == owned_view(claims@[i]),
            None => r matches Ok(None),
        },
        forced@.len() > 1 ==> r == Err::<Option<OwnedNode>, ClaimError>(ClaimError::TiedForce(forced@.len() as usize)),
{
    if forced.len() == 0 {
        return Ok(None);
    }
    if forced.len() > 1 {
        return Err(ClaimError::TiedForce(forced.len()));
    }
    let winner = forced[0];
    let ghost cs = claims@;
    let mut rest = claims;
    let n = rest.len();
    let mut i: usize = 0;
    while i < n
        invariant
            n == cs.len(),
            i <= n,
            cs == claims@,
            forced@.len() == 1,
            winner == forced@[0],
            rest@ == cs.subrange(i as int, n as int),
            first_claim_of(cs.subrange(0, i as int), winner@) is None,
        decreases n - i,
    {
        let c = rest.remove(0);
        proof {
            assert(cs.subrange(i as int, n as int)[0] == cs[i as int]);
            assert(rest@ =~= cs.subrange(i + 1, n as int));
            let sub = cs.subrange(0, i + 1);
            assert(sub.drop_last() =~= cs.subrange(0, i as int));
            assert(sub.last() == cs[i as int]);
        }
        if c.provider_id.same(&winner) {
            proof {
                lemma_first_claim_prefix(cs, winner@, i as int + 1);
            }
            return Ok(Some(c));
        }
        i = i + 1;
    }
    assert(cs.subrange(0, n as int) =~= cs);
    Ok(None)
}

/// A first claim found in a prefix is the first claim of the whole.
proof fn lemma_first_claim_prefix(cs: Seq<OwnedNode>, pid: Seq<char>, k: int)
    requires
        0 <= k <= cs.len(),
        first_claim_of(cs.subrange(0, k), pid) is Some,
    ensures
        first_claim_of(cs, pid) == first_claim_of(cs.subrange(0, k), pid),
    decreases cs.len() - k,
{
    if k < cs.len() {
        let sub = cs.subrange(0, k + 1);
        assert(sub.drop_last() =~= cs.subrange(0, k));
        lemma_first_claim_prefix(cs, pid, k + 1);
    } else {
        assert(cs.subrange(0, k) =~= cs);
    }
}

/// What a panic payload held.
pub enum PanicPayload {
    /// A static message.
    Static(&'static str),
    /// A formatted message.
    Formatted(String),
    /// Something other than a message.
    Opaque,
}

/// A readable message for a panic payload.
pub fn panic_message(payload: &PanicPayload) -> (r: String)
    ensures
        r@ == match payload {
            PanicPayload::Static(s) => s@,
            PanicPayload::Formatted(s) => s@,
            PanicPayload::Opaque => "non-string panic"@,
        },
{
    match payload {
        PanicPayload::Static(s) => (*s).to_owned(),
        PanicPayload::Formatted(s) => s.clone(),
        PanicPayload::Opaque => "non-string panic".to_owned(),
    }
}

/// The names of the providers that emitted a node named `k`.
pub open spec fn providers_naming(ov: Seq<(Seq<char>, NodeView)>, k: Seq<char>) -> Set<Seq<char>> {
    Set::new(|p: Seq<char>| exists|i: int| 0 <= i < ov.len() && (#[trigger] ov[i]).1.name == k && ov[i].0 == p)
}

/// The provider names of a list of ids.
pub open spec fn id_views(ids: Seq<ProviderId>) -> Seq<Seq<char>> {
    Seq::new(ids.len(), |i: int| ids[i]@)
}

/// Two nodes named `k` came from different providers.
pub open spec fn collides(ov: Seq<(Seq<char>, NodeView)>, k: Seq<char>) -> bool {
    exists|i: int, j: int| 0 <= i < ov.len() && 0 <= j < ov.len() && (#[trigger] ov[i]).1.name == k
        && (#[trigger] ov[j]).1.name == k && ov[i].0 != ov[j].0
}

/// Whether `ids` holds the provider named like `pid`.
fn has_id(ids: &Vec<ProviderId>, pid: &ProviderId) -> (r: bool)
    ensures
        r == id_views(ids@).contains(pid@),
{
    let n = ids.len();
    let mut i: usize = 0;
    while i < n
        invariant
            n == ids@.len(),
            i <= n,
            forall|j: int| 0 <= j < i ==> ids@[j]@ != pid@,
        decreases n - i,
    {
        if ids[i].same(pid) {
            assert(id_views(ids@)[i as int] == pid@);
            return true;
        }
        i = i + 1;
    }
    proof {
        if id_views(ids@).contains(pid@) {
            let j = choose|j: int| 0 <= j < id_views(ids@).len() && id_views(ids@)[j] == pid@;
            assert(ids@[j]@ == pid@);
        }
    }
    false
}

/// The provider names `v` are in strictly ascending order.
pub open spec fn ids_ascending(v: Seq<Seq<char>>) -> bool {
    forall|a: int, b: int| 0 <= a < b < v.len() ==> text_lt(#[trigger] v[a], #[trigger] v[b])
}

/// Names in strictly ascending order hold no name twice.
proof fn lemma_ascending_distinct(v: Seq<Seq<char>>)
    requires
        ids_ascending(v),
    ensures
        v.no_duplicates(),
{
    assert forall|a: int, b: int| 0 <= a < v.len() && 0 <= b < v.len() && a != b implies v[a] != v[b] by {
        if a < b {
            assert(text_lt(v[a], v[b]));
            lemma_text_lt_irreflexive(v[a]);
        } else {
            assert(text_lt(v[b], v[a]));
            lemma_text_lt_irreflexive(v[b]);
        }
    }
}

/// Insert `pid`, which `ids` lacks, keeping `ids` in ascending order.
fn insert_sorted(ids: &mut Vec<ProviderId>, pid: ProviderId)
    requires
        ids_ascending(id_views(old(ids)@)),
        !id_views(old(ids)@).contains(pid@),
    ensures
        ids_ascending(id_views(final(ids)@)),
        id_views(final(ids)@).to_set() == id_views(old(ids)@).to_set().insert(pid@),
{
    let ghost v0 = id_views(ids@);
    let n = ids.len();
    let mut j: usize = 0;
    let mut found = false;
    while j < n && !found
        invariant
            n == ids@.len(),
            v0 == id_views(ids@),
            ids_ascending(v0),
            !v0.contains(pid@),
            j <= n,
            forall|k: int| 0 <= k < j ==> text_lt(#[trigger] v0[k], pid@),
            found ==> j < n && text_lt(pid@, v0[j as int]),
        decreases n - j + if found { 0int } else { 1int },
    {
        if text_less(pid.as_str(), ids[j].as_str()) {
            found = true;
        } else {
            proof {
                assert(v0[j as int] == ids@[j as int]@);
                lemma_text_lt_total(pid@, v0[j as int]);
                assert(v0[j as int] != pid@);
            }
            j = j + 1;
        }
    }
    ids.insert(j, pid);
    let ghost v1 = id_views(ids@);
    proof {
        assert(v1 =~= v0.insert(j as int, pid@));
        assert forall|a: int, b: int| 0 <= a < b < v1.len() implies text_lt(#[trigger] v1[a], #[trigger] v1[b]) by {
            if b < j {
            } else if b == j {
                assert(v1[b] == pid@);
            } else if a < j {
                assert(v1[b] == v0[b - 1]);
                assert(text_lt(v0[a], v0[b - 1]));
            } else if a == j {
                assert(v1[a] == pid@ && v1[b] == v0[b - 1]);
                assert(found);
                if b - 1 > j {
                    assert(text_lt(v0[j as int], v0[b - 1]));
                    lemma_text_lt_transitive(pid@, v0[j as int], v0[b - 1]);
                }
            } else {
                assert(v1[a] == v0[a - 1] && v1[b] == v0[b - 1]);
                assert(text_lt(v0[a - 1], v0[b - 1]));
            }
        }
        assert(v1.to_set() =~= v0.to_set().insert(pid@)) by {
            assert forall|p: Seq<char>| v1.to_set().contains(p) implies v0.to_set().insert(pid@).contains(p) by {
                let k = choose|k: int| 0 <= k < v1.len() && v1[k] == p;
                if k < j {
                    assert(v0[k] == p);
                } else if k > j {
                    assert(v0[k - 1] == p);
                }
            }
            assert forall|p: Seq<char>| v0.to_set().insert(pid@).contains(p) implies v1.to_set().contains(p) by {
                if p == pid@ {
                    assert(v1[j as int] == p);
                } else {
                    let k = choose|k: int| 0 <= k < v0.len() && v0[k] == p;
                    if k < j {
                        assert(v1[k] == p);
                    } else {
                        assert(v1[k + 1] == p);
                    }
                }
            }
        }
    }
}

/// The names emitted by two or more providers, each with the providers
/// that emitted it, each once, in ascending order.
pub fn detect_collisions(nodes: &[OwnedNode]) -> (r: Vec<(String, Vec<ProviderId>)>)
    ensures
        forall|i: int, j: int| 0 <= i < j < r@.len() ==> (#[trigger] r@[i]).0@ != (#[trigger] r@[j]).0@,
        forall|i: int| 0 <= i < r@.len() ==> id_views((#[trigger] r@[i]).1@).no_duplicates()
            && ids_ascending(id_views(r@[i].1@))
            && id_views(r@[i].1@).to_set() == providers_naming(owned_views(nodes@), r@[i].0@)
            && r@[i].1@.len() >= 2,
        forall|k: Seq<char>| collides(owned_views(nodes@), k) ==> exists|i: int| 0 <= i < r@.len() && (#[trigger] r@[i]).0@ == k,
{
    let ghost ov = owned_views(nodes@);
    let n = nodes.len();
    let mut groups: Assoc<String, Vec<ProviderId>> = Assoc::new();
    let mut i: usize = 0;
    while i < n
        invariant
            n == nodes@.len(),
            ov == owned_views(nodes@),
            i <= n,
            groups.wf(),
            forall|k: Seq<char>| #[trigger] groups.view().contains_key(k) <==> exists|j: int| 0 <= j < i && ov[j].1.name == k,
            forall|k: Seq<char>| #[trigger] groups.view().contains_key(k) ==> id_views(groups.view()[k]@).no_duplicates()
                && ids_ascending(id_views(groups.view()[k]@))
                && id_views(groups.view()[k]@).to_set() == providers_naming(ov.subrange(0, i as int), k),
        decreases n - i,
    {
        let name = nodes[i].node.name();
        let pid = nodes[i].provider_id;
        let ghost sub = ov.subrange(0, i as int);
        let ghost sub1 = ov.subrange(0, i + 1);
        proof {
            assert(ov[i as int] == (pid@, nodes@[i as int].node@));
            assert forall|k: Seq<char>| k != name@ implies providers_naming(sub1, k) == providers_naming(sub, k) by {
                assert forall|p: Seq<char>| providers_naming(sub1, k).contains(p) implies providers_naming(sub, k).contains(p) by {
                    let j = choose|j: int| 0 <= j < sub1.len() && (#[trigger] sub1[j]).1.name == k && sub1[j].0 == p;
                    assert(j < i);
                    assert(sub[j] == sub1[j]);
                }
                assert forall|p: Seq<char>| providers_naming(sub, k).contains(p) implies providers_naming(sub1, k).contains(p) by {
                    let j = choose|j: int| 0 <= j < sub.len() && (#[trigger] sub[j]).1.name == k && sub[j].0 == p;
                    assert(sub1[j] == sub[j]);
                }
                assert(providers_naming(sub1, k) =~= providers_naming(sub, k));
            }
            assert(providers_naming(sub1, name@) =~= providers_naming(sub, name@).insert(pid@)) by {
                assert forall|p: Seq<char>| providers_naming(sub1, name@).contains(p) implies providers_naming(sub, name@).insert(pid@).contains(p) by {
                    let j = choose|j: int| 0 <= j < sub1.len() && (#[trigger] sub1[j]).1.name == name@ && sub1[j].0 == p;
                    if j < i {
                        assert(sub[j] == sub1[j]);
                    }
                }
                assert forall|p: Seq<char>| providers_naming(sub, name@).insert(pid@).contains(p) implies providers_naming(sub1, name@).contains(p) by {
                    if p == pid@ {
                        assert(sub1[i as int] == ov[i as int]);
                    } else {
                        let j = choose|j: int| 0 <= j < sub.len() && (#[trigger] sub[j]).1.name == name@ && sub[j].0 == p;
                        assert(sub1[j] == sub[j]);
                    }
                }
            }
        }
        let ghost before = groups.view();
        let mut ids = match groups.remove(name) {
            Some(ids) => ids,
            None => {
                proof {
                    assert(providers_naming(sub, name@) =~= Set::empty()) by {
                        assert forall|p: Seq<char>| !providers_naming(sub, name@).contains(p) by {
                            if providers_naming(sub, name@).contains(p) {
                                let j = choose|j: int| 0 <= j < sub.len() && (#[trigger] sub[j]).1.name == name@ && sub[j].0 == p;
                                assert(ov[j].1.name == name@);
                            }
                        }
                    }
                }
                Vec::new()
            },
        };
        let ghost ids0 = ids@;
        proof {
            assert(id_views(ids0).no_duplicates() && ids_ascending(id_views(ids0)) && id_views(ids0).to_set() == providers_naming(sub, name@)) by {
                if !before.contains_key(name@) {
                    assert(id_views(ids0) =~= Seq::<Seq<char>>::empty());
                    assert(id_views(ids0).to_set() =~= Set::empty());
                }
            }
        }
        if !has_id(&ids, &pid) {
            insert_sorted(&mut ids, pid);
            proof {
                lemma_ascending_distinct(id_views(ids@));
            }
        } else {
            proof {
                assert(id_views(ids0).to_set().insert(pid@) =~= id_views(ids0).to_set());
            }
        }
        let key = name.to_owned();
        groups.insert(key, ids);
        proof {
            assert forall|k: Seq<char>| #[trigger] groups.view().contains_key(k) <==> exists|j: int| 0 <= j < i + 1 && ov[j].1.name == k by {
                if k == name@ {
                    assert(ov[i as int].1.name == k);
                } else {
                    if exists|j: int| 0 <= j < i + 1 && ov[j].1.name == k {
                        let j = choose|j: int| 0 <= j < i + 1 && ov[j].1.name == k;
                        assert(j < i);
                    }
                }
            }
        }
        i = i + 1;
    }
    assert(ov.subrange(0, n as int) =~= ov);
    let ghost gview = groups.view();
    let entries = groups.entries;
    let ghost es = entries@;
    let mut out: Vec<(String, Vec<ProviderId>)> = Vec::new();
    let ghost mut idx: Seq<int> = Seq::empty();
    let mut rest = entries;
    let m = rest.len();
    let mut q: usize = 0;
    while q < m
        invariant
            m == es.len(),
            q <= m,
            rest@ == es.subrange(q as int, m as int),
            forall|a: int, b: int| 0 <= a < b < es.len() ==> (#[trigger] es[a]).0@ != (#[trigger] es[b]).0@,
            forall|a: int| 0 <= a < es.len() ==> #[trigger] gview.contains_key(es[a].0@) && gview[es[a].0@] == es[a].1,
            forall|k: Seq<char>| #[trigger] gview.contains_key(k) ==> exists|a: int| 0 <= a < es.len() && (#[trigger] es[a]).0@ == k,
            idx.len() == out@.len(),
            forall|t: int| 0 <= t < idx.len() ==> 0 <= #[trigger] idx[t] < q && out@[t] == es[idx[t]],
            forall|t: int, u: int| 0 <= t < u < idx.len() ==> #[trigger] idx[t] < #[trigger] idx[u],
            forall|a: int| 0 <= a < q && es[a].1@.len() >= 2 ==> exists|t: int| 0 <= t < idx.len() && #[trigger] idx[t] == a,
            forall|t: int| 0 <= t < out@.len() ==> (#[trigger] out@[t]).1@.len() >= 2,
        decreases m - q,
    {
        let e = rest.remove(0);
        proof {
            assert(es.subrange(q as int, m as int)[0] == es[q as int]);
            assert(rest@ =~= es.subrange(q + 1, m as int));
        }
        let ghost idx0 = idx;
        if e.1.len() >= 2 {
            out.push(e);
            proof {
                idx = idx.push(q as int);
            }
        }
        proof {
            assert forall|a: int| 0 <= a < q + 1 && es[a].1@.len() >= 2 implies exists|t: int| 0 <= t < idx.len() && #[trigger] idx[t] == a by {
                if a < q {
                    let t = choose|t: int| 0 <= t < idx0.len() && #[trigger] idx0[t] == a;
                    assert(idx[t] == a);
                } else {
                    assert(idx[idx.len() - 1] == a);
                }
            }
        }
        q = q + 1;
    }
    proof {
        assert forall|a: int, b: int| 0 <= a < b < out@.len() implies (#[trigger] out@[a]).0@ != (#[trigger] out@[b]).0@ by {
            assert(idx[a] < idx[b]);
        }
        assert forall|t: int| 0 <= t < out@.len() implies id_views((#[trigger] out@[t]).1@).no_duplicates()
            && ids_ascending(id_views(out@[t].1@))
            && id_views(out@[t].1@).to_set() == providers_naming(ov, out@[t].0@)
            && out@[t].1@.len() >= 2 by {
            let a = idx[t];
            assert(gview.contains_key(es[a].0@));
        }
        assert forall|k: Seq<char>| collides(ov, k) implies exists|t: int| 0 <= t < out@.len() && (#[trigger] out@[t]).0@ == k by {
            let (x, y) = choose|x: int, y: int| 0 <= x < ov.len() && 0 <= y < ov.len() && (#[trigger] ov[x]).1.name == k
                && (#[trigger] ov[y]).1.name == k && ov[x].0 != ov[y].0;
            assert(gview.contains_key(k));
            let a = choose|a: int| 0 <= a < es.len() && (#[trigger] es[a]).0@ == k;
            let ids = id_views(es[a].1@);
            assert(providers_naming(ov, k).contains(ov[x].0));
            assert(providers_naming(ov, k).contains(ov[y].0));
            assert(ids.to_set().contains(ov[x].0));
            assert(ids.to_set().contains(ov[y].0));
            let jx = choose|j: int| 0 <= j < ids.len() && ids[j] == ov[x].0;
            let jy = choose|j: int| 0 <= j < ids.len() && ids[j] == ov[y].0;
            assert(jx != jy);
            assert(es[a].1@.len() >= 2);
            let t = choose|t: int| 0 <= t < idx.len() && #[trigger] idx[t] == a;
            assert(out@[t].0@ == k);
        }
    }
    out
}

/// The nodes of `ov` whose name is not in `names`, in order.
pub open spec fn named_outside(ov: Seq<(Seq<char>, NodeView)>, names: Set<Seq<char>>) -> Seq<(Seq<char>, NodeView)>
    decreases ov.len(),
{
    if ov.len() == 0 {
        Seq::empty()
    } else if names.contains(ov.last().1.name) {
        named_outside(ov.drop_last(), names)
    } else {
        named_outside(ov.drop_last(), names).push(ov.last())
    }
}

/// The nodes of `ov` named `k`, in order.
pub open spec fn named(ov: Seq<(Seq<char>, NodeView)>, k: Seq<char>) -> Seq<(Seq<char>, NodeView)>
    decreases ov.len(),
{
    if ov.len() == 0 {
        Seq::empty()
    } else if ov.last().1.name == k {
        named(ov.drop_last(), k).push(ov.last())
    } else {
        named(ov.drop_last(), k)
    }
}

/// The characters of each name in `names`.
pub open spec fn name_set(names: Seq<&str>) -> Set<Seq<char>> {
    Set::new(|k: Seq<char>| exists|i: int| 0 <= i < names.len() && (#[trigger] names[i])@ == k)
}

/// Whether `name` is one of `names`.
pub(crate) fn among(names: &[&str], name: &str) -> (r: bool)
    ensures
        r == name_set(names@).contains(name@),
{
    let n = names.len();
    let mut i: usize = 0;
    while i < n
        invariant
            n == names@.len(),
            i <= n,
            forall|j: int| 0 <= j < i ==> (#[trigger] names@[j])@ != name@,
        decreases n - i,
    {
        if str_eq(names[i], name) {
            return true;
        }
        i = i + 1;
    }
    false
}

/// Split virtual nodes by whether a real entry has their name: the others
/// in order, and the conflicting ones grouped by name (each group in order,
/// one group per name).
pub fn split_real_conflicts(nodes: Vec<OwnedNode>, real_names: &[&str]) -> (r: (Vec<OwnedNode>, Vec<(String, Vec<OwnedNode>)>))
    ensures
        owned_views(r.0@) == named_outside(owned_views(nodes@), name_set(real_names@)),
        forall|i: int, j: int| 0 <= i < j < r.1@.len() ==> (#[trigger] r.1@[i]).0@ != (#[trigger] r.1@[j]).0@,
        forall|i: int| 0 <= i < r.1@.len() ==> name_set(real_names@).contains((#[trigger] r.1@[i]).0@)
            && owned_views(r.1@[i].1@) == named(owned_views(nodes@), r.1@[i].0@)
            && r.1@[i].1@.len() > 0,
        forall|j: int| 0 <= j < nodes@.len() && name_set(real_names@).contains((#[trigger] nodes@[j]).node@.name)
            ==> exists|i: int| 0 <= i < r.1@.len() && (#[trigger] r.1@[i]).0@ == nodes@[j].node@.name,
{
    let ghost nodes0 = nodes@;
    let ghost ov = owned_views(nodes@);
    let ghost real_set = name_set(real_names@);
    let mut kept: Vec<OwnedNode> = Vec::new();
    let mut groups: Assoc<String, Vec<OwnedNode>> = Assoc::new();
    let mut rest = nodes;
    let n = rest.len();
    let mut i: usize = 0;
    assert(owned_views(kept@) =~= named_outside(ov.subrange(0, 0), real_set));
    while i < n
        invariant
            n == ov.len(),
            real_set == name_set(real_names@),
            i <= n,
            rest@.len() == n - i,
            owned_views(rest@) == ov.subrange(i as int, n as int),
            owned_views(kept@) == named_outside(ov.subrange(0, i as int), real_set),
            groups.wf(),
            forall|k: Seq<char>| #[trigger] groups.view().contains_key(k) <==> (real_set.contains(k)
                && exists|j: int| 0 <= j < i && (#[trigger] ov[j]).1.name == k),
            forall|k: Seq<char>| #[trigger] groups.view().contains_key(k) ==> owned_views(groups.view()[k]@) == named(ov.subrange(0, i as int), k),
        decreases n - i,
    {
        let ghost r0 = rest@;
        let o = rest.remove(0);
        let ghost sub = ov.subrange(0, i as int);
        let ghost sub1 = ov.subrange(0, i + 1);
        proof {
            assert(owned_views(r0)[0] == ov.subrange(i as int, n as int)[0]);
            assert(owned_view(o) == ov[i as int]);
            assert(owned_views(rest@) =~= ov.subrange(i + 1, n as int)) by {
                assert forall|k: int| 0 <= k < rest@.len() implies owned_views(rest@)[k] == ov.subrange(i + 1, n as int)[k] by {
                    assert(rest@[k] == r0[k + 1]);
                    assert(owned_views(r0)[k + 1] == ov.subrange(i as int, n as int)[k + 1]);
                }
            }
            assert(sub1.drop_last() =~= sub);
            assert(sub1.last() == ov[i as int]);
            assert forall|k: Seq<char>| k != o.node@.name implies named(sub1, k) == named(sub, k) by {}
        }
        if among(real_names, o.node.name()) {
            let key = o.node.name().to_owned();
            let ghost before = groups.view();
            let mut group = match groups.remove(key.as_str()) {
                Some(g) => g,
                None => {
                    proof {
                        assert(named(sub, o.node@.name) =~= Seq::empty()) by {
                            lemma_named_absent(sub, o.node@.name);
                        }
                    }
                    Vec::new()
                },
            };
            proof {
                if !before.contains_key(key@) {
                    assert(owned_views(group@) =~= Seq::<(Seq<char>, NodeView)>::empty());
                }
            }
            let ghost g0 = owned_views(group@);
            group.push(o);
            proof {
                assert(owned_views(group@) =~= g0.push(ov[i as int]));
            }
            groups.insert(key, group);
            proof {
                assert forall|k: Seq<char>| #[trigger] groups.view().contains_key(k) <==> (real_set.contains(k)
                    && exists|j: int| 0 <= j < i + 1 && (#[trigger] ov[j]).1.name == k) by {
                    if k != o.node@.name {
                        if real_set.contains(k) && exists|j: int| 0 <= j < i + 1 && (#[trigger] ov[j]).1.name == k {
                            let j = choose|j: int| 0 <= j < i + 1 && (#[trigger] ov[j]).1.name == k;
                            assert(j < i);
                        }
                    } else {
                        assert(ov[i as int].1.name == k);
                    }
                }
            }
        } else {
            let ghost k0 = owned_views(kept@);
            kept.push(o);
            proof {
                assert(owned_views(kept@) =~= k0.push(ov[i as int]));
                assert forall|k: Seq<char>| #[trigger] groups.view().contains_key(k) <==> (real_set.contains(k)
                    && exists|j: int| 0 <= j < i + 1 && (#[trigger] ov[j]).1.name == k) by {
                    if real_set.contains(k) && exists|j: int| 0 <= j < i + 1 && (#[trigger] ov[j]).1.name == k {
                        let j = choose|j: int| 0 <= j < i + 1 && (#[trigger] ov[j]).1.name == k;
                        assert(j < i);
                    }
                }
            }
        }
        i = i + 1;
    }
    assert(ov.subrange(0, n as int) =~= ov);
    let ghost gview = groups.view();
    let ghost g = groups;
    let entries = groups.entries;
    proof {
        assert forall|a: int| 0 <= a < entries@.len() implies #[trigger] gview.contains_key(entries@[a].0@)
            && gview[entries@[a].0@] == entries@[a].1 by {
            g.lemma_entry(a);
        }
        assert forall|a: int, b: int| 0 <= a < b < entries@.len() implies (#[trigger] entries@[a]).0@ != (#[trigger] entries@[b]).0@ by {
            g.lemma_distinct(a, b);
        }
        assert forall|a: int| 0 <= a < entries@.len() implies real_set.contains((#[trigger] entries@[a]).0@)
            && owned_views(entries@[a].1@) == named(ov, entries@[a].0@) by {
            g.lemma_entry(a);
            assert(gview.contains_key(entries@[a].0@));
        }
        assert forall|j: int| 0 <= j < nodes0.len() && real_set.contains((#[trigger] nodes0[j]).node@.name)
            implies exists|a: int| 0 <= a < entries@.len() && (#[trigger] entries@[a]).0@ =~= nodes0[j].node@.name by {
            let k = nodes0[j].node@.name;
            assert(ov[j].1.name == k);
            assert(gview.contains_key(k));
            let a = g.index_of(k);
            g.lemma_entry(a);
            assert(entries@[a].0@ =~= k);
        }
        assert forall|a: int| 0 <= a < entries@.len() implies (#[trigger] entries@[a]).1@.len() > 0 by {
            let k = entries@[a].0@;
            g.lemma_entry(a);
            assert(gview.contains_key(k));
            let j = choose|j: int| 0 <= j < n && (#[trigger] ov[j]).1.name == k;
            lemma_named_present(ov, k, j);
            assert(owned_views(entries@[a].1@).len() == entries@[a].1@.len());
        }
        assert(nodes0 == nodes@);
        assert(real_set == name_set(real_names@));
    }
    let r = (kept, entries);
    proof {
        assert forall|j: int| 0 <= j < nodes@.len() && name_set(real_names@).contains((#[trigger] nodes@[j]).node@.name)
            implies exists|i: int| 0 <= i < r.1@.len() && (#[trigger] r.1@[i]).0@ == nodes@[j].node@.name by {
            assert(real_set.contains(nodes0[j].node@.name));
            let a = choose|a: int| 0 <= a < r.1@.len() && (#[trigger] r.1@[a]).0@ =~= nodes0[j].node@.name;
            assert(r.1@[a].0@ == nodes@[j].node@.name);
        }
    }
    r
}

/// No node named `k`: nothing is named `k`.
pub proof fn lemma_named_absent(ov: Seq<(Seq<char>, NodeView)>, k: Seq<char>)
    requires
        forall|j: int| 0 <= j < ov.len() ==> (#[trigger] ov[j]).1.name != k,
    ensures
        named(ov, k) == Seq::<(Seq<char>, NodeView)>::empty(),
    decreases ov.len(),
{
    if ov.len() > 0 {
        let front = ov.drop_last();
        assert forall|j: int| 0 <= j < front.len() implies (#[trigger] front[j]).1.name != k by {
            assert(front[j] == ov[j]);
        }
        lemma_named_absent(front, k);
        assert(ov[ov.len() - 1] == ov.last());
    }
}

/// A node named `k`: something is named `k`.
proof fn lemma_named_present(ov: Seq<(Seq<char>, NodeView)>, k: Seq<char>, j: int)
    requires
        0 <= j < ov.len(),
        ov[j].1.name == k,
    ensures
        named(ov, k).len() > 0,
    decreases ov.len(),
{
    if j < ov.len() - 1 {
        let front = ov.drop_last();
        assert(front[j] == ov[j]);
        lemma_named_present(front, k, j);
    } else {
        assert(ov.last() == ov[j]);
    }
}

/// Settle one name that virtual nodes share with a real entry, given the
/// providers' forces and retried nodes: a single force wins and shadows
/// the real entry; otherwise the real entry wins and only the retried
/// nodes whose names no real entry has are kept.
pub fn settle_real_conflict(forces: Vec<(ProviderId, Vec<VirtualNode>)>, retries: Vec<OwnedNode>, real_names: &[&str]) -> (r: (Vec<OwnedNode>, bool))
    ensures
        forces@.len() == 1 ==> r.1 && owned_views(r.0@) == attributed(forces@[0].0@, shadowing(node_views(forces@[0].1@))),
        forces@.len() != 1 ==> !r.1 && owned_views(r.0@) == named_outside(owned_views(retries@), name_set(real_names@)),
{
    match apply_force_resolution(forces) {
        Some(winners) => (winners, true),
        None => {
            let ghost ov = owned_views(retries@);
            let ghost real_set = name_set(real_names@);
            let mut kept: Vec<OwnedNode> = Vec::new();
            let mut rest = retries;
            let n = rest.len();
            let mut i: usize = 0;
            assert(owned_views(kept@) =~= named_outside(ov.subrange(0, 0), real_set));
            while i < n
                invariant
                    n == ov.len(),
                    real_set == name_set(real_names@),
                    i <= n,
                    rest@.len() == n - i,
                    owned_views(rest@) == ov.subrange(i as int, n as int),
                    owned_views(kept@) == named_outside(ov.subrange(0, i as int), real_set),
                decreases n - i,
            {
                let ghost r0 = rest@;
                let o = rest.remove(0);
                proof {
                    assert(owned_views(r0)[0] == ov.subrange(i as int, n as int)[0]);
                    assert(owned_view(o) == ov[i as int]);
                    assert(owned_views(rest@) =~= ov.subrange(i + 1, n as int)) by {
                        assert forall|k: int| 0 <= k < rest@.len() implies owned_views(rest@)[k] == ov.subrange(i + 1, n as int)[k] by {
                            assert(rest@[k] == r0[k + 1]);
                            assert(owned_views(r0)[k + 1] == ov.subrange(i as int, n as int)[k + 1]);
                        }
                    }
                    let sub1 = ov.subrange(0, i + 1);
                    assert(sub1.drop_last() =~= ov.subrange(0, i as int));
                    assert(sub1.last() == ov[i as int]);
                }
                if !among(real_names, o.node.name()) {
                    let ghost k0 = owned_views(kept@);
                    kept.push(o);
                    assert(owned_views(kept@) =~= k0.push(ov[i as int]));
                }
                i = i + 1;
            }
            assert(ov.subrange(0, n as int) =~= ov);
            (kept, false)
        },
    }
}

} // verus!

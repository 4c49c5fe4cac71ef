//! Registries built once and then consulted: named entries with
//! last-registration-wins, plugin control commands, and active providers.

use vstd::prelude::*;
use crate::keyed::{Assoc, KeyStr};
use crate::events::InvalidationEvent;
use crate::mutation::{MutationOp, MutationOutcome};
use crate::node::{NodeView, VirtualNode};
use crate::path::VfsPath;
use crate::provider::ProviderId;
use crate::resolve::{ConflictInfo, ConflictResolution};
use crate::routing::ctx::{RenameContext, RequestContext};
use crate::routing::tree::{nodes_view, HandlerError};

verus! {

/// The entries `es` registered in order, a later entry replacing an
/// earlier one of the same name.
pub open spec fn registered<K: View<V = Seq<char>>, V>(es: Seq<(K, V)>) -> Map<Seq<char>, V>
    decreases es.len(),
{
    if es.len() == 0 {
        Map::empty()
    } else {
        registered(es.drop_last()).insert(es.last().0@, es.last().1)
    }
}

/// An immutable name-to-value registry.
pub struct NamedRegistry<K: KeyStr, V> {
    entries: Assoc<K, V>,
}

impl<K: KeyStr, V> NamedRegistry<K, V> {
    #[verifier::type_invariant]
    spec fn inv(&self) -> bool {
        self.entries.wf()
    }

    /// The registered values by name.
    pub closed spec fn view(&self) -> Map<Seq<char>, V> {
        self.entries.view()
    }

    /// Register `entries` in order; a later entry of a name already
    /// registered replaces the earlier one. `kind` labels the registry.
    pub fn from_entries(kind: &'static str, entries: Vec<(K, V)>) -> (r: Self)
        ensures
            r.view() == registered(entries@),
    {
        let ghost es = entries@;
        let mut map: Assoc<K, V> = Assoc::new();
        let mut rest = entries;
        let n = rest.len();
        let mut i: usize = 0;
        assert(registered(es.subrange(0, 0)) =~= Map::empty());
        while i < n
            invariant
                n == es.len(),
                i <= n,
                map.wf(),
                rest@ == es.subrange(i as int, n as int),
                map.view() == registered(es.subrange(0, i as int)),
            decreases n - i,
        {
            let (k, v) = rest.remove(0);
            proof {
                assert(es.subrange(i as int, n as int)[0] == es[i as int]);
                let sub = es.subrange(0, i + 1);
                assert(sub.drop_last() =~= es.subrange(0, i as int));
                assert(sub.last() == es[i as int]);
                assert(rest@ =~= es.subrange(i + 1, n as int));
            }
            map.insert(k, v);
            i = i + 1;
        }
        assert(es.subrange(0, n as int) =~= es);
        NamedRegistry { entries: map }
    }

    /// The value registered under `key`.
    pub fn get(&self, key: &str) -> (r: Option<&V>)
        ensures
            r is Some <==> self.view().contains_key(key@),
            r matches Some(v) ==> *v == self.view()[key@],
    {
        proof { use_type_invariant(self); }
        self.entries.get(key)
    }
}

/// What the registry holds under a name is the value of the last entry of
/// that name: the last registration wins.
pub proof fn law_last_registration_wins<K: View<V = Seq<char>>, V>(es: Seq<(K, V)>, i: int)
    requires
        0 <= i < es.len(),
        forall|j: int| i < j < es.len() ==> (#[trigger] es[j]).0@ != es[i].0@,
    ensures
        registered(es).contains_key(es[i].0@),
        registered(es)[es[i].0@] == es[i].1,
    decreases es.len(),
{
    if i < es.len() - 1 {
        let front = es.drop_last();
        assert forall|j: int| i < j < front.len() implies (#[trigger] front[j]).0@ != front[i].0@ by {
            assert(front[j] == es[j]);
        }
        law_last_registration_wins(front, i);
        assert(es.last().0@ != es[i].0@) by {
            assert(es[es.len() - 1] == es.last());
        }
    }
}

/// A name no entry carries is not registered.
pub proof fn law_unregistered_names<K: View<V = Seq<char>>, V>(es: Seq<(K, V)>, k: Seq<char>)
    requires
        forall|j: int| 0 <= j < es.len() ==> (#[trigger] es[j]).0@ != k,
    ensures
        !registered(es).contains_key(k),
    decreases es.len(),
{
    if es.len() > 0 {
        let front = es.drop_last();
        assert forall|j: int| 0 <= j < front.len() implies (#[trigger] front[j]).0@ != k by {
            assert(front[j] == es[j]);
        }
        law_unregistered_names(front, k);
        assert(es[es.len() - 1] == es.last());
    }
}

/// A plugin control command: a name and its handler.
pub struct ControlCommand<H> {
    pub name: &'static str,
    pub handler: H,
}

/// Plugin control commands by name.
pub struct ControlRegistry<H> {
    commands: NamedRegistry<&'static str, H>,
}

/// The commands `cs` as `(name, handler)` entries.
pub open spec fn command_entries<H>(cs: Seq<ControlCommand<H>>) -> Seq<(&'static str, H)> {
    Seq::new(cs.len(), |i: int| (cs[i].name, cs[i].handler))
}

impl<H> ControlRegistry<H> {
    /// The handlers by command name.
    pub closed spec fn view(&self) -> Map<Seq<char>, H> {
        self.commands.view()
    }

    /// Register the commands in order; the last of one name wins.
    pub fn from_commands(commands: Vec<ControlCommand<H>>) -> (r: Self)
        ensures
            r.view() == registered(command_entries(commands@)),
    {
        let ghost cs = commands@;
        let mut entries: Vec<(&'static str, H)> = Vec::new();
        let mut rest = commands;
        let n = rest.len();
        let mut i: usize = 0;
        while i < n
            invariant
                n == cs.len(),
                i <= n,
                rest@ == cs.subrange(i as int, n as int),
                entries@ == command_entries(cs).subrange(0, i as int),
            decreases n - i,
        {
            let c = rest.remove(0);
            proof {
                assert(cs.subrange(i as int, n as int)[0] == cs[i as int]);
                assert(rest@ =~= cs.subrange(i + 1, n as int));
            }
            entries.push((c.name, c.handler));
            proof {
                assert(entries@ =~= command_entries(cs).subrange(0, i + 1));
            }
            i = i + 1;
        }
        assert(command_entries(cs).subrange(0, n as int) =~= command_entries(cs));
        ControlRegistry { commands: NamedRegistry::from_entries("control command", entries) }
    }

    /// The handler of the command `name`.
    pub fn handler(&self, name: &str) -> (r: Option<&H>)
        ensures
            r is Some <==> self.view().contains_key(name@),
            r matches Some(h) ==> *h == self.view()[name@],
    {
        self.commands.get(name)
    }

    /// Run the command `name` on `payload` and `ctx`; `None` when no such
    /// command is registered.
    pub fn dispatch<A, B, R>(&self, name: &str, payload: A, ctx: B) -> (r: Option<R>)
        where
            H: Fn(A, B) -> R,
        requires
            forall|h: H, a: A, b: B| #[trigger] h.requires((a, b)),
        ensures
            r is None <==> !self.view().contains_key(name@),
            r matches Some(out) ==> self.view()[name@].ensures((payload, ctx), out),
    {
        match self.commands.get(name) {
            Some(h) => Some(h(payload, ctx)),
            None => None,
        }
    }
}

/// A provider of virtual nodes, identified by its id. Nothing is promised
/// of what an implementation's methods return beyond its identity.
pub trait Provider {
    /// The provider's identity; unspecified for an implementation that does
    /// not describe it.
    closed spec fn spec_id(&self) -> ProviderId {
        arbitrary()
    }

    /// The provider's identity.
    fn id(&self) -> (r: ProviderId)
        ensures
            r == self.spec_id();

    /// `r` is a listing the provider can give for the directory `path`;
    /// unspecified for an implementation that does not describe it.
    closed spec fn spec_lists(&self, path: Seq<Seq<char>>, r: Result<Option<Seq<NodeView>>, Seq<char>>) -> bool {
        arbitrary()
    }

    /// The nodes the provider lists in the directory `ctx.path`, or `None`
    /// when it has nothing there.
    fn children(&self, ctx: &RequestContext) -> (r: Result<Option<Vec<VirtualNode>>, HandlerError>)
        ensures
            self.spec_lists(ctx.path@, nodes_view(r));

    /// The node the provider has under `name` in the directory `ctx.path`.
    fn lookup(&self, ctx: &RequestContext, name: &str) -> Result<Option<VirtualNode>, HandlerError>;

    /// Create a file `name` in the directory `ctx.path`, if the provider
    /// handles it there.
    fn create(&self, ctx: &RequestContext, name: &str) -> Result<Option<VirtualNode>, HandlerError>;

    /// Create a directory `name` in the directory `ctx.path`, if the
    /// provider handles it there.
    fn mkdir(&self, ctx: &RequestContext, name: &str) -> Result<Option<VirtualNode>, HandlerError>;

    /// The provider's answer to a naming conflict in the directory
    /// `ctx.path`.
    fn on_conflict(&self, ctx: &RequestContext, conflict: &ConflictInfo) -> Result<ConflictResolution, HandlerError>;

    /// Remove the provider's node `node` from the directory `ctx.path`.
    fn unlink(&self, ctx: &RequestContext, node: &VirtualNode) -> Result<(), HandlerError>;

    /// Move the provider's node `node` of the directory
    /// `ctx.request.path` to `ctx.target_path`.
    fn rename(&self, ctx: &RenameContext, node: &VirtualNode) -> Result<(), HandlerError>;

    /// Whether the provider carries out the real-filesystem mutation `op`
    /// itself; unspecified for an implementation that does not describe it.
    closed spec fn spec_handles(&self, op: MutationOp) -> bool {
        arbitrary()
    }

    /// Carry out a real-filesystem mutation itself, or leave it: it is
    /// handled exactly when the provider says it handles `op`.
    fn handle_mutation(&self, op: &MutationOp) -> (r: Result<MutationOutcome, HandlerError>)
        ensures
            (r matches Ok(MutationOutcome::Handled)) == self.spec_handles(*op);

    /// Invalidation events for virtual content derived from the changed
    /// real paths.
    fn on_fs_change(&self, changed: &[VfsPath]) -> Vec<InvalidationEvent>;
}

/// The providers active in a mount session, in activation order.
pub struct ProviderRegistry<P> {
    active: Vec<P>,
}

impl<P: Provider> ProviderRegistry<P> {
    /// The active providers, in order.
    pub closed spec fn providers(&self) -> Seq<P> {
        self.active@
    }

    /// A registry with no providers.
    pub fn empty() -> (r: Self)
        ensures
            r.providers() == Seq::<P>::empty(),
    {
        ProviderRegistry { active: Vec::new() }
    }

    /// A registry of the given active providers, in order.
    pub fn new(active: Vec<P>) -> (r: Self)
        ensures
            r.providers() == active@,
    {
        ProviderRegistry { active }
    }

    /// The active providers.
    pub fn active_providers(&self) -> (r: &[P])
        ensures
            r@ == self.providers(),
    {
        self.active.as_slice()
    }

    /// The first active provider whose id is `id`.
    pub fn find_provider(&self, id: ProviderId) -> (r: Option<&P>)
        ensures
            r is None <==> forall|i: int| 0 <= i < self.providers().len() ==> (#[trigger] self.providers()[i]).spec_id()@ != id@,
            r matches Some(p) ==> exists|i: int| 0 <= i < self.providers().len() && *p == self.providers()[i]
                && p.spec_id()@ == id@
                && forall|j: int| 0 <= j < i ==> (#[trigger] self.providers()[j]).spec_id()@ != id@,
    {
        let n = self.active.len();
        let mut i: usize = 0;
        while i < n
            invariant
                n == self.active@.len(),
                i <= n,
                forall|j: int| 0 <= j < i ==> (#[trigger] self.active@[j]).spec_id()@ != id@,
            decreases n - i,
        {
            let pid = self.active[i].id();
            if pid.same(&id) {
                proof {
                    assert(self.providers()[i as int].spec_id()@ == id@);
                }
                return Some(&self.active[i]);
            }
            i = i + 1;
        }
        None
    }
}

} // verus!

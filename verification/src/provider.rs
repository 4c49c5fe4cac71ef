//! Provider identities and the registry of active providers.

use vstd::prelude::*;
use crate::text::str_eq;

verus! {

/// The identity of a provider: a static name such as `"git"`.
#[derive(Debug, Clone, Copy, PartialEq, Eq, Hash)]
pub struct ProviderId {
    name: &'static str,
}

impl View for ProviderId {
    type V = Seq<char>;

    closed spec fn view(&self) -> Seq<char> {
        self.name@
    }
}

impl ProviderId {
    /// The provider named `name`.
    pub fn new(name: &'static str) -> (r: Self)
        ensures
            r@ == name@,
    {
        ProviderId { name }
    }

    /// The provider's name.
    pub fn as_str(&self) -> (r: &'static str)
        ensures
            r@ == self@,
    {
        self.name
    }

    /// Whether both identities name the same provider.
    pub fn same(&self, other: &ProviderId) -> (r: bool)
        ensures
            r == (self@ == other@),
    {
        str_eq(self.name, other.name)
    }
}

} // verus!

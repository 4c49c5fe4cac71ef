//! Script addresses and the registry of scripts by address.

use vstd::prelude::*;
use vstd::string::*;
use crate::registry::{registered, NamedRegistry};

verus! {

/// Separator between the segments of a script address.
pub const SCRIPT_NS_SEPARATOR: char = '.';

/// Namespace of provider-registered scripts.
pub const SCRIPT_NS_PROVIDER: &'static str = "provider";

/// The address `namespace.scope.name`.
pub fn script_address(namespace: &str, scope: &str, name: &str) -> (r: String)
    ensures
        r@ == namespace@ + seq!['.'] + scope@ + seq!['.'] + name@,
{
    let mut r = String::from_str(namespace);
    r.append(".");
    r.append(scope);
    r.append(".");
    r.append(name);
    proof {
        reveal_strlit(".");
        assert(r@ =~= namespace@ + seq!['.'] + scope@ + seq!['.'] + name@);
    }
    r
}

/// The provider-scoped address `provider.<provider_id>.<name>`.
pub fn provider_script_address(provider_id: &str, name: &str) -> (r: String)
    ensures
        r@ == "provider"@ + seq!['.'] + provider_id@ + seq!['.'] + name@,
{
    script_address(SCRIPT_NS_PROVIDER, provider_id, name)
}

/// No script is registered under the address.
#[derive(Debug, PartialEq, Eq)]
pub struct UnknownScript {
    pub address: String,
}

/// Scripts by address.
pub struct ScriptRegistry<S> {
    scripts: NamedRegistry<String, S>,
}

impl<S> ScriptRegistry<S> {
    /// The scripts by address.
    pub closed spec fn view(&self) -> Map<Seq<char>, S> {
        self.scripts.view()
    }

    /// Register the scripts in order; the last of one address wins.
    pub fn from_entries(entries: Vec<(String, S)>) -> (r: Self)
        ensures
            r.view() == registered(entries@),
    {
        ScriptRegistry { scripts: NamedRegistry::from_entries("script address", entries) }
    }

    /// The script registered under `address`.
    pub fn get(&self, address: &str) -> (r: Result<&S, UnknownScript>)
        ensures
            r is Ok <==> self.view().contains_key(address@),
            r matches Ok(s) ==> *s == self.view()[address@],
            r matches Err(e) ==> e.address@ == address@,
    {
        match self.scripts.get(address) {
            Some(s) => Ok(s),
            None => Err(UnknownScript { address: address.to_owned() }),
        }
    }
}

} // verus!

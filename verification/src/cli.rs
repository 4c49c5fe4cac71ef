//! Command-line argument values and the parsing of mount specifications.

use vstd::prelude::*;
use vstd::string::*;
use crate::config::StorageStrategy;
use crate::text::str_eq;

verus! {

/// The session selection shared by several subcommands.
pub struct SessionArgs {
    pub id: Option<String>,
}

impl SessionArgs {
    /// The explicitly selected session, if any.
    pub fn id(&self) -> (r: Option<&str>)
        ensures
            r is Some <==> self.id is Some,
            r matches Some(s) ==> s@ == self.id->Some_0@,
    {
        match &self.id {
            Some(s) => Some(s.as_str()),
            None => None,
        }
    }
}

/// Arguments of the `config` subcommand (none).
pub struct ConfigArgs;

/// Arguments of the `ctl` subcommand.
pub struct CtlArgs {
    pub session: SessionArgs,
    /// The control request as JSON; read from standard input when absent.
    pub request: Option<String>,
}

/// Arguments of the `exec` subcommand.
pub struct ExecArgs {
    pub session: SessionArgs,
    /// Address of the script to execute.
    pub address: String,
}

/// Arguments of the `list` subcommand.
pub struct ListArgs {
    pub session: SessionArgs,
}

/// Arguments of the `mount` subcommand.
pub struct MountArgs {
    /// Directories to mount (the current directory when empty).
    pub paths: Vec<MountSpec>,
    /// Overrides the configured storage strategy.
    pub storage_strategy: Option<StorageStrategy>,
}

/// A mount specification: an optional explicit session id and a path.
pub struct MountSpec {
    pub explicit_id: Option<String>,
    pub path: String,
}

/// The index of the first `:` in `s`, if any.
pub open spec fn first_colon(s: Seq<char>) -> Option<int> {
    if exists|i: int| 0 <= i < s.len() && s[i] == ':' {
        Some(choose|i: int| 0 <= i < s.len() && s[i] == ':' && forall|j: int| 0 <= j < i ==> s[j] != ':')
    } else {
        None
    }
}

/// `s` splits into an id and a path: at its first `:`, with a non-empty
/// id free of `/` before it and a non-empty path after it.
pub open spec fn has_id_prefix(s: Seq<char>) -> bool {
    match first_colon(s) {
        Some(i) => i > 0 && !s.subrange(0, i).contains('/') && i + 1 < s.len(),
        None => false,
    }
}

impl MountSpec {
    /// Parse `id:path` or a bare path. The text before the first `:` is an
    /// id only when it is non-empty and holds no `/` and the rest is
    /// non-empty; anything else is a bare path.
    pub fn parse(s: &str) -> (r: MountSpec)
        ensures
            has_id_prefix(s@) ==> (r.explicit_id matches Some(id)
                && id@ == s@.subrange(0, first_colon(s@)->Some_0)
                && r.path@ == s@.subrange(first_colon(s@)->Some_0 + 1, s@.len() as int)),
            !has_id_prefix(s@) ==> r.explicit_id is None && r.path@ == s@,
    {
        let n = s.unicode_len();
        let mut i: usize = 0;
        let mut slash = false;
        while i < n
            invariant
                n == s@.len(),
                i <= n,
                forall|j: int| 0 <= j < i ==> s@[j] != ':',
                slash == s@.subrange(0, i as int).contains('/'),
            decreases n - i,
        {
            let c = s.get_char(i);
            if c == ':' {
                proof {
                    assert(first_colon(s@) == Some(i as int)) by {
                        assert(exists|k: int| 0 <= k < s@.len() && s@[k] == ':');
                        let k = choose|k: int| 0 <= k < s@.len() && s@[k] == ':' && forall|j: int| 0 <= j < k ==> s@[j] != ':';
                        assert(k == i) by {
                            if k < i {
                                assert(s@[k] != ':');
                            } else if k > i {
                                assert(s@[i as int] != ':');
                            }
                        }
                    }
                }
                if i > 0 && !slash && i + 1 < n {
                    return MountSpec {
                        explicit_id: Some(s.substring_char(0, i).to_owned()),
                        path: s.substring_char(i + 1, n).to_owned(),
                    };
                }
                return MountSpec { explicit_id: None, path: s.to_owned() };
            }
            proof {
                assert(s@.subrange(0, i + 1) =~= s@.subrange(0, i as int).push(c));
                assert(s@.subrange(0, i + 1).contains('/') == (s@.subrange(0, i as int).contains('/') || c == '/')) by {
                    if s@.subrange(0, i + 1).contains('/') {
                        let k = choose|k: int| 0 <= k < i + 1 && #[trigger] s@.subrange(0, i + 1)[k] == '/';
                        if k < i {
                            assert(s@.subrange(0, i as int)[k] == '/');
                        }
                    }
                    if s@.subrange(0, i as int).contains('/') {
                        let k = choose|k: int| 0 <= k < i && #[trigger] s@.subrange(0, i as int)[k] == '/';
                        assert(s@.subrange(0, i + 1)[k] == '/');
                    }
                    if c == '/' {
                        assert(s@.subrange(0, i + 1)[i as int] == '/');
                    }
                }
            }
            slash = slash || c == '/';
            i = i + 1;
        }
        MountSpec { explicit_id: None, path: s.to_owned() }
    }

    /// The explicit session id, if any.
    pub fn explicit_id(&self) -> (r: Option<&str>)
        ensures
            r is Some <==> self.explicit_id is Some,
            r matches Some(s) ==> s@ == self.explicit_id->Some_0@,
    {
        match &self.explicit_id {
            Some(s) => Some(s.as_str()),
            None => None,
        }
    }

    /// The directory to mount.
    pub fn path(&self) -> (r: &str)
        ensures
            r@ == self.path@,
    {
        self.path.as_str()
    }
}

/// `m` is the mount specification that the text `s` describes.
pub open spec fn parsed_from(s: Seq<char>, m: MountSpec) -> bool {
    &&& has_id_prefix(s) ==> (m.explicit_id matches Some(id)
        && id@ == s.subrange(0, first_colon(s)->Some_0)
        && m.path@ == s.subrange(first_colon(s)->Some_0 + 1, s.len() as int))
    &&& !has_id_prefix(s) ==> m.explicit_id is None && m.path@ == s
}

impl std::str::FromStr for MountSpec {
    type Err = std::convert::Infallible;

    /// Parse a mount specification, as [`MountSpec::parse`] does; it never
    /// fails.
    fn from_str(s: &str) -> (r: Result<MountSpec, std::convert::Infallible>)
        ensures
            r matches Ok(m) && parsed_from(s@, m),
    {
        Ok(MountSpec::parse(s))
    }
}

/// Two mounts of one invocation were given the same session id.
#[derive(Debug, PartialEq, Eq)]
pub struct DuplicateSessionId {
    pub id: String,
}

impl DuplicateSessionId {
    /// The message shown to the user.
    pub fn message(&self) -> (r: String)
        ensures
            r@ == "duplicate session ID "@ + self.id@ + " - use explicit prefixes to disambiguate"@,
    {
        let mut m = "duplicate session ID ".to_owned();
        m.append(self.id.as_str());
        m.append(" - use explicit prefixes to disambiguate");
        m
    }
}

/// The ids `ids[..n]` are pairwise distinct.
pub open spec fn distinct_prefix(ids: Seq<String>, n: int) -> bool {
    forall|i: int, j: int| 0 <= i < j < n ==> (#[trigger] ids[i])@ != (#[trigger] ids[j])@
}

/// Check the session ids of one mount invocation, in order: each must
/// differ from every earlier one. The first id that repeats an earlier one
/// is the error.
pub fn check_session_ids(ids: &Vec<String>) -> (r: Result<(), DuplicateSessionId>)
    ensures
        r is Ok <==> distinct_prefix(ids@, ids@.len() as int),
        r matches Err(e) ==> exists|j: int| 0 <= j < ids@.len() && #[trigger] ids@[j]@ == e.id@
            && distinct_prefix(ids@, j)
            && exists|i: int| 0 <= i < j && #[trigger] ids@[i]@ == ids@[j]@,
{
    let n = ids.len();
    let mut j: usize = 0;
    while j < n
        invariant
            n == ids@.len(),
            j <= n,
            distinct_prefix(ids@, j as int),
        decreases n - j,
    {
        let mut i: usize = 0;
        while i < j
            invariant
                n == ids@.len(),
                i <= j < n,
                distinct_prefix(ids@, j as int),
                forall|k: int| 0 <= k < i ==> (#[trigger] ids@[k])@ != ids@[j as int]@,
            decreases j - i,
        {
            if str_eq(ids[i].as_str(), ids[j].as_str()) {
                let id = ids[j].as_str().to_owned();
                proof {
                    assert(ids@[i as int]@ == ids@[j as int]@);
                    assert(ids@[j as int]@ == id@);
                }
                return Err(DuplicateSessionId { id });
            }
            i = i + 1;
        }
        j = j + 1;
    }
    Ok(())
}

/// `s` without its trailing `/` characters.
pub open spec fn trim_trailing_slashes(s: Seq<char>) -> Seq<char>
    decreases s.len(),
{
    if s.len() > 0 && s.last() == '/' { trim_trailing_slashes(s.drop_last()) } else { s }
}

/// The text of `s` after its last `/`, all of `s` when it has none.
pub open spec fn after_last_slash(s: Seq<char>) -> Seq<char>
    decreases s.len(),
{
    if s.len() == 0 {
        s
    } else if s.last() == '/' {
        Seq::empty()
    } else {
        after_last_slash(s.drop_last()).push(s.last())
    }
}

/// The session id a mounted directory gets from its path: the last
/// component, or `root` when there is none.
pub open spec fn session_id_of(dir: Seq<char>) -> Seq<char> {
    let name = after_last_slash(trim_trailing_slashes(dir));
    if name.len() == 0 { "root"@ } else { name }
}

/// The session id of the directory at the (canonical) path `dir`: its
/// last component, or `root` for the filesystem root.
pub fn session_id_for(dir: &str) -> (r: String)
    ensures
        r@ == session_id_of(dir@),
{
    let n = dir.unicode_len();
    let mut end: usize = n;
    assert(dir@.subrange(0, n as int) =~= dir@);
    while end > 0 && dir.get_char(end - 1) == '/'
        invariant
            end <= n,
            n == dir@.len(),
            trim_trailing_slashes(dir@) == trim_trailing_slashes(dir@.subrange(0, end as int)),
        decreases end,
    {
        assert(dir@.subrange(0, end as int).drop_last() =~= dir@.subrange(0, end - 1));
        end = end - 1;
    }
    let ghost t = dir@.subrange(0, end as int);
    assert(trim_trailing_slashes(dir@) == t);
    let mut start: usize = end;
    assert(t.subrange(end as int, end as int) =~= Seq::<char>::empty());
    assert(t.subrange(0, end as int) =~= t);
    assert(after_last_slash(t) + t.subrange(end as int, end as int) =~= after_last_slash(t));
    while start > 0 && dir.get_char(start - 1) != '/'
        invariant
            start <= end,
            end <= n,
            n == dir@.len(),
            t == dir@.subrange(0, end as int),
            after_last_slash(t) == after_last_slash(t.subrange(0, start as int)) + t.subrange(start as int, end as int),
        decreases start,
    {
        let ghost c = dir@[start - 1];
        proof {
            let u = t.subrange(0, start as int);
            assert(u.drop_last() =~= t.subrange(0, start - 1));
            assert(u.last() == c);
            assert(t.subrange(start - 1, end as int) =~= seq![c] + t.subrange(start as int, end as int));
            assert(after_last_slash(u) == after_last_slash(t.subrange(0, start - 1)).push(c));
            assert(after_last_slash(t.subrange(0, start - 1)).push(c) + t.subrange(start as int, end as int)
                =~= after_last_slash(t.subrange(0, start - 1)) + t.subrange(start - 1, end as int));
        }
        start = start - 1;
    }
    proof {
        let u = t.subrange(0, start as int);
        if start > 0 {
            assert(u.last() == '/');
            assert(after_last_slash(u) == Seq::<char>::empty());
        } else {
            assert(u.len() == 0);
        }
        assert(after_last_slash(u) + t.subrange(start as int, end as int) =~= t.subrange(start as int, end as int));
    }
    if start == end {
        proof { reveal_strlit("root"); }
        return "root".to_owned();
    }
    dir.substring_char(start, end).to_owned()
}

} // verus!

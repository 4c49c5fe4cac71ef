//! Daemon configuration: its sections, their defaults, and their decoding
//! from a configuration value with unknown names rejected.

use vstd::prelude::*;
use crate::deep_merge::{entries_view, field, key_index, ConfigValue, ValueView};
use crate::keyed::Assoc;
use crate::path::str_views;
use crate::text::str_eq;

verus! {

/// Why a configuration value does not decode.
#[derive(Debug, Clone, Copy, PartialEq, Eq)]
pub enum ConfigError {
    /// The section named here holds a name it does not define, lacks a
    /// required field, or holds a value of the wrong type.
    Invalid(&'static str),
}

/// How the project is exposed to the filesystem daemon.
#[derive(Debug, Clone, Copy, PartialEq, Eq, Structural)]
pub enum StorageStrategy {
    /// Bind-mount the repository directly.
    Passthrough,
    /// Copy only the head tree through the object database.
    Snapshot,
    /// A full local clone with hardlinked objects.
    Hardlink,
}

/// The strategy a lowercase name stands for.
pub open spec fn strategy_named(s: Seq<char>) -> Option<StorageStrategy> {
    if s == "passthrough"@ {
        Some(StorageStrategy::Passthrough)
    } else if s == "snapshot"@ {
        Some(StorageStrategy::Snapshot)
    } else if s == "hardlink"@ {
        Some(StorageStrategy::Hardlink)
    } else {
        None
    }
}

impl StorageStrategy {
    /// The strategy named `s` (lowercase), if any.
    pub fn from_name(s: &str) -> (r: Option<Self>)
        ensures
            r == strategy_named(s@),
    {
        if str_eq(s, "passthrough") {
            Some(StorageStrategy::Passthrough)
        } else if str_eq(s, "snapshot") {
            Some(StorageStrategy::Snapshot)
        } else if str_eq(s, "hardlink") {
            Some(StorageStrategy::Hardlink)
        } else {
            None
        }
    }

    /// The strategy's lowercase name.
    pub fn name(&self) -> (r: &'static str)
        ensures
            strategy_named(r@) == Some(*self),
    {
        proof {
            reveal_strlit("passthrough");
            reveal_strlit("snapshot");
            reveal_strlit("hardlink");
            assert("snapshot"@ != "passthrough"@) by {
                assert("snapshot"@.len() != "passthrough"@.len());
            }
            assert("hardlink"@ != "passthrough"@) by {
                assert("hardlink"@.len() != "passthrough"@.len());
            }
            assert("hardlink"@ != "snapshot"@) by {
                assert("hardlink"@[0] != "snapshot"@[0]);
            }
        }
        match self {
            StorageStrategy::Passthrough => "passthrough",
            StorageStrategy::Snapshot => "snapshot",
            StorageStrategy::Hardlink => "hardlink",
        }
    }
}

impl Default for StorageStrategy {
    fn default() -> (r: Self)
        ensures
            r == StorageStrategy::Passthrough,
    {
        StorageStrategy::Passthrough
    }
}

/// Mount flags a configured bind mount may carry.
#[derive(Debug, Clone, Copy, PartialEq, Eq, Structural)]
pub enum BindMountFlag {
    /// Read-only.
    ReadOnly,
    /// No execution of binaries.
    Noexec,
    /// Set-user-ID and set-group-ID bits ignored.
    Nosuid,
    /// Device special files ignored.
    Nodev,
}

/// The flag a snake-case name stands for.
pub open spec fn flag_named(s: Seq<char>) -> Option<BindMountFlag> {
    if s == "read_only"@ {
        Some(BindMountFlag::ReadOnly)
    } else if s == "noexec"@ {
        Some(BindMountFlag::Noexec)
    } else if s == "nosuid"@ {
        Some(BindMountFlag::Nosuid)
    } else if s == "nodev"@ {
        Some(BindMountFlag::Nodev)
    } else {
        None
    }
}

/// The kernel's mount flag bit for each bind mount flag.
pub open spec fn flag_bit(f: BindMountFlag) -> u32 {
    match f {
        BindMountFlag::ReadOnly => 1,
        BindMountFlag::Nosuid => 2,
        BindMountFlag::Nodev => 4,
        BindMountFlag::Noexec => 8,
    }
}

/// The union of the kernel flag bits of `flags`.
pub open spec fn flags_bits(flags: Seq<BindMountFlag>) -> u32
    decreases flags.len(),
{
    if flags.len() == 0 {
        0
    } else {
        flags_bits(flags.drop_last()) | flag_bit(flags.last())
    }
}

/// `MountFlags::RDONLY` of rustix, as bits: the kernel's `MS_RDONLY`.
#[verifier::external_body]
fn read_only_bits() -> (r: u32)
    ensures
        r == 1,
{
    rustix::mount::MountFlags::RDONLY.bits()
}

/// `MountFlags::NOSUID` of rustix, as bits: the kernel's `MS_NOSUID`.
#[verifier::external_body]
fn nosuid_bits() -> (r: u32)
    ensures
        r == 2,
{
    rustix::mount::MountFlags::NOSUID.bits()
}

/// `MountFlags::NODEV` of rustix, as bits: the kernel's `MS_NODEV`.
#[verifier::external_body]
fn nodev_bits() -> (r: u32)
    ensures
        r == 4,
{
    rustix::mount::MountFlags::NODEV.bits()
}

/// `MountFlags::NOEXEC` of rustix, as bits: the kernel's `MS_NOEXEC`.
#[verifier::external_body]
fn noexec_bits() -> (r: u32)
    ensures
        r == 8,
{
    rustix::mount::MountFlags::NOEXEC.bits()
}

impl BindMountFlag {
    /// The snake-case name of the flag; naming it back gives the flag.
    pub fn name(self) -> (r: &'static str)
        ensures
            flag_named(r@) == Some(self),
    {
        proof {
            reveal_strlit("read_only");
            reveal_strlit("noexec");
            reveal_strlit("nosuid");
            reveal_strlit("nodev");
            assert("read_only"@.len() == 9 && "noexec"@.len() == 6 && "nosuid"@.len() == 6 && "nodev"@.len() == 5);
            assert("noexec"@[2] == 'e' && "nosuid"@[2] == 's');
        }
        match self {
            BindMountFlag::ReadOnly => "read_only",
            BindMountFlag::Noexec => "noexec",
            BindMountFlag::Nosuid => "nosuid",
            BindMountFlag::Nodev => "nodev",
        }
    }

    /// The flag named `s` (snake case), if any.
    pub fn from_name(s: &str) -> (r: Option<Self>)
        ensures
            r == flag_named(s@),
    {
        if str_eq(s, "read_only") {
            Some(BindMountFlag::ReadOnly)
        } else if str_eq(s, "noexec") {
            Some(BindMountFlag::Noexec)
        } else if str_eq(s, "nosuid") {
            Some(BindMountFlag::Nosuid)
        } else if str_eq(s, "nodev") {
            Some(BindMountFlag::Nodev)
        } else {
            None
        }
    }

    /// The kernel mount flag bit of this flag.
    pub fn to_mount_flag(self) -> (r: u32)
        ensures
            r == flag_bit(self),
    {
        match self {
            BindMountFlag::ReadOnly => read_only_bits(),
            BindMountFlag::Noexec => noexec_bits(),
            BindMountFlag::Nosuid => nosuid_bits(),
            BindMountFlag::Nodev => nodev_bits(),
        }
    }
}

/// A union of flag bits including a non-zero bit is non-zero.
proof fn lemma_or_nonzero(a: u32, b: u32)
    requires
        b != 0,
    ensures
        a | b != 0,
{
    assert(b != 0 ==> a | b != 0) by (bit_vector);
}

/// A host path bind-mounted into the sandbox.
pub struct BindMount {
    /// Absolute path on the host.
    pub source: String,
    /// Absolute path inside the sandbox.
    pub target: String,
    /// Mount flags to apply (none: read-write with exec).
    pub flags: Vec<BindMountFlag>,
}

impl BindMount {
    /// All configured flags as one kernel flag set; `None` when there are
    /// none, so that the kernel defaults apply.
    pub fn mount_flags(&self) -> (r: Option<u32>)
        ensures
            self.flags@.len() == 0 ==> r is None,
            self.flags@.len() > 0 ==> r == Some(flags_bits(self.flags@)),
    {
        let mut bits: u32 = 0;
        let n = self.flags.len();
        let mut i: usize = 0;
        while i < n
            invariant
                n == self.flags@.len(),
                i <= n,
                bits == flags_bits(self.flags@.subrange(0, i as int)),
                i > 0 ==> bits != 0,
            decreases n - i,
        {
            let b = self.flags[i].to_mount_flag();
            proof {
                assert(self.flags@.subrange(0, i + 1).drop_last() =~= self.flags@.subrange(0, i as int));
                lemma_or_nonzero(bits, b);
            }
            bits = bits | b;
            i = i + 1;
        }
        assert(self.flags@.subrange(0, n as int) =~= self.flags@);
        if bits == 0 {
            None
        } else {
            Some(bits)
        }
    }
}

/// Repository settings.
pub struct RepositoryConfig {
    /// How the project is exposed to the daemon.
    pub storage_strategy: StorageStrategy,
}

impl Default for RepositoryConfig {
    fn default() -> (r: Self)
        ensures
            r.storage_strategy == StorageStrategy::Passthrough,
    {
        RepositoryConfig { storage_strategy: StorageStrategy::Passthrough }
    }
}

/// Namespace isolation settings for sandboxed processes.
pub struct SandboxConfig {
    /// Hostname inside the sandbox.
    pub hostname: String,
    /// Host directories bind-mounted into the sandbox.
    pub bind_mounts: Vec<BindMount>,
    /// Extra environment variables for sandboxed processes.
    pub env: Assoc<String, String>,
    /// Root directory of per-process sandbox state.
    pub state_root: String,
    /// Mount point of the virtual filesystem inside the sandbox.
    pub mount_root: String,
}

impl Default for SandboxConfig {
    fn default() -> (r: Self)
        ensures
            r.hostname@ == "nyne-sandbox"@,
            r.bind_mounts@.len() == 0,
            r.env.wf(),
            r.env.view() == Map::<Seq<char>, String>::empty(),
            r.state_root@ == "/tmp/nyne"@,
            r.mount_root@ == "/code"@,
    {
        SandboxConfig {
            hostname: "nyne-sandbox".to_owned(),
            bind_mounts: Vec::new(),
            env: Assoc::new(),
            state_root: "/tmp/nyne".to_owned(),
            mount_root: "/code".to_owned(),
        }
    }
}

/// The virtual mount, when declared in the configuration.
pub struct MountConfig {
    /// The source directory exposed through the mount.
    pub source_dir: String,
    /// Where the virtual filesystem is mounted.
    pub mountpoint: String,
    /// Glob patterns excluded from the mount.
    pub excluded_patterns: Vec<String>,
}

/// Agent-facing virtual files injected into every directory.
pub struct AgentFilesConfig {
    /// Names of the virtual agent files.
    pub filenames: Vec<String>,
}

/// The default agent file names.
pub open spec fn default_agent_names() -> Seq<Seq<char>> {
    seq!["AGENTS.md"@]
}

/// The default agent file names: `AGENTS.md`, the generic convention.
pub fn default_agent_filenames() -> (r: Vec<String>)
    ensures
        crate::path::views(r@) == default_agent_names(),
{
    let r = vec!["AGENTS.md".to_owned()];
    assert(crate::path::views(r@) =~= default_agent_names());
    r
}

impl Default for AgentFilesConfig {
    fn default() -> (r: Self)
        ensures
            crate::path::views(r.filenames@) == default_agent_names(),
    {
        AgentFilesConfig { filenames: default_agent_filenames() }
    }
}

/// The whole daemon configuration.
pub struct NyneConfig {
    /// The virtual mount, if declared.
    pub mount: Option<MountConfig>,
    pub repository: RepositoryConfig,
    pub sandbox: SandboxConfig,
    pub agent_files: AgentFilesConfig,
    /// Plugin sections, by plugin name, kept as values.
    pub plugin: Assoc<String, ConfigValue>,
}

/// `c` is the default configuration: no mount, passthrough storage, the
/// default sandbox, the default agent files, and no plugin section.
pub open spec fn default_config(c: NyneConfig) -> bool {
    &&& c.mount is None
    &&& c.repository.storage_strategy == StorageStrategy::Passthrough
    &&& c.sandbox.hostname@ == "nyne-sandbox"@
    &&& c.sandbox.bind_mounts@.len() == 0
    &&& c.sandbox.env.wf()
    &&& c.sandbox.env.view() == Map::<Seq<char>, String>::empty()
    &&& c.sandbox.state_root@ == "/tmp/nyne"@
    &&& c.sandbox.mount_root@ == "/code"@
    &&& crate::path::views(c.agent_files.filenames@) == default_agent_names()
    &&& c.plugin.wf()
    &&& c.plugin.view() == Map::<Seq<char>, ConfigValue>::empty()
}

impl Default for NyneConfig {
    fn default() -> (r: Self)
        ensures
            default_config(r),
    {
        NyneConfig {
            mount: None,
            repository: RepositoryConfig::default(),
            sandbox: SandboxConfig::default(),
            agent_files: AgentFilesConfig::default(),
            plugin: Assoc::new(),
        }
    }
}

/// Project configuration files, in the order they are looked for.
pub const PROJECT_CONFIG_FILENAMES: [&'static str; 3] = [".nyne/config.toml", ".nyne.toml", "nyne.toml"];

/// Every entry of `t` has one of the names `names`.
pub open spec fn names_within(t: Seq<(Seq<char>, ValueView)>, names: Seq<Seq<char>>) -> bool {
    forall|i: int| 0 <= i < t.len() ==> names.contains(#[trigger] t[i].0)
}

/// The field `k` of `t` is absent or a string.
pub open spec fn opt_text(t: Seq<(Seq<char>, ValueView)>, k: Seq<char>) -> bool {
    match field(t, k) {
        None => true,
        Some(v) => v is Text,
    }
}

/// The string in field `k` of `t`, or `d` when the field is absent.
pub open spec fn text_or(t: Seq<(Seq<char>, ValueView)>, k: Seq<char>, d: Seq<char>) -> Seq<char> {
    match field(t, k) {
        Some(ValueView::Text(s)) => s,
        _ => d,
    }
}

/// `v` is an array of strings.
pub open spec fn is_text_list(v: ValueView) -> bool {
    v is Array && forall|i: int| 0 <= i < v->Array_0.len() ==> #[trigger] v->Array_0[i] is Text
}

/// The strings of an array of strings.
pub open spec fn text_list(v: ValueView) -> Seq<Seq<char>> {
    Seq::new(v->Array_0.len(), |i: int| v->Array_0[i]->Text_0)
}

/// `v` is an array of flag names.
pub open spec fn is_flag_list(v: ValueView) -> bool {
    v is Array && forall|i: int| 0 <= i < v->Array_0.len() ==> #[trigger] v->Array_0[i] is Text
        && flag_named(v->Array_0[i]->Text_0) is Some
}

/// The flags an array of flag names names.
pub open spec fn flag_list(v: ValueView) -> Seq<BindMountFlag> {
    Seq::new(v->Array_0.len(), |i: int| flag_named(v->Array_0[i]->Text_0)->Some_0)
}

/// The entries of `t` as a map, a later entry replacing an earlier one
/// of the same name.
pub open spec fn table_map(t: Seq<(Seq<char>, ValueView)>) -> Map<Seq<char>, ValueView>
    decreases t.len(),
{
    if t.len() == 0 {
        Map::empty()
    } else {
        table_map(t.drop_last()).insert(t.last().0, t.last().1)
    }
}

/// Every entry of `t` holds a string.
pub open spec fn all_text(t: Seq<(Seq<char>, ValueView)>) -> bool {
    forall|i: int| 0 <= i < t.len() ==> #[trigger] t[i].1 is Text
}

/// The names a bind mount section may hold.
pub open spec fn bind_names() -> Seq<Seq<char>> {
    seq!["source"@, "target"@, "flags"@]
}

/// `v` decodes as a bind mount.
pub open spec fn bind_ok(v: ValueView) -> bool {
    &&& v is Table
    &&& names_within(v->Table_0, bind_names())
    &&& field(v->Table_0, "source"@) matches Some(ValueView::Text(_))
    &&& field(v->Table_0, "target"@) matches Some(ValueView::Text(_))
    &&& match field(v->Table_0, "flags"@) {
        None => true,
        Some(f) => is_flag_list(f),
    }
}

/// The flags a bind mount section declares.
pub open spec fn bind_flags(v: ValueView) -> Seq<BindMountFlag> {
    match field(v->Table_0, "flags"@) {
        None => Seq::empty(),
        Some(f) => flag_list(f),
    }
}

/// `b` is what the bind mount section `v` decodes to.
pub open spec fn bind_decoded(b: BindMount, v: ValueView) -> bool {
    &&& b.source@ == field(v->Table_0, "source"@)->Some_0->Text_0
    &&& b.target@ == field(v->Table_0, "target"@)->Some_0->Text_0
    &&& b.flags@ == bind_flags(v)
}

/// Whether every name of `t` is one of `names`.
fn names_ok(t: &Vec<(String, ConfigValue)>, names: &[&'static str]) -> (r: bool)
    ensures
        r == names_within(entries_view(t@), str_views(names@)),
{
    let n = t.len();
    let m = names.len();
    let mut i: usize = 0;
    while i < n
        invariant
            n == t@.len(),
            m == names@.len(),
            i <= n,
            forall|j: int| 0 <= j < i ==> str_views(names@).contains(#[trigger] entries_view(t@)[j].0),
        decreases n - i,
    {
        let mut found = false;
        let mut q: usize = 0;
        while q < m
            invariant
                m == names@.len(),
                q <= m,
                found ==> str_views(names@).contains(t@[i as int].0@),
                !found ==> forall|p: int| 0 <= p < q ==> #[trigger] names@[p]@ != t@[i as int].0@,
                i < n,
                n == t@.len(),
            decreases m - q,
        {
            if str_eq(names[q], t[i].0.as_str()) {
                proof {
                    assert(str_views(names@)[q as int] == t@[i as int].0@);
                }
                found = true;
            }
            q = q + 1;
        }
        if !found {
            proof {
                assert(!str_views(names@).contains(entries_view(t@)[i as int].0)) by {
                    if str_views(names@).contains(entries_view(t@)[i as int].0) {
                        let p = choose|p: int| 0 <= p < m && str_views(names@)[p] == entries_view(t@)[i as int].0;
                        assert(names@[p]@ != t@[i as int].0@);
                    }
                }
            }
            return false;
        }
        i = i + 1;
    }
    true
}

/// The strings of `v`, when it is an array of strings.
fn decode_text_list(v: &ConfigValue) -> (r: Option<Vec<String>>)
    ensures
        r is Some <==> is_text_list(v@),
        r matches Some(l) ==> crate::path::views(l@) == text_list(v@),
{
    let items = match v.as_array() {
        Some(items) => items,
        None => return None,
    };
    let n = items.len();
    let mut out: Vec<String> = Vec::new();
    let mut i: usize = 0;
    while i < n
        invariant
            n == items@.len(),
            v@ is Array,
            crate::deep_merge::items_view(items@) == v@->Array_0,
            i <= n,
            out@.len() == i,
            forall|j: int| 0 <= j < i ==> #[trigger] v@->Array_0[j] is Text && out@[j]@ == v@->Array_0[j]->Text_0,
        decreases n - i,
    {
        match items[i].as_str() {
            Some(s) => {
                out.push(s.to_owned());
            },
            None => {
                assert(!(v@->Array_0[i as int] is Text));
                return None;
            },
        }
        i = i + 1;
    }
    assert(crate::path::views(out@) =~= text_list(v@));
    Some(out)
}

/// The flags of `v`, when it is an array of flag names.
fn decode_flags(v: &ConfigValue) -> (r: Option<Vec<BindMountFlag>>)
    ensures
        r is Some <==> is_flag_list(v@),
        r matches Some(l) ==> l@ == flag_list(v@),
{
    let items = match v.as_array() {
        Some(items) => items,
        None => return None,
    };
    let n = items.len();
    let mut out: Vec<BindMountFlag> = Vec::new();
    let mut i: usize = 0;
    while i < n
        invariant
            n == items@.len(),
            v@ is Array,
            crate::deep_merge::items_view(items@) == v@->Array_0,
            i <= n,
            out@.len() == i,
            forall|j: int| 0 <= j < i ==> #[trigger] v@->Array_0[j] is Text
                && flag_named(v@->Array_0[j]->Text_0) == Some(out@[j]),
        decreases n - i,
    {
        let s = match items[i].as_str() {
            Some(s) => s,
            None => {
                assert(!(v@->Array_0[i as int] is Text));
                return None;
            },
        };
        match BindMountFlag::from_name(s) {
            Some(f) => out.push(f),
            None => return None,
        }
        i = i + 1;
    }
    assert(out@ =~= flag_list(v@));
    Some(out)
}

/// The string in field `key` of the table `t`, `default` when absent;
/// `None` when the field holds something else.
fn text_field(t: &ConfigValue, key: &str, default: &str) -> (r: Option<String>)
    requires
        t@ is Table,
    ensures
        r is Some <==> opt_text(t@->Table_0, key@),
        r matches Some(s) ==> s@ == text_or(t@->Table_0, key@, default@),
{
    match t.get(key) {
        None => Some(default.to_owned()),
        Some(v) => match v.as_str() {
            Some(s) => Some(s.to_owned()),
            None => None,
        },
    }
}

impl BindMount {
    /// Decode a bind mount section: a table with `source` and `target`
    /// strings and an optional `flags` array of flag names, and nothing else.
    pub fn from_value(v: &ConfigValue) -> (r: Result<BindMount, ConfigError>)
        ensures
            r is Ok <==> bind_ok(v@),
            r matches Ok(b) ==> bind_decoded(b, v@),
    {
        let t = match v.as_table() {
            Some(t) => t,
            None => return Err(ConfigError::Invalid("bind_mounts")),
        };
        proof {
            reveal_strlit("source");
            reveal_strlit("target");
            reveal_strlit("flags");
        }
        let names: [&'static str; 3] = ["source", "target", "flags"];
        assert(str_views(names@) =~= bind_names());
        if !names_ok(t, &names) {
            return Err(ConfigError::Invalid("bind_mounts"));
        }
        let source = match v.get("source") {
            Some(s) => match s.as_str() {
                Some(s) => s.to_owned(),
                None => return Err(ConfigError::Invalid("bind_mounts")),
            },
            None => return Err(ConfigError::Invalid("bind_mounts")),
        };
        let target = match v.get("target") {
            Some(s) => match s.as_str() {
                Some(s) => s.to_owned(),
                None => return Err(ConfigError::Invalid("bind_mounts")),
            },
            None => return Err(ConfigError::Invalid("bind_mounts")),
        };
        let flags = match v.get("flags") {
            None => Vec::new(),
            Some(f) => match decode_flags(f) {
                Some(l) => l,
                None => return Err(ConfigError::Invalid("bind_mounts")),
            },
        };
        let b = BindMount { source, target, flags };
        assert(b.flags@ =~= bind_flags(v@));
        Ok(b)
    }
}

/// `v` decodes as the repository section.
pub open spec fn repository_ok(v: ValueView) -> bool {
    &&& v is Table
    &&& names_within(v->Table_0, seq!["storage_strategy"@])
    &&& match field(v->Table_0, "storage_strategy"@) {
        None => true,
        Some(s) => s is Text && strategy_named(s->Text_0) is Some,
    }
}

/// The strategy the repository section `v` selects.
pub open spec fn repository_strategy(v: ValueView) -> StorageStrategy {
    match field(v->Table_0, "storage_strategy"@) {
        None => StorageStrategy::Passthrough,
        Some(s) => strategy_named(s->Text_0)->Some_0,
    }
}

impl RepositoryConfig {
    /// Decode the repository section: a table with an optional
    /// `storage_strategy` name, and nothing else.
    pub fn from_value(v: &ConfigValue) -> (r: Result<RepositoryConfig, ConfigError>)
        ensures
            r is Ok <==> repository_ok(v@),
            r matches Ok(c) ==> c.storage_strategy == repository_strategy(v@),
    {
        let t = match v.as_table() {
            Some(t) => t,
            None => return Err(ConfigError::Invalid("repository")),
        };
        let names: [&'static str; 1] = ["storage_strategy"];
        assert(str_views(names@) =~= seq!["storage_strategy"@]);
        if !names_ok(t, &names) {
            return Err(ConfigError::Invalid("repository"));
        }
        let storage_strategy = match v.get("storage_strategy") {
            None => StorageStrategy::Passthrough,
            Some(s) => match s.as_str() {
                Some(name) => match StorageStrategy::from_name(name) {
                    Some(st) => st,
                    None => return Err(ConfigError::Invalid("repository")),
                },
                None => return Err(ConfigError::Invalid("repository")),
            },
        };
        Ok(RepositoryConfig { storage_strategy })
    }
}

/// The table `t` as string map, when every entry holds a string.
fn decode_env(t: &Vec<(String, ConfigValue)>) -> (r: Option<Assoc<String, String>>)
    ensures
        r is Some <==> all_text(entries_view(t@)),
        r matches Some(m) ==> m.wf() && m.view().dom() == table_map(entries_view(t@)).dom()
            && forall|k: Seq<char>| #[trigger] m.view().contains_key(k)
                ==> m.view()[k]@ == table_map(entries_view(t@))[k]->Text_0,
{
    let ghost ev = entries_view(t@);
    let n = t.len();
    let mut m: Assoc<String, String> = Assoc::new();
    let mut i: usize = 0;
    while i < n
        invariant
            n == t@.len(),
            ev == entries_view(t@),
            i <= n,
            m.wf(),
            forall|j: int| 0 <= j < i ==> #[trigger] ev[j].1 is Text,
            m.view().dom() == table_map(ev.subrange(0, i as int)).dom(),
            forall|k: Seq<char>| #[trigger] m.view().contains_key(k)
                ==> m.view()[k]@ == table_map(ev.subrange(0, i as int))[k]->Text_0,
        decreases n - i,
    {
        let value = match t[i].1.as_str() {
            Some(s) => s.to_owned(),
            None => {
                assert(!(ev[i as int].1 is Text));
                return None;
            },
        };
        let ghost before = m.view();
        m.insert(t[i].0.clone(), value);
        proof {
            let sub = ev.subrange(0, i + 1);
            assert(sub.drop_last() =~= ev.subrange(0, i as int));
            assert(sub.last() == ev[i as int]);
            assert(m.view().dom() =~= table_map(sub).dom());
        }
        i = i + 1;
    }
    assert(ev.subrange(0, n as int) =~= ev);
    Some(m)
}

/// The table `t` as a map of values, a later entry replacing an earlier one.
fn decode_sections(t: &Vec<(String, ConfigValue)>) -> (r: Assoc<String, ConfigValue>)
    ensures
        r.wf(),
        r.view().dom() == table_map(entries_view(t@)).dom(),
        forall|k: Seq<char>| #[trigger] r.view().contains_key(k) ==> r.view()[k]@ == table_map(entries_view(t@))[k],
{
    let ghost ev = entries_view(t@);
    let n = t.len();
    let mut m: Assoc<String, ConfigValue> = Assoc::new();
    let mut i: usize = 0;
    while i < n
        invariant
            n == t@.len(),
            ev == entries_view(t@),
            i <= n,
            m.wf(),
            m.view().dom() == table_map(ev.subrange(0, i as int)).dom(),
            forall|k: Seq<char>| #[trigger] m.view().contains_key(k)
                ==> m.view()[k]@ == table_map(ev.subrange(0, i as int))[k],
        decreases n - i,
    {
        m.insert(t[i].0.clone(), t[i].1.duplicate());
        proof {
            let sub = ev.subrange(0, i + 1);
            assert(sub.drop_last() =~= ev.subrange(0, i as int));
            assert(sub.last() == ev[i as int]);
            assert(m.view().dom() =~= table_map(sub).dom());
        }
        i = i + 1;
    }
    assert(ev.subrange(0, n as int) =~= ev);
    m
}

/// The names the sandbox section may hold.
pub open spec fn sandbox_names() -> Seq<Seq<char>> {
    seq!["hostname"@, "bind_mounts"@, "env"@, "state_root"@, "mount_root"@]
}

/// `v` decodes as the sandbox section.
pub open spec fn sandbox_ok(v: ValueView) -> bool {
    &&& v is Table
    &&& names_within(v->Table_0, sandbox_names())
    &&& opt_text(v->Table_0, "hostname"@)
    &&& opt_text(v->Table_0, "state_root"@)
    &&& opt_text(v->Table_0, "mount_root"@)
    &&& match field(v->Table_0, "bind_mounts"@) {
        None => true,
        Some(b) => b is Array && forall|i: int| 0 <= i < b->Array_0.len() ==> bind_ok(#[trigger] b->Array_0[i]),
    }
    &&& match field(v->Table_0, "env"@) {
        None => true,
        Some(e) => e is Table && all_text(e->Table_0),
    }
}

/// The bind mount sections the sandbox section `v` declares.
pub open spec fn sandbox_binds(v: ValueView) -> Seq<ValueView> {
    match field(v->Table_0, "bind_mounts"@) {
        None => Seq::empty(),
        Some(b) => b->Array_0,
    }
}

/// The environment table the sandbox section `v` declares.
pub open spec fn sandbox_env(v: ValueView) -> Seq<(Seq<char>, ValueView)> {
    match field(v->Table_0, "env"@) {
        None => Seq::empty(),
        Some(e) => e->Table_0,
    }
}

/// `c` is what the sandbox section `v` decodes to.
pub open spec fn sandbox_decoded(c: SandboxConfig, v: ValueView) -> bool {
    &&& c.hostname@ == text_or(v->Table_0, "hostname"@, "nyne-sandbox"@)
    &&& c.state_root@ == text_or(v->Table_0, "state_root"@, "/tmp/nyne"@)
    &&& c.mount_root@ == text_or(v->Table_0, "mount_root"@, "/code"@)
    &&& c.bind_mounts@.len() == sandbox_binds(v).len()
    &&& forall|i: int| 0 <= i < c.bind_mounts@.len() ==> bind_decoded(#[trigger] c.bind_mounts@[i], sandbox_binds(v)[i])
    &&& c.env.wf()
    &&& c.env.view().dom() == table_map(sandbox_env(v)).dom()
    &&& forall|k: Seq<char>| #[trigger] c.env.view().contains_key(k) ==> c.env.view()[k]@ == table_map(sandbox_env(v))[k]->Text_0
}

impl SandboxConfig {
    /// Decode the sandbox section; every field is optional and takes its
    /// default when absent, and no other name is allowed.
    pub fn from_value(v: &ConfigValue) -> (r: Result<SandboxConfig, ConfigError>)
        ensures
            r is Ok <==> sandbox_ok(v@),
            r matches Ok(c) ==> sandbox_decoded(c, v@),
    {
        let t = match v.as_table() {
            Some(t) => t,
            None => return Err(ConfigError::Invalid("sandbox")),
        };
        let names: [&'static str; 5] = ["hostname", "bind_mounts", "env", "state_root", "mount_root"];
        assert(str_views(names@) =~= sandbox_names());
        if !names_ok(t, &names) {
            return Err(ConfigError::Invalid("sandbox"));
        }
        let hostname = match text_field(v, "hostname", "nyne-sandbox") {
            Some(s) => s,
            None => return Err(ConfigError::Invalid("sandbox")),
        };
        let state_root = match text_field(v, "state_root", "/tmp/nyne") {
            Some(s) => s,
            None => return Err(ConfigError::Invalid("sandbox")),
        };
        let mount_root = match text_field(v, "mount_root", "/code") {
            Some(s) => s,
            None => return Err(ConfigError::Invalid("sandbox")),
        };
        let mut bind_mounts: Vec<BindMount> = Vec::new();
        match v.get("bind_mounts") {
            None => {},
            Some(b) => {
                let items = match b.as_array() {
                    Some(items) => items,
                    None => return Err(ConfigError::Invalid("sandbox")),
                };
                let n = items.len();
                let mut i: usize = 0;
                while i < n
                    invariant
                        n == items@.len(),
                        v@ is Table,
                        field(v@->Table_0, "bind_mounts"@) == Some(b@),
                        b@ is Array,
                        crate::deep_merge::items_view(items@) == sandbox_binds(v@),
                        i <= n,
                        bind_mounts@.len() == i,
                        forall|j: int| 0 <= j < i ==> bind_ok(#[trigger] sandbox_binds(v@)[j])
                            && bind_decoded(bind_mounts@[j], sandbox_binds(v@)[j]),
                    decreases n - i,
                {
                    match BindMount::from_value(&items[i]) {
                        Ok(bm) => bind_mounts.push(bm),
                        Err(e) => {
                            assert(!bind_ok(b@->Array_0[i as int]));
                            return Err(e);
                        },
                    }
                    i = i + 1;
                }
            },
        }
        let env = match v.get("env") {
            None => {
                assert(sandbox_env(v@) =~= Seq::<(Seq<char>, ValueView)>::empty());
                Assoc::new()
            },
            Some(e) => match e.as_table() {
                Some(et) => match decode_env(et) {
                    Some(m) => m,
                    None => return Err(ConfigError::Invalid("sandbox")),
                },
                None => return Err(ConfigError::Invalid("sandbox")),
            },
        };
        proof {
            if field(v@->Table_0, "env"@) is None {
                assert(table_map(sandbox_env(v@)) =~= Map::empty());
            }
        }
        Ok(SandboxConfig { hostname, bind_mounts, env, state_root, mount_root })
    }
}

/// `v` decodes as the mount section.
pub open spec fn mount_ok(v: ValueView) -> bool {
    &&& v is Table
    &&& names_within(v->Table_0, seq!["source_dir"@, "mountpoint"@, "excluded_patterns"@])
    &&& field(v->Table_0, "source_dir"@) matches Some(ValueView::Text(_))
    &&& field(v->Table_0, "mountpoint"@) matches Some(ValueView::Text(_))
    &&& match field(v->Table_0, "excluded_patterns"@) {
        None => true,
        Some(p) => is_text_list(p),
    }
}

/// `c` is what the mount section `v` decodes to.
pub open spec fn mount_decoded(c: MountConfig, v: ValueView) -> bool {
    &&& c.source_dir@ == field(v->Table_0, "source_dir"@)->Some_0->Text_0
    &&& c.mountpoint@ == field(v->Table_0, "mountpoint"@)->Some_0->Text_0
    &&& crate::path::views(c.excluded_patterns@) == match field(v->Table_0, "excluded_patterns"@) {
        None => Seq::empty(),
        Some(p) => text_list(p),
    }
}

impl MountConfig {
    /// Decode the mount section: `source_dir` and `mountpoint` strings and
    /// an optional `excluded_patterns` array of strings, and nothing else.
    pub fn from_value(v: &ConfigValue) -> (r: Result<MountConfig, ConfigError>)
        ensures
            r is Ok <==> mount_ok(v@),
            r matches Ok(c) ==> mount_decoded(c, v@),
    {
        let t = match v.as_table() {
            Some(t) => t,
            None => return Err(ConfigError::Invalid("mount")),
        };
        let names: [&'static str; 3] = ["source_dir", "mountpoint", "excluded_patterns"];
        assert(str_views(names@) =~= seq!["source_dir"@, "mountpoint"@, "excluded_patterns"@]);
        if !names_ok(t, &names) {
            return Err(ConfigError::Invalid("mount"));
        }
        let source_dir = match v.get("source_dir") {
            Some(s) => match s.as_str() {
                Some(s) => s.to_owned(),
                None => return Err(ConfigError::Invalid("mount")),
            },
            None => return Err(ConfigError::Invalid("mount")),
        };
        let mountpoint = match v.get("mountpoint") {
            Some(s) => match s.as_str() {
                Some(s) => s.to_owned(),
                None => return Err(ConfigError::Invalid("mount")),
            },
            None => return Err(ConfigError::Invalid("mount")),
        };
        let excluded_patterns = match v.get("excluded_patterns") {
            None => {
                let e: Vec<String> = Vec::new();
                assert(crate::path::views(e@) =~= Seq::<Seq<char>>::empty());
                e
            },
            Some(p) => match decode_text_list(p) {
                Some(l) => l,
                None => return Err(ConfigError::Invalid("mount")),
            },
        };
        Ok(MountConfig { source_dir, mountpoint, excluded_patterns })
    }
}

/// `v` decodes as the agent files section.
pub open spec fn agent_files_ok(v: ValueView) -> bool {
    &&& v is Table
    &&& names_within(v->Table_0, seq!["filenames"@])
    &&& match field(v->Table_0, "filenames"@) {
        None => true,
        Some(f) => is_text_list(f),
    }
}

/// The file names the agent files section `v` lists.
pub open spec fn agent_filenames(v: ValueView) -> Seq<Seq<char>> {
    match field(v->Table_0, "filenames"@) {
        None => default_agent_names(),
        Some(f) => text_list(f),
    }
}

impl AgentFilesConfig {
    /// Decode the agent files section: an optional `filenames` array of
    /// strings (the defaults when absent), and nothing else.
    pub fn from_value(v: &ConfigValue) -> (r: Result<AgentFilesConfig, ConfigError>)
        ensures
            r is Ok <==> agent_files_ok(v@),
            r matches Ok(c) ==> crate::path::views(c.filenames@) == agent_filenames(v@),
    {
        let t = match v.as_table() {
            Some(t) => t,
            None => return Err(ConfigError::Invalid("agent_files")),
        };
        let names: [&'static str; 1] = ["filenames"];
        assert(str_views(names@) =~= seq!["filenames"@]);
        if !names_ok(t, &names) {
            return Err(ConfigError::Invalid("agent_files"));
        }
        let filenames = match v.get("filenames") {
            None => default_agent_filenames(),
            Some(f) => match decode_text_list(f) {
                Some(l) => l,
                None => return Err(ConfigError::Invalid("agent_files")),
            },
        };
        Ok(AgentFilesConfig { filenames })
    }
}

/// The names the top level may hold.
pub open spec fn config_names() -> Seq<Seq<char>> {
    seq!["mount"@, "repository"@, "sandbox"@, "agent_files"@, "plugin"@]
}

/// `v` decodes as a whole configuration.
pub open spec fn config_ok(v: ValueView) -> bool {
    &&& v is Table
    &&& names_within(v->Table_0, config_names())
    &&& match field(v->Table_0, "mount"@) {
        None => true,
        Some(m) => mount_ok(m),
    }
    &&& match field(v->Table_0, "repository"@) {
        None => true,
        Some(m) => repository_ok(m),
    }
    &&& match field(v->Table_0, "sandbox"@) {
        None => true,
        Some(m) => sandbox_ok(m),
    }
    &&& match field(v->Table_0, "agent_files"@) {
        None => true,
        Some(m) => agent_files_ok(m),
    }
    &&& match field(v->Table_0, "plugin"@) {
        None => true,
        Some(m) => m is Table,
    }
}

/// The plugin table the configuration `v` declares.
pub open spec fn config_plugins(v: ValueView) -> Seq<(Seq<char>, ValueView)> {
    match field(v->Table_0, "plugin"@) {
        None => Seq::empty(),
        Some(p) => p->Table_0,
    }
}

/// `c` is what the configuration `v` decodes to; absent sections take
/// their defaults.
pub open spec fn config_decoded(c: NyneConfig, v: ValueView) -> bool {
    &&& match field(v->Table_0, "mount"@) {
        None => c.mount is None,
        Some(m) => c.mount matches Some(mc) && mount_decoded(mc, m),
    }
    &&& match field(v->Table_0, "repository"@) {
        None => c.repository.storage_strategy == StorageStrategy::Passthrough,
        Some(m) => c.repository.storage_strategy == repository_strategy(m),
    }
    &&& match field(v->Table_0, "sandbox"@) {
        None => sandbox_decoded(c.sandbox, ValueView::Table(Seq::empty())),
        Some(m) => sandbox_decoded(c.sandbox, m),
    }
    &&& match field(v->Table_0, "agent_files"@) {
        None => crate::path::views(c.agent_files.filenames@) == default_agent_names(),
        Some(m) => crate::path::views(c.agent_files.filenames@) == agent_filenames(m),
    }
    &&& c.plugin.wf()
    &&& c.plugin.view().dom() == table_map(config_plugins(v)).dom()
    &&& forall|k: Seq<char>| #[trigger] c.plugin.view().contains_key(k) ==> c.plugin.view()[k]@ == table_map(config_plugins(v))[k]
}

impl NyneConfig {
    /// Decode a whole configuration: a table whose sections are all
    /// optional (absent ones take their defaults) and which holds no other
    /// name.
    pub fn from_value(v: &ConfigValue) -> (r: Result<NyneConfig, ConfigError>)
        ensures
            r is Ok <==> config_ok(v@),
            r matches Ok(c) ==> config_decoded(c, v@),
    {
        let t = match v.as_table() {
            Some(t) => t,
            None => return Err(ConfigError::Invalid("config")),
        };
        let names: [&'static str; 5] = ["mount", "repository", "sandbox", "agent_files", "plugin"];
        assert(str_views(names@) =~= config_names());
        if !names_ok(t, &names) {
            return Err(ConfigError::Invalid("config"));
        }
        let mount = match v.get("mount") {
            None => None,
            Some(m) => match MountConfig::from_value(m) {
                Ok(mc) => Some(mc),
                Err(e) => return Err(e),
            },
        };
        let repository = match v.get("repository") {
            None => RepositoryConfig::default(),
            Some(m) => match RepositoryConfig::from_value(m) {
                Ok(rc) => rc,
                Err(e) => return Err(e),
            },
        };
        let sandbox = match v.get("sandbox") {
            None => {
                let empty = ConfigValue::Table(Vec::new());
                proof {
                    assert(empty@ == ValueView::Table(Seq::empty())) by {
                        assert(empty@->Table_0 =~= Seq::<(Seq<char>, ValueView)>::empty());
                    }
                    reveal_strlit("hostname");
                    reveal_strlit("bind_mounts");
                    reveal_strlit("env");
                    reveal_strlit("state_root");
                    reveal_strlit("mount_root");
                }
                match SandboxConfig::from_value(&empty) {
                    Ok(sc) => sc,
                    Err(e) => return Err(e),
                }
            },
            Some(m) => match SandboxConfig::from_value(m) {
                Ok(sc) => sc,
                Err(e) => return Err(e),
            },
        };
        let agent_files = match v.get("agent_files") {
            None => AgentFilesConfig::default(),
            Some(m) => match AgentFilesConfig::from_value(m) {
                Ok(ac) => ac,
                Err(e) => return Err(e),
            },
        };
        let plugin = match v.get("plugin") {
            None => {
                let p: Assoc<String, ConfigValue> = Assoc::new();
                assert(table_map(config_plugins(v@)) =~= Map::empty());
                p
            },
            Some(p) => match p.as_table() {
                Some(pt) => decode_sections(pt),
                None => return Err(ConfigError::Invalid("plugin")),
            },
        };
        Ok(NyneConfig { mount, repository, sandbox, agent_files, plugin })
    }
}

/// The default configuration is exactly what an empty configuration
/// decodes to: the empty table is a valid configuration, and a
/// configuration is the default one if and only if it is what the empty
/// table decodes to.
pub proof fn law_default_matches_empty_decoding(c: NyneConfig)
    ensures
        config_ok(ValueView::Table(Seq::empty())),
        default_config(c) <==> config_decoded(c, ValueView::Table(Seq::empty())),
{
    let e: Seq<(Seq<char>, ValueView)> = Seq::empty();
    assert forall|k: Seq<char>| #[trigger] field(e, k) is None by {
        assert(key_index(e, k) >= 0);
    }
    assert(table_map(e) =~= Map::empty());
    assert(config_plugins(ValueView::Table(e)) =~= e);
    assert(sandbox_env(ValueView::Table(e)) =~= e);
    assert(sandbox_binds(ValueView::Table(e)) =~= Seq::empty());
    if config_decoded(c, ValueView::Table(e)) {
        assert(c.plugin.view() =~= Map::<Seq<char>, ConfigValue>::empty());
        assert(c.sandbox.env.view() =~= Map::<Seq<char>, String>::empty());
    }
    if default_config(c) {
        assert forall|i: int| 0 <= i < c.sandbox.bind_mounts@.len() implies bind_decoded(#[trigger] c.sandbox.bind_mounts@[i],
            sandbox_binds(ValueView::Table(e))[i]) by {}
    }
}

} // verus!

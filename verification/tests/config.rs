use nyne::config::{
    default_agent_filenames, AgentFilesConfig, BindMount, BindMountFlag, ConfigError, NyneConfig, RepositoryConfig,
    SandboxConfig, StorageStrategy,
};
use nyne::deep_merge::{deep_merge, ConfigValue};

/// The library's value for a parsed TOML value.
fn from_toml(v: toml::Value) -> ConfigValue {
    match v {
        toml::Value::String(s) => ConfigValue::Text(s),
        toml::Value::Integer(n) => ConfigValue::Integer(n),
        toml::Value::Float(f) => ConfigValue::Float(f.to_string()),
        toml::Value::Boolean(b) => ConfigValue::Bool(b),
        toml::Value::Datetime(d) => ConfigValue::Datetime(d.to_string()),
        toml::Value::Array(items) => ConfigValue::Array(items.into_iter().map(from_toml).collect()),
        toml::Value::Table(t) => ConfigValue::Table(t.into_iter().map(|(k, v)| (k, from_toml(v))).collect()),
    }
}

fn toml_value(text: &str) -> ConfigValue {
    from_toml(toml::from_str::<toml::Value>(text).expect("valid TOML"))
}

fn load(text: &str) -> NyneConfig {
    NyneConfig::from_value(&toml_value(text)).unwrap_or_else(|e| panic!("failed to decode {text}: {e:?}"))
}

/// Two bind mounts: a read-only, no-exec one and one without flags.
const TWO_BIND_MOUNTS: &str = "[[sandbox.bind_mounts]]
source = \"/data/models\"
target = \"/models\"
flags = [\"read_only\", \"noexec\"]

[[sandbox.bind_mounts]]
source = \"/tmp/scratch\"
target = \"/scratch\"
";

fn at<'a>(v: &'a ConfigValue, key: &str) -> &'a ConfigValue {
    v.get(key).expect("key present")
}

#[test]
fn toml_scalar_overwrite() {
    let mut base = toml_value(r#"key = "base""#);
    let overlay = toml_value(r#"key = "overlay""#);
    deep_merge(&mut base, &overlay);
    assert_eq!(at(&base, "key").as_str(), Some("overlay"));
}

#[test]
fn toml_nested_table_merge() {
    let mut base = toml_value("[section]\na = 1\nb = 2\n");
    let overlay = toml_value("[section]\nb = 99\nc = 3\n");
    deep_merge(&mut base, &overlay);
    let section = at(&base, "section");
    assert!(section.as_table().is_some());
    assert_eq!(at(section, "a").as_integer(), Some(1));
    assert_eq!(at(section, "b").as_integer(), Some(99));
    assert_eq!(at(section, "c").as_integer(), Some(3));
}

#[test]
fn toml_array_extended() {
    let mut base = toml_value(r#"tags = ["a", "b"]"#);
    let overlay = toml_value(r#"tags = ["c"]"#);
    deep_merge(&mut base, &overlay);
    let tags: Vec<&str> = at(&base, "tags").as_array().unwrap().iter().map(|v| v.as_str().unwrap()).collect();
    assert_eq!(tags, vec!["a", "b", "c"]);
}

#[test]
fn toml_new_keys_added() {
    let mut base = toml_value("existing = true");
    let overlay = toml_value(r#"new_key = "hello""#);
    deep_merge(&mut base, &overlay);
    assert_eq!(at(&base, "existing").as_bool(), Some(true));
    assert_eq!(at(&base, "new_key").as_str(), Some("hello"));
}

#[test]
fn toml_deeply_nested_merge() {
    let mut base = toml_value("[a.b.c]\nvalue = 1\n");
    let overlay = toml_value("[a.b.c]\nvalue = 2\nextra = true\n");
    deep_merge(&mut base, &overlay);
    let c = at(at(at(&base, "a"), "b"), "c");
    assert_eq!(at(c, "value").as_integer(), Some(2));
    assert_eq!(at(c, "extra").as_bool(), Some(true));
}

#[test]
fn object_replaced_by_scalar() {
    let mut base = toml_value("[a]\nnested = true\n");
    let overlay = toml_value(r#"a = "flat""#);
    deep_merge(&mut base, &overlay);
    assert_eq!(at(&base, "a").as_str(), Some("flat"));
}

#[test]
fn empty_arrays_extend_either_way() {
    let mut base = toml_value("x = []");
    deep_merge(&mut base, &toml_value("x = [1, 2]"));
    let xs: Vec<i64> = at(&base, "x").as_array().unwrap().iter().map(|v| v.as_integer().unwrap()).collect();
    assert_eq!(xs, vec![1, 2]);
    let mut base = toml_value("x = [1, 2]");
    deep_merge(&mut base, &toml_value("x = []"));
    assert_eq!(at(&base, "x").as_array().unwrap().len(), 2);
}

#[test]
fn array_of_tables_appended() {
    let mut base = toml_value("[[servers]]\nname = \"a\"\nport = 80\n");
    let overlay = toml_value("[[servers]]\nname = \"b\"\nport = 443\n");
    deep_merge(&mut base, &overlay);
    let servers = at(&base, "servers").as_array().unwrap();
    assert_eq!(servers.len(), 2);
    assert_eq!(at(&servers[0], "port").as_integer(), Some(80));
    assert_eq!(at(&servers[1], "name").as_str(), Some("b"));
}

#[test]
fn deserialize_mount_config_with_exclusions() {
    let config = load(
        "[mount]\nsource_dir = \"/tmp/src\"\nmountpoint = \"/tmp/mnt\"\nexcluded_patterns = [\"target\", \"*.o\", \".git\"]\n",
    );
    let mount = config.mount.expect("mount should be present");
    assert_eq!(mount.excluded_patterns, vec!["target", "*.o", ".git"]);
    assert_eq!(mount.source_dir, "/tmp/src");
    assert_eq!(mount.mountpoint, "/tmp/mnt");
}

#[test]
fn agent_files_default_is_valid() {
    let config = AgentFilesConfig::default();
    assert_eq!(config.filenames, default_agent_filenames());
}

#[test]
fn sandbox_bind_mounts() {
    let config = load(TWO_BIND_MOUNTS);
    assert_eq!(config.sandbox.bind_mounts.len(), 2);

    let first = &config.sandbox.bind_mounts[0];
    assert_eq!(first.source, "/data/models");
    assert_eq!(first.target, "/models");
    assert_eq!(first.flags, vec![BindMountFlag::ReadOnly, BindMountFlag::Noexec]);

    let second = &config.sandbox.bind_mounts[1];
    assert_eq!(second.source, "/tmp/scratch");
    assert_eq!(second.target, "/scratch");
    assert!(second.flags.is_empty());
}

#[test]
fn sandbox_bind_mounts_all_flags() {
    let config = load(
        "[[sandbox.bind_mounts]]\nsource = \"/src\"\ntarget = \"/dst\"\nflags = [\"read_only\", \"noexec\", \"nosuid\", \"nodev\"]\n",
    );
    assert_eq!(config.sandbox.bind_mounts.len(), 1);
    let bm = &config.sandbox.bind_mounts[0];
    assert_eq!(bm.flags, vec![
        BindMountFlag::ReadOnly,
        BindMountFlag::Noexec,
        BindMountFlag::Nosuid,
        BindMountFlag::Nodev,
    ]);
}

#[test]
fn sandbox_bind_mounts_mount_flags() {
    let config = load(TWO_BIND_MOUNTS);
    let rdonly_noexec = rustix::mount::MountFlags::RDONLY | rustix::mount::MountFlags::NOEXEC;
    assert_eq!(config.sandbox.bind_mounts[0].mount_flags(), Some(rdonly_noexec.bits()));
    assert_eq!(config.sandbox.bind_mounts[1].mount_flags(), None);
}

#[test]
fn sandbox_env() {
    let config = load("[sandbox.env]\nMY_CUSTOM_VAR = \"hello\"\nANOTHER_VAR = \"world\"\n");
    assert_eq!(config.sandbox.env.len(), 2);
    assert_eq!(config.sandbox.env.get("MY_CUSTOM_VAR").map(String::as_str), Some("hello"));
    assert_eq!(config.sandbox.env.get("ANOTHER_VAR").map(String::as_str), Some("world"));
}

#[test]
fn sandbox_env_defaults_empty() {
    let config = load("");
    assert_eq!(config.sandbox.env.len(), 0);
}

#[test]
fn sandbox_hostname() {
    assert_eq!(load("").sandbox.hostname, "nyne-sandbox");
    assert_eq!(load("[sandbox]\nhostname = \"my-sandbox\"\n").sandbox.hostname, "my-sandbox");
}

#[test]
fn repository_storage_strategy() {
    for (input, expected) in [
        ("", StorageStrategy::Passthrough),
        ("[repository]\nstorage_strategy = \"passthrough\"", StorageStrategy::Passthrough),
        ("[repository]\nstorage_strategy = \"snapshot\"", StorageStrategy::Snapshot),
        ("[repository]\nstorage_strategy = \"hardlink\"", StorageStrategy::Hardlink),
    ] {
        assert_eq!(load(input).repository.storage_strategy, expected);
    }
}

#[test]
fn reject_invalid_config() {
    for input in [
        "unknown_key = \"value\"",
        "[mount]\nsource_dir = \"/tmp/src\"\nmountpoint = \"/tmp/mnt\"\nbogus = true",
        "[repository]\nbogus = true",
        "[sandbox]\nbogus = true",
        "[[sandbox.bind_mounts]]\nsource = \"/src\"\ntarget = \"/dst\"\nbogus = true",
        "[[sandbox.bind_mounts]]\nsource = \"/src\"\ntarget = \"/dst\"\nflags = [\"bogus\"]",
        "[agent_files]\nbogus = true",
    ] {
        assert!(NyneConfig::from_value(&toml_value(input)).is_err(), "invalid config should be rejected: {input}");
    }
}

#[test]
fn agent_files_deserialization() {
    assert_eq!(load("").agent_files.filenames, default_agent_filenames());
    assert_eq!(load("[agent_files]\n").agent_files.filenames, default_agent_filenames());
    assert_eq!(load("[agent_files]\nfilenames = [\"COPILOT.md\"]\n").agent_files.filenames, vec!["COPILOT.md"]);
    assert!(load("[agent_files]\nfilenames = []\n").agent_files.filenames.is_empty());
}

#[test]
fn default_matches_empty_document() {
    let decoded = load("");
    let default = NyneConfig::default();
    assert!(decoded.mount.is_none() && default.mount.is_none());
    assert_eq!(decoded.repository.storage_strategy, default.repository.storage_strategy);
    assert_eq!(decoded.sandbox.hostname, default.sandbox.hostname);
    assert_eq!(decoded.sandbox.state_root, default.sandbox.state_root);
    assert_eq!(decoded.sandbox.mount_root, default.sandbox.mount_root);
    assert_eq!(decoded.agent_files.filenames, default.agent_files.filenames);
    assert_eq!(decoded.plugin.len(), 0);
}

#[test]
fn section_decoders_and_names() {
    assert!(RepositoryConfig::from_value(&toml_value("storage_strategy = \"bogus\"")).is_err());
    assert_eq!(StorageStrategy::Snapshot.name(), "snapshot");
    assert_eq!(StorageStrategy::from_name("hardlink"), Some(StorageStrategy::Hardlink));
    assert_eq!(BindMountFlag::from_name("nodev"), Some(BindMountFlag::Nodev));
    assert_eq!(BindMountFlag::from_name("read-only"), None);
    assert_eq!(BindMountFlag::Nosuid.to_mount_flag(), rustix::mount::MountFlags::NOSUID.bits());
    let missing_target = toml_value("source = \"/src\"");
    assert_eq!(BindMount::from_value(&missing_target).err(), Some(ConfigError::Invalid("bind_mounts")));
    let sandbox = SandboxConfig::from_value(&toml_value("env = { A = 1 }"));
    assert!(sandbox.is_err());
    let plugins = load("[plugin.source]\nenabled = true\n").plugin;
    assert_eq!(at(plugins.get("source").unwrap(), "enabled").as_bool(), Some(true));
}

#[test]
fn default_matches_empty_toml_deserialization() {
    let from_toml = load("");
    let from_default = NyneConfig::default();
    assert!(from_toml.mount.is_none() && from_default.mount.is_none());
    assert_eq!(from_toml.repository.storage_strategy, from_default.repository.storage_strategy);
    assert_eq!(from_toml.sandbox.hostname, from_default.sandbox.hostname);
    assert_eq!(from_toml.sandbox.state_root, from_default.sandbox.state_root);
    assert_eq!(from_toml.sandbox.mount_root, from_default.sandbox.mount_root);
    assert_eq!(from_toml.sandbox.bind_mounts.len(), from_default.sandbox.bind_mounts.len());
    assert_eq!(from_toml.sandbox.env.len(), 0);
    assert_eq!(from_default.sandbox.env.len(), 0);
    assert_eq!(from_toml.agent_files.filenames, from_default.agent_files.filenames);
    assert_eq!(from_toml.plugin.len(), from_default.plugin.len());
}

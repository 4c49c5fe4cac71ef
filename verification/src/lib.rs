//! Verified core of the nyne virtual filesystem: route matching, directory
//! caches, conflict negotiation and configuration handling.

pub mod cache;
pub mod cli;
pub mod config;
pub mod content;
pub mod content_cache;
pub mod deep_merge;
pub mod edit;
pub mod err;
pub mod events;
pub mod format;
pub mod keyed;
pub mod lookup;
pub mod mutation;
pub mod node;
pub mod path;
pub mod path_filter;
pub mod pattern;
pub mod provider;
pub mod readdir;
pub mod real_fs;
pub mod registry;
pub mod text;
pub mod resolve;
pub mod router;
pub mod routes_dsl;
pub mod routing;
pub mod script;

//! URL-style route tree for dispatching virtual-filesystem path lookups.
//!
//! Providers declare route trees of segment matchers (exact, capture,
//! rest-capture, glob); the tree walk matches a path segment by segment,
//! accumulating captures, and hands the matched node to its handlers.

pub mod builder;
pub mod ctx;
pub mod params;
pub mod segment;
pub mod tree;

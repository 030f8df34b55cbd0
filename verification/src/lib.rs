//! Dependency-graph traversal for a build tool.
//!
//! Given a unit of source (a module) or a unit of build output (an asset),
//! this library discovers everything the unit depends on, directly and
//! transitively, and produces either a reachable set or a dependency-safe
//! linear order.
//!
//! Modules, references and assets are held arena-style as dense ids.
//! The resolution of a reference is an externally computed, deterministic
//! value, so a graph records one resolution outcome per reference; the
//! traversals walk those recorded outcomes.

pub mod closure;
pub mod module_graph;
pub mod output;
pub mod reference;
pub mod support;

//! A schema type registry for a GraphQL server runtime: a canonical,
//! queryable in-memory model of every type in a schema, with cycle-safe
//! incremental registration, conflict detection, reachability pruning,
//! viewer-scoped visibility, abstract-type overlap checks, union
//! composition, and federation entity synthesis.

pub mod type_ref;
pub mod iset;
pub mod meta;
pub mod errors;
pub mod registry;
pub mod reach;
pub mod prune;
pub mod federation;
pub mod union_composer;
pub mod names;

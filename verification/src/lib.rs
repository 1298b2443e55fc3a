//! Fetch-group construction for a federated GraphQL gateway.
//!
//! Given a composed schema whose ownership directives have been resolved into
//! lookup tables, and an incoming operation, this library partitions the
//! operation's selections into per-service fetch groups, introducing
//! dependent fetches and entity key round-trips where a field is owned by a
//! different service than its parent, and normalising each group's selection
//! set before emission.

pub mod ast;
pub mod groups;
pub mod helpers;
pub mod merge;
pub mod metadata;
pub mod schema;
pub mod splitter;

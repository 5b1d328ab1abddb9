//! Analysis core of a web-application bundler: module resolution, execution
//! environment classification, extraction of split points and server actions,
//! module graph construction, entrypoint synthesis and a versioned content map.

pub mod action_id;
pub mod actions;
pub mod bytes;
pub mod client_references;
pub mod diagnostics;
pub mod entrypoints;
pub mod environment;
pub mod extract;
pub mod graph;
pub mod incremental;
pub mod resolver;
pub mod route_order;
pub mod source;
pub mod split_points;
pub mod tables;
pub mod versioned_content_map;

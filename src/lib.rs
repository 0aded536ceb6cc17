//! Asset resolution: templates with `path:`, `include:` and `var:` fragments, a
//! dependency graph ordering the assets, content hashes in public paths, and the builder
//! that composes entries into a final set of assets.

pub mod assets;
pub mod catalog;
pub mod dep_graph;
pub mod embed;
pub mod glob;
pub mod graph;
pub mod hash;
pub mod resolve;
pub mod template;
pub mod util;

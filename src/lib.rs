//! Storage and comparison layer of a version-control tool: a streaming
//! reader that accumulates blob content, a policy-guarded content store,
//! a tree diff engine with copy detection, the renderers that turn a
//! change list into text, and a filter of repeated keys.
pub mod diff;
pub mod path;
pub mod reader;
pub mod render;
pub mod store;
pub mod text;
pub mod unique;

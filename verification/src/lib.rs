//! A verified substring-search library: name search over directory trees,
//! line search over file contents, request validation, and the planning
//! step that an I/O shell runs per directory.

pub mod content;
pub mod events;
pub mod laws;
pub mod plan;
pub mod request;
pub mod text;
pub mod tree;

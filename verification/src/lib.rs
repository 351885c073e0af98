//! Template materialization engine for a project scaffolder.
//!
//! The library takes a template source (a packed archive or a directory
//! entry listing), classifies each file as text or binary, rewrites paths
//! containing a package-style placeholder into nested directory segments,
//! substitutes placeholder tokens in textual content, and plans the
//! resulting destination tree as a sequence of write actions.

pub mod bytes;
pub mod classify;
pub mod materialize;
pub mod path_template;
pub mod substitute;
pub mod zip_source;

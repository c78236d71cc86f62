//! Lays a git commit history out as a column-aligned graph that follows a
//! configurable branching model.
//!
//! The crate owns the branch-inference and layout engine: it turns an ordered
//! commit list plus ref pointers into a per-commit lane assignment, a
//! collision-free column per lane, and a cell grid with routed connector
//! lines.  Reading the repository, configuration files and terminal output
//! stay outside; the engine works on plain values handed in by the caller.
#![verifier::loop_isolation(false)]

pub mod text;

pub mod colors;

pub mod settings;

pub mod matching;

pub mod graph;

pub mod catalog;

pub mod trace;

pub mod link;

pub mod columns;

pub mod format;

pub mod unicode;

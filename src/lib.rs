//! A test-case reducer: it shrinks a source file that fails to build while the
//! build keeps failing with the same error.
//!
//! - `digraph`: the graph of syntax vertices, kept in a petgraph graph, and the
//!   facts about reachability and deletion that the rest relies on.
//! - `parser`: source text to a syn tree and back; the tracked kinds of syntax.
//! - `graph`: the syntax tree and the builder that fills it during a walk.
//! - `remover`: deleting a vertex together with everything below it.
//! - `generator`: rebuilding source text from what is left of the tree.
//! - `builder`: reading the build driver's diagnostics into error records.
//! - `searcher`: the reduction loop's decisions, as a state machine.
pub mod digraph;
pub mod parser;
pub mod graph;
pub mod remover;
pub mod generator;
pub mod builder;
pub mod searcher;

//! Partial history export: select from a commit DAG the changesets that touch
//! a set of export paths, re-link their ancestry so the reduced history stays a
//! valid DAG, and rewrite each selected changeset so its file changes hold only
//! the exported paths.

pub mod builder;
pub mod changeset;
pub mod errors;
pub mod export;
pub mod filter;
pub mod graph;
pub mod laws;
pub mod paths;
pub mod rewriter;

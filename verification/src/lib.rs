//! Branch reconciliation for a distributed version-control view.
//!
//! A branch is a named, mutable pointer into a commit graph. Copies of a
//! branch exist locally and on remotes, and those copies drift apart as
//! history is mutated by different actors. This crate models that state
//! (including unresolved conflicts), decides when moving a branch is a
//! fast-forward, quantifies divergence between copies, resolves glob
//! patterns over branch names, and applies batches of branch mutations
//! all-or-nothing.

pub mod commands;
pub mod divergence;
pub mod errors;
pub mod globs;
pub mod ids;
pub mod listing;
pub mod oracle;
pub mod policy;
pub mod repo_view;
pub mod target;

//! Capture and restore the state of a repository's local branches.
//!
//! A snapshot records every local branch name together with the commit it
//! points at.  The graph builder arranges branch tips into a tree of stacks
//! so each stashed branch can be labelled with its nearest parent branch,
//! and the restore planner computes the minimal, deterministic set of ref
//! changes needed to bring a repository back to a snapshot.

pub mod config;
pub mod git;
pub mod graph;
pub mod snapshot;
pub mod text;

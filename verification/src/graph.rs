//! The branch graph: a rooted tree of stacks over the commits that branch
//! tips share.

pub mod node;

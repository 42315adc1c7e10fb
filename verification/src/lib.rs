//! A verified engine for rewriting stacks of commits in a content-addressed
//! object graph: removing changes from a commit's tree, rewriting the commit,
//! replaying the commits above it, and moving the stack's branch heads.

pub mod auto_commit;
pub mod bytes;
pub mod digest;
pub mod encode;
pub mod error;
pub mod mapping;
pub mod mcp;
pub mod merge;
pub mod object;
pub mod object_id;
pub mod patch;
pub mod poll;
pub mod rebase;
pub mod rewrite;
pub mod stack;
pub mod store;
pub mod subtract;
pub mod tree_path;
pub mod undo;
pub mod workspace;

pub mod error;
pub mod git_export;
pub mod op_heads;
pub mod op_store;
pub mod repo;
pub mod view;

pub use git_export::{cmd_git_export, GitExportArgs};

//! Scope suggestions for conventional commits.
//!
//! The library keeps, for every scope seen in a repository's history, the set
//! of files that commits with that scope have changed, and picks the scope
//! whose files overlap most with the files that are staged right now.

pub mod cache;
pub mod commit_scopes;
pub mod commit_types;
pub mod config;
pub mod test_utils;
pub mod text;
pub mod utils;

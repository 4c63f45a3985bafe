//! Per-worktree environment overrides: locate values in dotenv and JSON files,
//! compute a deterministic replacement for each worktree, and write it (or the
//! declared base value) back.

pub mod overrider;
pub mod sequence;
pub mod paths;
pub mod text;
pub mod workspace;
pub mod config;
pub mod env;
pub mod error;
pub mod json;
pub mod laws;
pub mod locator;
pub mod lua;

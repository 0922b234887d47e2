//! Verified core of `ctx`, a read-only context gatherer for codebases.
pub mod text;
pub mod filter;
pub mod output;
pub mod paths;
pub mod resolve;
pub mod tokens;
pub mod ts;
pub mod skeleton;
pub mod walker;
pub mod commands;

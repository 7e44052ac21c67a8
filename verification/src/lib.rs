//! Per-repository change tracking: which files differ from what a consumer has
//! already processed.

pub mod cmd;
pub mod content;
pub mod git;
pub mod hashes;
pub mod ink;
pub mod json;
pub mod laws;
pub mod layout;
pub mod order;
pub mod repo;
pub mod run;
pub mod text;

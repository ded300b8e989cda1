//! Package acquisition for a game-modification manager: a catalog of mod
//! packages, dependency resolution by name prefix, safe archive extraction
//! plans, and the decisions of an acquisition run.

pub mod acquire;
pub mod archive;
pub mod catalog;
pub mod closure;
pub mod launcher;
pub mod locks;
pub mod package;
pub mod resolve;
pub mod text;

//! uvr: the core of a uv/Cargo-style package manager for R, with proved
//! contracts. Versions and constraints, the DCF metadata of repositories,
//! dependency resolution, and the lockfile.

pub mod assoc;
pub mod cache;
pub mod commands;
pub mod fetch;
pub mod install;
pub mod lockfile;
pub mod metadata;
pub mod resolution;
pub mod resolver;
pub mod rversion;
pub mod text;
pub mod version;

//! Package manager core for Nodos workspaces: versions and version ranges,
//! the registry of installed modules, release selection from the cached
//! package index, and the plan and journal of an in-place update that can
//! be rolled back.

pub mod text;
pub mod semver;
pub mod path;
pub mod module;
pub mod index;
pub mod error;
pub mod workspace;
pub mod update;
pub mod path_set;
pub mod transaction;
pub mod platform;
pub mod command;

//! Dependency and feature resolution for a source-package build tool:
//! semantic-version predicates, a backtracking version resolver, a
//! platform filter, feature activation to a closed set, and a canonical
//! lockfile codec.

pub mod version;
pub mod resolver;
pub mod platform;
pub mod feature;
pub mod command;
pub mod lockfile;

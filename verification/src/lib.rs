//! Semver-aware maps of component import and export names.

pub mod error;
pub mod grammar;
pub mod index_map;
pub mod intern;
pub mod laws;
pub mod name_map;
pub mod naming;
pub mod order;
pub mod primitives;
pub mod state;
pub mod string_pool;
pub mod text;
pub mod version;

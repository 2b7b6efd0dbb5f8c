//! Semantic index of source code: scoped local definitions and references,
//! global definitions grouped by module, and the store that answers
//! "go to definition" queries.

pub mod point;
pub mod text;
pub mod properties;
pub mod store;
pub mod scope;
pub mod module;
pub mod crawler;
pub mod language_registry;
pub mod index;

//! Core logic of a small registry of philosophy books: slugs, package
//! identifiers and paths, the package index, local and provider search,
//! and the checks applied to files in quarantine.

pub mod text;
pub mod types;
pub mod naming;
pub mod paths;
pub mod index;
pub mod ranking;
pub mod search;
pub mod config;
pub mod security;
pub mod packages;

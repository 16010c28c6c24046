//! Versioned package catalog: constraint records, the document that the
//! index builder emits for each package, the constraint filter that search
//! applies to candidate documents, and the metadata cache.

pub mod cache;
pub mod codec;
pub mod filter;
pub mod index;
pub mod model;
pub mod repository;
pub mod version;
pub mod web;

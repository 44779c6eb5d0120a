//! Core of a medical-terminology ontology service.
//!
//! An ontology is a forest of *concepts* (diagnoses, lab tests, medication
//! classes, ...) grouped into *modules*.  Storage hands the service flat,
//! parent-referencing concept records; this crate turns them into nested
//! trees, validates search requests, and decides lookup outcomes.  All
//! input/output (HTTP, database) lives outside this crate and exchanges
//! plain values with it.

pub mod assemble;
pub mod concept;
pub mod config;
pub mod error;
pub mod forest;
pub mod laws;
pub mod module;
pub mod service;
pub mod tree;

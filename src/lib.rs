//! Dependency resolution and build orchestration for Idris2 packages.
//!
//! The library holds the decisions: which package is known under which
//! identity, what must be fetched or compiled next, and what becomes of each
//! result. Running the toolchain, touching the disk and reading the network is
//! left to the caller, which hands the outcomes back as events.
pub mod descriptor;
pub mod error;
pub mod manifest;
pub mod lazy;
pub mod paths;
pub mod tracing;
pub mod registry;

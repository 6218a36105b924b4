//! Core of a transactional snapshot manager: a persisted snapshot lineage
//! tree, a per-snapshot package manifest, the decision logic of the
//! transactional package engine, and the auto-upgrade status log.

pub mod codec;
pub mod commands;
pub mod engine;
pub mod errs;
pub mod manifest;
pub mod order;
pub mod status;
pub mod tree;

//! A verified repository core for a many-to-many todo/label domain.
//!
//! The crate provides the domain entities, the algorithm that folds flat
//! relational join rows into nested todo entities, a storage-agnostic
//! repository contract, an in-memory backend proved against that contract,
//! and the pure decision logic of a relational backend (error
//! classification, merge-patch updates, result extraction).

pub mod domain;
pub mod fold;
pub mod memory;
pub mod relational;
pub mod repository;
pub mod samples;

//! Enumeration, partitioning and batching engine for exhaustive melody
//! generation.
//!
//! The library enumerates the complete space of fixed-length note sequences
//! drawn (with repetition, order-sensitive) from a finite alphabet, plans a
//! directory geometry sized to the expected output volume, assigns each
//! content hash a deterministic path inside that geometry, and groups encoded
//! artifacts into size-bounded batches with an explicit open/closed writer
//! lifecycle.  Binary encoding of a sequence and the computation of its
//! content hash belong to an external encoder and are consumed as plain
//! values (bytes plus a hash string).

pub mod archive;
pub mod driver;
pub mod errors;
pub mod generator;
pub mod path;
pub mod planner;

//! An append-only, layered triple store held in memory.
//!
//! A graph is a chain of immutable layers, each recording the triples it adds
//! to and removes from its parent. Named graphs are labels that point at the
//! head layer of a chain and are advanced by a versioned compare-and-set.

pub mod error;
pub mod triple;
pub mod tripleset;
pub mod dictionary;
pub mod chain;
pub mod layer;
pub mod lookup;
pub mod builder;
pub mod label;
pub mod validate;
pub mod pack;
pub mod layer_store;
pub mod store;
pub mod parallel;
pub mod ops;
pub mod laws;

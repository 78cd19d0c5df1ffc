//! An in-memory relational model for transit data: typed collections of
//! entities that refer to each other by identifier, the relations derived
//! from those references, and a validated model that can be filtered.

pub mod collection;
pub mod error;
pub mod filter;
pub mod idx_set;
pub mod model;
pub mod objects;
pub mod relations;
pub mod sequences;

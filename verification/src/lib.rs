//! Conflict-free replicated data types (CRDTs) with machine-checked
//! contracts: replicas and tombstones, sequence identifiers, and the
//! set, map, list and atom CRDTs built on them.

pub mod atom;
pub mod attribute_string;
pub mod attributed_string;
pub mod counter;
pub mod crdt_trait;
pub mod dot;
pub mod error;
pub mod json;
pub mod list;
pub mod map;
pub mod object;
pub mod op;
pub mod replica;
pub mod sequence;
pub mod set;
pub mod vlq;

pub use error::Error;
pub use replica::{Replica, Tombstones};

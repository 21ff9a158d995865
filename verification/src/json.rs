//! Addressing inside a JSON document.

use vstd::prelude::*;

verus! {

/// One step of a path into a JSON value, as a user writes it: an
/// object's key or an array's index.
#[derive(Debug, Clone, PartialEq)]
pub enum LocalUid {
    Object(String),
    Array(usize),
}

} // verus!

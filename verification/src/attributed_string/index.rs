//! An index that tracks the element, character offset, byte offset and
//! overall character location of a place in an attributed string.

use vstd::prelude::*;

verus! {

/// A place in an attributed string: the element, the character offset
/// in it, the byte offset in it, and the character location overall.
#[derive(Debug, PartialEq, Eq, Structural)]
pub struct Index {
    pub eidx: usize,
    pub cidx: usize,
    pub bidx: usize,
    pub location: usize,
}

} // verus!

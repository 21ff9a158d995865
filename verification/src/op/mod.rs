//! Operations that a user makes on a document, and those sent between
//! sites, each addressed to a nested value by a pointer.

pub mod local;
pub mod remote;

pub use self::local::LocalOp;
pub use self::remote::RemoteOp;
use crate::op::remote::{inserts_made_at, same_elements};
use vstd::prelude::*;

verus! {

/// A local operation on the value that `pointer` names.
pub struct NestedLocalOp {
    pub pointer: String,
    pub op: LocalOp,
}

/// A remote operation on the value that `pointer` names.
#[derive(Debug, PartialEq)]
pub struct NestedRemoteOp {
    pub pointer: String,
    pub op: RemoteOp,
}

impl NestedRemoteOp {
    /// Returns true iff everything the operation adds was made at `site`.
    pub fn validate(&self, site: u32) -> (b: bool)
        ensures
            b == (match self.op {
                RemoteOp::UpdateAttributedString(op) => inserts_made_at(&op, site),
            }),
    {
        self.op.validate(site)
    }

    /// The operation that undoes this one, on the same value.
    pub fn reverse(&self) -> (r: Self)
        ensures
            r.pointer@ == self.pointer@,
            match (self.op, r.op) {
                (RemoteOp::UpdateAttributedString(op), RemoteOp::UpdateAttributedString(rev)) => {
                    &&& same_elements(op.deletes@, rev.inserts@)
                    &&& same_elements(op.inserts@, rev.deletes@)
                },
            },
    {
        NestedRemoteOp { pointer: self.pointer.clone(), op: self.op.reverse() }
    }
}

} // verus!

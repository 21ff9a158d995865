use vstd::prelude::*;

verus! {

/// Every way in which an operation of this library can be refused.
#[derive(Clone, Copy, Debug, PartialEq, Eq, Structural)]
pub enum Error {
    AlreadyExists,
    AlreadyHasSite,
    AwaitingSite,
    DecodeCompact,
    DeserializeObjectUID,
    DeserializeSequenceUID,
    DoesNotExist,
    DuplicateUID,
    InvalidIndex,
    InvalidJson,
    InvalidLocalOp,
    InvalidPath,
    InvalidPointer,
    InvalidRemoteOp,
    KeyDoesNotExist,
    Noop,
    OutOfBounds,
    UIDDoesNotExist,
    VLQNoTerminatingByte,
    WrongJsonType,
}

} // verus!

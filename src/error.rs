use vstd::prelude::*;

verus! {

/// Every way an operation on a layer can fail.
#[derive(Debug, Clone, Copy, PartialEq, Eq, Structural)]
pub enum Error {
    OutOfBound,
    SizeMismatch,
    MagicMismatch,
    SignatureMismatch,
    HashMismatch,
    NoSpace,
    AlreadyExist,
    NotFound,
    IoError,
    BrokenLayout,
    MissingKey,
}

} // verus!

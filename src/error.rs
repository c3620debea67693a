use vstd::prelude::*;

verus! {

/// The failures that the store reports instead of aborting.
#[derive(Debug, Clone, Copy, PartialEq, Eq)]
pub enum EcsError {
    /// The entity id has no entry in the entity index.
    UnknownEntity,
    /// A byte payload does not have the size registered for its component kind.
    SizeMismatch,
    /// A row index is not below the length of the storage it addresses.
    IndexOutOfRange,
    /// A column could not grow: its byte size would exceed `isize::MAX`.
    AllocationFailure,
}

} // verus!

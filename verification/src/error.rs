use vstd::prelude::*;

verus! {

/// Why a set of declarations was refused. A refused load commits nothing.
#[derive(Clone, Copy, Debug, PartialEq, Eq, Structural)]
pub enum MetaError {
    /// A key permission names an operation other than `set`, `get` or `delete`.
    InvalidOperation,
    /// A trigger event or an argument refers to a key permission that the
    /// function does not declare.
    SlotOutOfRange,
    /// One application declares two functions under the same name.
    DuplicateFunction,
    /// Two applications share a name, or an application of that name is
    /// already registered.
    DuplicateApplication,
}

} // verus!

use vstd::prelude::*;

verus! {

/// The closed taxonomy of failures a caller can observe. Every fallible
/// operation of this crate returns one of these kinds, so callers can branch
/// without inspecting message text.
#[derive(Clone, Copy, PartialEq, Eq, Structural, Debug)]
pub enum IsarError {
    /// The schema is invalid, or incompatible with the collections it refers to.
    SchemaError,
    /// A bad index, an accessor that does not match the declared field kind,
    /// an out-of-order write, or a filter referring outside its collection.
    InvalidArgument,
    /// An instance or collection index that names nothing.
    NotFound,
    /// A second write transaction while one is active.
    TransactionConflict,
    /// A buffer too small for the layout it claims, or a descriptor out of range.
    EncodingError,
    /// The underlying storage failed.
    IoError,
}

} // verus!

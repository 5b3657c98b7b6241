use vstd::prelude::*;

verus! {

/// The account field that an encoding failure names.
#[derive(Clone, Copy, PartialEq, Eq, Structural, Debug)]
pub enum LeafField {
    Balance,
    Nonce,
    PubKeyX,
    PubKeyY,
}

/// A recoverable failure of a tree or codec operation.
#[derive(Clone, Copy, PartialEq, Eq, Structural, Debug)]
pub enum SmtError {
    /// An index at or beyond `2^depth` was passed to a tree operation.
    IndexOutOfRange,
    /// A leaf field needs more bits than its declared width.
    EncodingOverflow { field: LeafField },
    /// A tree was requested whose depth the index type cannot carry.
    DepthOutOfRange,
}

} // verus!

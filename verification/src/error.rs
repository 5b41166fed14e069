//! Error types for graph mutations and for the document codec.

use vstd::prelude::*;

verus! {

/// An error raised by a mutating operation on the versioned graph store.
///
/// Every failing operation leaves the store untouched: no node, no edge and
/// neither history stack changes when one of these is returned.
#[derive(Debug, Clone, Copy, PartialEq, Eq, Structural)]
pub enum GraphError {
    /// The entity with the carried id does not exist.
    EntityNotFound(u64),
    /// The edge with the carried `(from, to)` key does not exist.
    EdgeNotFound(u64, u64),
    /// The undo stack is empty.
    NothingToUndo,
    /// The redo stack is empty.
    NothingToRedo,
}

/// An error raised while decoding a document.
#[derive(Debug)]
pub enum SerdeError {
    /// The document text does not have the expected shape: a tag, an escape
    /// or a number is malformed or missing.
    Deserialize,
    /// A field held a string that no enum label matches; carries the field's
    /// name and the offending string.
    Unexpected(&'static str, String),
}

impl SerdeError {
    /// A short English description of the error.
    pub fn message(&self) -> (r: &'static str)
        ensures
            r@ == self.spec_message(),
    {
        match *self {
            SerdeError::Deserialize => "failed to deserialize the document",
            SerdeError::Unexpected(_, _) => "unexpected value",
        }
    }

    /// What [`SerdeError::message`] returns for each variant.
    pub open spec fn spec_message(self) -> Seq<char> {
        match self {
            SerdeError::Deserialize => "failed to deserialize the document"@,
            SerdeError::Unexpected(_, _) => "unexpected value"@,
        }
    }
}

impl GraphError {
    /// A short English description of the error.
    pub fn message(&self) -> (r: &'static str)
        ensures
            r@ == self.spec_message(),
    {
        match *self {
            GraphError::EntityNotFound(_) => "entity not found",
            GraphError::EdgeNotFound(_, _) => "edge not found",
            GraphError::NothingToUndo => "nothing to undo",
            GraphError::NothingToRedo => "nothing to redo",
        }
    }

    /// What [`GraphError::message`] returns for each variant.
    pub open spec fn spec_message(self) -> Seq<char> {
        match self {
            GraphError::EntityNotFound(_) => "entity not found"@,
            GraphError::EdgeNotFound(_, _) => "edge not found"@,
            GraphError::NothingToUndo => "nothing to undo"@,
            GraphError::NothingToRedo => "nothing to redo"@,
        }
    }
}

} // verus!

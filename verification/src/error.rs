//! The ways in which an operation of the store can fail.

use vstd::prelude::*;

verus! {

/// Why an operation on the object store failed.
#[derive(Clone, Copy, Debug, PartialEq, Eq, Structural)]
pub enum StoreError {
    /// No object file exists for the requested id.
    ObjectNotFound,
    /// The stored bytes do not inflate, or what they inflate to is not a
    /// well-formed object.
    CorruptObject,
    /// An id was not written as exactly forty hexadecimal characters.
    InvalidIdFormat,
    /// The file system failed for a reason other than absence.
    IoFailure,
}

impl StoreError {
    /// A short description, for messages shown to a user.
    pub fn message(&self) -> (text: &'static str)
        ensures
            text@ == Self::message_text(*self),
    {
        match self {
            StoreError::ObjectNotFound => "object not found",
            StoreError::CorruptObject => "corrupt object",
            StoreError::InvalidIdFormat => "invalid object id",
            StoreError::IoFailure => "i/o failure",
        }
    }

    /// The text that [`StoreError::message`] returns.
    pub open spec fn message_text(e: StoreError) -> Seq<char> {
        match e {
            StoreError::ObjectNotFound => "object not found"@,
            StoreError::CorruptObject => "corrupt object"@,
            StoreError::InvalidIdFormat => "invalid object id"@,
            StoreError::IoFailure => "i/o failure"@,
        }
    }
}

} // verus!

//! The errors of archiving, of checked access and of deserializing.

use vstd::prelude::*;

verus! {

/// Why a serialize call was abandoned.
#[derive(Clone, Copy, Debug, PartialEq, Eq, Structural)]
pub enum SerializeError {
    /// The memory layout of a value could not be computed.
    Layout,
    /// The writer rejected a write because its storage is exhausted.
    Writer,
}

/// What checked access found wrong with a buffer.
#[derive(Clone, Copy, Debug, PartialEq, Eq, Structural)]
pub enum AccessError {
    /// An archived value does not lie within the buffer.
    OutOfBounds,
    /// An archived value lies at a position that its alignment forbids.
    Misaligned,
    /// A relative pointer leads outside the bytes written before it.
    InvalidPointer,
    /// A tag byte holds no variant of its type.
    InvalidTag,
    /// Archived text is not UTF-8.
    InvalidUtf8,
    /// A container's search structure is malformed.
    InvalidStructure,
}

/// Why a deserialize call was abandoned.
#[derive(Clone, Copy, Debug, PartialEq, Eq, Structural)]
pub enum DeserializeError {
    /// The memory layout of the value could not be computed, so that it
    /// cannot be allocated.
    Layout,
}

impl SerializeError {
    /// The error in words.
    pub fn message(&self) -> (s: String)
        ensures
            s@ == (match *self {
                SerializeError::Layout => "the memory layout of a value could not be computed"@,
                SerializeError::Writer => "the writer has no room for a write"@,
            }),
    {
        match self {
            SerializeError::Layout => "the memory layout of a value could not be computed"
                .to_owned(),
            SerializeError::Writer => "the writer has no room for a write".to_owned(),
        }
    }
}

impl AccessError {
    /// The error in words.
    pub fn message(&self) -> (s: String)
        ensures
            s@ == (match *self {
                AccessError::OutOfBounds => "an archived value does not lie within the buffer"@,
                AccessError::Misaligned => "an archived value is misaligned"@,
                AccessError::InvalidPointer => "a relative pointer leads outside the buffer"@,
                AccessError::InvalidTag => "a tag holds no variant of its type"@,
                AccessError::InvalidUtf8 => "invalid UTF-8"@,
                AccessError::InvalidStructure => "a container is malformed"@,
            }),
    {
        match self {
            AccessError::OutOfBounds => "an archived value does not lie within the buffer"
                .to_owned(),
            AccessError::Misaligned => "an archived value is misaligned".to_owned(),
            AccessError::InvalidPointer => "a relative pointer leads outside the buffer"
                .to_owned(),
            AccessError::InvalidTag => "a tag holds no variant of its type".to_owned(),
            AccessError::InvalidUtf8 => "invalid UTF-8".to_owned(),
            AccessError::InvalidStructure => "a container is malformed".to_owned(),
        }
    }
}

impl DeserializeError {
    /// The error in words.
    pub fn message(&self) -> (s: String)
        ensures
            s@ == "the memory layout of a value could not be computed"@,
    {
        "the memory layout of a value could not be computed".to_owned()
    }
}

} // verus!

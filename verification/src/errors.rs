//! Failure taxonomy of the snapshot and persistence subsystem.
//!
//! Every failure is recoverable at the snapshot-engine boundary: the level
//! lifecycle treats any of these as "the operation did not happen" and keeps
//! its current state.

use vstd::prelude::*;

verus! {

#[derive(Clone, Copy, PartialEq, Eq, Structural, Debug)]
pub enum SceneError {
    /// The registry was asked to handle a type it never registered.
    UnregisteredType,
    /// A serialized payload does not match the shape registered for its type.
    MalformedPayload,
    /// The persisted bytes are structurally invalid.
    CorruptFormat,
    /// A type name in the persisted form is absent from the registry in use.
    UnknownTypeReference,
    /// A reader failed while reconstructing a live component.
    InstantiationError,
    /// A writer failed while serializing a component payload.
    SerializationError,
}

impl SceneError {
    /// A short stable label for logs and messages.
    pub fn label(&self) -> (r: &'static str)
    {
        match self {
            SceneError::UnregisteredType => "unregistered type",
            SceneError::MalformedPayload => "malformed payload",
            SceneError::CorruptFormat => "corrupt format",
            SceneError::UnknownTypeReference => "unknown type reference",
            SceneError::InstantiationError => "instantiation error",
            SceneError::SerializationError => "serialization error",
        }
    }
}

} // verus!

//! The ways a conversion can fail.
use vstd::prelude::*;

verus! {

/// Why an encode or a decode failed.
#[derive(Debug, PartialEq)]
pub enum ProtoError {
    /// The bytes do not have the structure of the expected wire form:
    /// truncated, an unknown tag, a bad count, or nested too deep to read.
    MalformedWireData,
    /// An expression calls a function that the registry does not know.
    UnresolvedFunction(String),
    /// A plan holds an extension node or a table source that the extension
    /// codec in use cannot handle.
    UnsupportedExtension,
    /// The bytes just written could not be read back.
    EncodeSelfCheckFailed,
    /// A failure reported by an extension codec, passed on unchanged.
    Collaborator(String),
}

} // verus!

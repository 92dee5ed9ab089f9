//! The failures of decoding and storing objects.
use vstd::prelude::*;

verus! {

/// Why an object, a delta or a pack could not be decoded.
#[derive(Debug, Clone, Copy, PartialEq, Eq, Structural)]
pub enum Error {
    /// No `PACK` marker anywhere in the stream.
    MissingSignature,
    /// The pack header names a version other than 2.
    UnsupportedVersion,
    /// A pack entry carries a type tag that names no object or delta.
    UnknownObjectType,
    /// A delta's base is neither an earlier object of the pack nor a valid entry offset.
    BaseNotFound,
    /// A copy instruction reaches past the end of the base.
    DeltaOutOfBounds,
    /// A delta instruction byte of zero.
    InvalidDeltaOpcode,
    /// The base size a delta declares differs from the base's length.
    BaseSizeMismatch,
    /// The bytes a delta produced differ in number from the size it declares.
    ResultSizeMismatch,
    /// A loose object header that is not `<kind> <decimal size>\0`.
    CorruptHeader,
    /// A loose object header whose kind is not one of the four object kinds.
    UnknownKind,
    /// The data ended in the middle of a field.
    UnexpectedEof,
    /// Offset deltas nest deeper than the decoder allows.
    DeltaChainTooDeep,
    /// A compressed stream that does not inflate.
    CorruptData,
    /// A tree payload that is not a list of `<mode> <name>\0<20-byte id>` entries.
    CorruptTree,
    /// A commit payload without a `tree <40 hexadecimal digits>` line.
    CorruptCommit,
}

} // verus!

use vstd::prelude::*;

verus! {

/// The kinds of failure that decoding and encoding can report.
#[derive(Debug, Clone, Copy, PartialEq, Eq, Structural)]
pub enum ErrorKind {
    /// Truncated input or a malformed item header.
    InvalidCbor,
    /// A CBOR feature outside the DAG-CBOR profile.
    UnsupportedFeature,
    /// Map keys out of order or repeated.
    NonCanonical,
    /// A non-finite float, or an integer outside the wire range.
    NumberOutOfRange,
    /// The nesting limit was exceeded.
    RecursionLimit,
    /// A link payload that is not a CID.
    InvalidCid,
    /// A malformed CAR envelope.
    CarFramingError,
    /// Bytes left over after a single top-level item.
    TrailingData,
    /// A value kind that cannot be written.
    EncodeUnsupportedType,
}

/// An error kind together with a human-readable message.
#[derive(Debug, Clone, Copy, PartialEq, Eq)]
pub struct Error {
    pub kind: ErrorKind,
    pub message: &'static str,
}

impl Error {
    pub fn new(kind: ErrorKind, message: &'static str) -> (r: Error)
        ensures
            r.kind == kind,
    {
        Error { kind, message }
    }

    pub fn kind(&self) -> (r: ErrorKind)
        ensures
            r == self.kind,
    {
        self.kind
    }
}

} // verus!

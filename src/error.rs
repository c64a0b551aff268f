use vstd::prelude::*;

verus! {

/// Why an encode, a decode or a walk over encoded bytes did not succeed.
#[derive(Clone, Copy, Debug, PartialEq, Eq, Structural)]
pub enum Error {
    /// The buffer ends before a span that a header declares or implies.
    Truncated,
    /// A declared length disagrees with what its kind requires, or with what the
    /// values inside it take up.
    MalformedLength,
    /// The payload of a string is not UTF-8.
    InvalidEncoding,
    /// An object key is not a string, or a walk was asked of the wrong kind.
    TypeMismatch,
    /// A payload is too long for its length to be packed into a header.
    LengthOverflow,
    /// A varint holds a value above `u64::MAX`.
    Overflow,
}

} // verus!

use vstd::prelude::*;

verus! {

/// Why a decoder rejected a byte buffer.
///
/// Every decoder in this crate distinguishes a buffer that is merely
/// truncated (`TooShort`) from one whose structure is wrong.
#[derive(Clone, Copy, Debug, PartialEq, Eq, Structural)]
pub enum DecodeError {
    /// Fewer bytes remain than the declared fields require.
    TooShort,
    /// A field carries a tag other than the expected one.
    BadTag,
    /// An offset points outside the region it is allowed to address.
    BadOffset,
    /// A length prefix does not match what the field requires.
    BadLength,
    /// A required field reference is absent.
    MissingField,
}

} // verus!

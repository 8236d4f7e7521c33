use vstd::prelude::*;

verus! {

/// Why decoding or encoding a message failed.
///
/// Every failure is surfaced as a typed result to the caller; no partial
/// message is ever returned and no input makes the codec panic.
#[derive(Debug, Clone, Copy, PartialEq, Eq, Structural)]
pub enum DecodeError {
    /// A read would have run past the end of the buffer.
    OutOfData,
    /// A compression pointer referenced an offset at or past the place it
    /// is resolved from, or past the end of the buffer.
    InvalidPointer,
    /// A record type code outside the recognized set was read.
    UnknownRecordType,
    /// The bytes of a literal label are not valid UTF-8 text.
    InvalidUtf8Label,
    /// A value does not fit the bit width of the field it is encoded into.
    OversizedField,
}

} // verus!

use vstd::prelude::*;

verus! {

/// Why a byte buffer could not be read as a DNS message.
#[derive(Debug, Clone, Copy, PartialEq, Eq, Structural)]
pub enum DnsError {
    /// Fewer than the twelve header bytes are present.
    MalformedHeader,
    /// A length byte or pointer of a name is invalid or out of range.
    MalformedName,
    /// Fewer than four bytes follow a question's name.
    MalformedQuestion,
    /// A record's fixed fields or its data run past the buffer end.
    MalformedRecord,
}

/// Why a value could not be written in wire format.
#[derive(Debug, Clone, Copy, PartialEq, Eq, Structural)]
pub enum EncodingError {
    /// A label is longer than 63 bytes.
    LabelTooLong,
}

} // verus!

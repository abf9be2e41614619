use vstd::prelude::*;

verus! {

/// Why encoding, decoding or validation failed.
#[derive(Clone, Copy, Debug, PartialEq, Eq, Structural)]
pub enum DnsError {
    /// The hostname text does not have the RFC 1123 shape.
    InvalidHostname,
    /// More hostnames than a 16-bit question count can describe.
    TooManyHostnames,
    /// The buffer ended before the field being decoded did.
    BufferTooShort,
    /// A label length byte uses the reserved upper-bit patterns 01 or 10.
    ReservedLabelBits,
    /// A label byte is not an ASCII octet.
    NonAsciiLabel,
    /// The decoder consumed more bytes than its 8-bit count can report.
    ParsedBytesOverflow,
    /// The header's opcode field holds an unknown value.
    UnsupportedOpcode,
    /// A type field holds a value outside the supported set.
    UnsupportedType,
    /// A class field holds a value outside the supported set.
    UnsupportedClass,
}

} // verus!

//! A small DNS message codec with a forwarding stub: bit-packed headers,
//! length-prefixed domain names with compression pointers, questions and
//! resource records, whole messages under the 512-byte UDP ceiling, and the
//! fan-out / aggregation step of a forwarder.
use vstd::prelude::*;

pub mod bits;
pub mod header;
pub mod name;
pub mod record;
pub mod message;
pub mod forward;

verus! {

/// The failures that the codec reports.
#[derive(Debug, Clone, Copy, PartialEq, Eq, Structural)]
pub enum DnsError {
    /// The buffer is shorter than a field or record requires.
    TruncatedInput,
    /// A compression pointer does not point strictly backwards.
    MalformedPointer,
    /// A label length byte starts with the reserved bit patterns `01` or `10`.
    UnsupportedLabelFormat,
    /// A label's bytes are not UTF-8 text.
    InvalidUtf8Label,
    /// A label is longer than 63 bytes.
    LabelTooLong,
    /// The encoded message would exceed 512 bytes.
    MessageTooLarge,
    /// The transport failed to send or receive.
    IoError,
}

} // verus!

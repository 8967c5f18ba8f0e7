//! The ways in which encoding or decoding a DNS message can fail.

use vstd::prelude::*;

verus! {

/// Decode fails with one of the first three; encode fails only with
/// `LabelTooLong`. Any failure aborts the whole operation: no partial
/// message is ever returned.
#[derive(Clone, Copy, Debug, PartialEq, Eq, Structural)]
pub enum DnsError {
    /// Fewer bytes remain than the current field or section requires.
    TruncatedInput,
    /// Label bytes are not valid text.
    InvalidEncoding,
    /// A compression pointer references an offset not yet decoded in this
    /// message.
    DanglingPointer,
    /// An encoder input label exceeds 63 bytes.
    LabelTooLong,
}

} // verus!

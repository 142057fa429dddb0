//! The ways in which an operation of this library fails.

use vstd::prelude::*;

verus! {

/// Why an encryption or a decryption was refused. Every error is final:
/// nothing is retried, and a failed decryption releases no plaintext.
#[derive(Clone, Copy, Debug, PartialEq, Eq, Structural)]
pub enum Error {
    /// Encryption was asked for without any recipient.
    NoRecipients,
    /// The input does not start with a canonically encoded header.
    HeaderParseError,
    /// The header's authentication code does not belong to the header and
    /// the file key.
    HeaderMacMismatch,
    /// A stanza with a known tag has arguments or a body of the wrong shape.
    MalformedStanza,
    /// No identity opened any stanza.
    NoMatchingIdentity,
    /// The payload ended before its final chunk.
    StreamTruncated,
    /// A payload chunk did not authenticate, or data follows the final chunk.
    DecryptionFailed,
    /// The source of randomness gave fewer bytes than were needed.
    RandomSource,
}

} // verus!

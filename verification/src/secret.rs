//! Key material that is overwritten with zeros when it is dropped.

use vstd::prelude::*;
use zeroize::Zeroize;

verus! {

/// Bytes that are secret: a key or a passphrase. They are overwritten with
/// zeros when the value is dropped, on every path out of its scope.
pub struct SecretBytes {
    bytes: Vec<u8>,
}

impl View for SecretBytes {
    type V = Seq<u8>;

    closed spec fn view(&self) -> Seq<u8> {
        self.bytes@
    }
}

/// Calls `zeroize` of the crate `zeroize` on the bytes of `bytes`.
///
/// Believed: the call keeps the length and leaves zeros, and does not
/// unwind.
#[verifier::external_body]
fn wipe(bytes: &mut Vec<u8>)
    ensures
        final(bytes)@ == Seq::new(old(bytes)@.len(), |i: int| 0u8),
    opens_invariants none
    no_unwind
{
    bytes.as_mut_slice().zeroize()
}

impl SecretBytes {
    /// The secret that holds `bytes`.
    pub fn new(bytes: Vec<u8>) -> (s: SecretBytes)
        ensures
            s@ == bytes@,
    {
        SecretBytes { bytes }
    }

    /// Overwrites the bytes of the secret with zeros.
    pub fn erase(&mut self)
        ensures
            final(self)@ == Seq::new(old(self)@.len(), |i: int| 0u8),
    {
        wipe(&mut self.bytes);
    }

    /// The bytes of the secret.
    pub fn as_bytes(&self) -> (bytes: &[u8])
        ensures
            bytes@ == self@,
    {
        self.bytes.as_slice()
    }
}

impl Drop for SecretBytes {
    fn drop(&mut self)
        ensures
            final(self)@ == Seq::new(old(self)@.len(), |i: int| 0u8),
        opens_invariants none
        no_unwind
    {
        wipe(&mut self.bytes);
    }
}

} // verus!

//! Encrypting a message for recipients and decrypting it with identities.
//!
//! An encrypted message is a header and a payload. The header holds one
//! stanza for each recipient, each wrapping the message's file key, and a
//! code that authenticates the stanzas under the file key. The payload is
//! the plaintext in sealed chunks.
//!
//! Decryption reads the header, refuses a stanza that it knows by its tag
//! but that is out of shape, tries each identity on each stanza in turn,
//! takes the file key from the first stanza that opens, checks the header's
//! code with it and then decrypts the payload.

use crate::armor::{
    armor, armor_spec, dearmor, dearmor_spec, is_armored, is_armored_spec, lemma_dearmor_armor,
    ARMOR_BEGIN,
};
use crate::base64::{
    decode, decode_spec, encode_spec, lemma_decode_encode, lemma_encode_alphabet, lemma_encode_len,
};
use crate::error::Error;
use crate::format::grammar::{lemma_parse_header_complete, parse_header_spec};
use crate::format::scrypt::{
    decimal_spec, is_work_factor_allowed, lemma_parse_decimal, parse_decimal, parse_decimal_spec,
    work_factor_allowed, DEFAULT_WORK_FACTOR, SALT_LEN, SCRYPT_TAG,
};
use crate::format::x25519::X25519_TAG;
use crate::format::{
    header_mac_spec, header_spec, is_word, stanzas_view, Header, HeaderView, Stanza, StanzaView,
    MAC_LEN,
};
use crate::keys::{public_of, FileKey, PublicKey, SecretKey, FILE_KEY_LEN};
use crate::primitives::stream::{
    chunks_open, decrypt_payload, encrypt_payload, lemma_stream_round_trip,
    lemma_truncation_rejected, payload_key_spec, result_view, stream_decrypt_spec,
    stream_encrypt_spec, truncated_spec, StreamWriter, CHUNK_SIZE,
};
use crate::primitives::{random_bytes, KEY_LEN};
use crate::secret::SecretBytes;
use crate::util::{append, copy_range, same_bytes};
use crate::Format;
use vstd::pervasive::unreached;
use vstd::prelude::*;
use vstd::slice::slice_subrange;

verus! {

/// The number of bytes in the body of a stanza that wraps a file key: the
/// file key and the cipher's tag.
pub const WRAPPED_LEN: usize = 32;

/// For whom a message is encrypted.
pub enum Recipient {
    /// The holder of the secret key that belongs to this public key.
    PublicKey(PublicKey),
    /// Whoever knows this passphrase.
    Passphrase(SecretBytes),
}

/// The mathematical value of a `Recipient`.
pub enum RecipientView {
    PublicKey(Seq<u8>),
    Passphrase(Seq<u8>),
}

impl View for Recipient {
    type V = RecipientView;

    open spec fn view(&self) -> RecipientView {
        match self {
            Recipient::PublicKey(k) => RecipientView::PublicKey(k@),
            Recipient::Passphrase(p) => RecipientView::Passphrase(p@),
        }
    }
}

/// With what a message is decrypted.
pub enum Identity {
    /// An X25519 secret key.
    SecretKey(SecretKey),
    /// A passphrase.
    Passphrase(SecretBytes),
}

/// The mathematical value of an `Identity`.
pub enum IdentityView {
    SecretKey(Seq<u8>),
    Passphrase(Seq<u8>),
}

impl View for Identity {
    type V = IdentityView;

    open spec fn view(&self) -> IdentityView {
        match self {
            Identity::SecretKey(k) => IdentityView::SecretKey(k@),
            Identity::Passphrase(p) => IdentityView::Passphrase(p@),
        }
    }
}

/// The values of a list of recipients.
pub open spec fn recipients_view(v: Seq<Recipient>) -> Seq<RecipientView> {
    Seq::new(v.len(), |i: int| v[i]@)
}

/// The values of a list of identities.
pub open spec fn identities_view(v: Seq<Identity>) -> Seq<IdentityView> {
    Seq::new(v.len(), |i: int| v[i]@)
}

/// A stanza as decryption understands it: by the way in which it wraps the
/// file key, or as a stanza of a kind that this library does not know.
pub enum WrappedKey {
    /// Wrapped for an X25519 public key.
    X25519 { share: Vec<u8>, body: Vec<u8> },
    /// Wrapped for a passphrase.
    Scrypt { salt: Vec<u8>, log_n: u8, body: Vec<u8> },
    /// A stanza with another tag, kept as it was read.
    Unknown(Stanza),
}

/// The mathematical value of a `WrappedKey`.
pub enum WrappedKeyView {
    X25519 { share: Seq<u8>, body: Seq<u8> },
    Scrypt { salt: Seq<u8>, log_n: u8, body: Seq<u8> },
    Unknown(StanzaView),
}

impl View for WrappedKey {
    type V = WrappedKeyView;

    open spec fn view(&self) -> WrappedKeyView {
        match self {
            WrappedKey::X25519 { share, body } => WrappedKeyView::X25519 {
                share: share@,
                body: body@,
            },
            WrappedKey::Scrypt { salt, log_n, body } => WrappedKeyView::Scrypt {
                salt: salt@,
                log_n: *log_n,
                body: body@,
            },
            WrappedKey::Unknown(s) => WrappedKeyView::Unknown(s@),
        }
    }
}

impl WrappedKeyView {
    /// Whether the parts have the sizes that the format gives them, and
    /// the work factor is allowed.
    pub open spec fn wf(self) -> bool {
        match self {
            WrappedKeyView::X25519 { share, body } => share.len() == KEY_LEN && body.len()
                == WRAPPED_LEN,
            WrappedKeyView::Scrypt { salt, log_n, body } => salt.len() == SALT_LEN
                && work_factor_allowed(log_n) && body.len() == WRAPPED_LEN,
            WrappedKeyView::Unknown(_) => true,
        }
    }
}

/// The values of a list of wrapped keys.
pub open spec fn wrapped_view(v: Seq<WrappedKey>) -> Seq<WrappedKeyView> {
    Seq::new(v.len(), |i: int| v[i]@)
}

/// How decryption understands the stanza `s`.
///
/// A stanza with the tag `X25519` has one argument, a share of 32 bytes in
/// base64. A stanza with the tag `scrypt` has two, a salt of 16 bytes in
/// base64 and an allowed work factor in decimal digits. Both have a body
/// of 32 bytes. A stanza with one of these tags and another shape is
/// `MalformedStanza`; a stanza with any other tag is passed over.
pub open spec fn classify_spec(s: StanzaView) -> Result<WrappedKeyView, Error> {
    if s.tag == X25519_TAG@ {
        if s.args.len() == 1 && s.body.len() == WRAPPED_LEN {
            match decode_spec(s.args[0]) {
                Some(share) => if share.len() == KEY_LEN {
                    Ok(WrappedKeyView::X25519 { share, body: s.body })
                } else {
                    Err(Error::MalformedStanza)
                },
                None => Err(Error::MalformedStanza),
            }
        } else {
            Err(Error::MalformedStanza)
        }
    } else if s.tag == SCRYPT_TAG@ {
        if s.args.len() == 2 && s.body.len() == WRAPPED_LEN {
            match (decode_spec(s.args[0]), parse_decimal_spec(s.args[1])) {
                (Some(salt), Some(log_n)) => if salt.len() == SALT_LEN && work_factor_allowed(
                    log_n,
                ) {
                    Ok(WrappedKeyView::Scrypt { salt, log_n, body: s.body })
                } else {
                    Err(Error::MalformedStanza)
                },
                _ => Err(Error::MalformedStanza),
            }
        } else {
            Err(Error::MalformedStanza)
        }
    } else {
        Ok(WrappedKeyView::Unknown(s))
    }
}

/// How decryption understands the stanzas of a header: each as
/// `classify_spec` says, or `MalformedStanza` where one of them is.
pub open spec fn classify_all_spec(ss: Seq<StanzaView>) -> Result<Seq<WrappedKeyView>, Error> {
    if forall|i: int| 0 <= i < ss.len() ==> (#[trigger] classify_spec(ss[i])) is Ok {
        Ok(Seq::new(ss.len(), |i: int| classify_spec(ss[i])->Ok_0))
    } else {
        Err(Error::MalformedStanza)
    }
}

/// The file key that `identity` finds in `wrapped`: a secret key looks
/// into an X25519 stanza, a passphrase into a scrypt stanza.
pub open spec fn unwrap_spec(identity: IdentityView, wrapped: WrappedKeyView) -> Option<Seq<u8>> {
    match (identity, wrapped) {
        (
            IdentityView::SecretKey(secret),
            WrappedKeyView::X25519 { share, body },
        ) => crate::format::x25519::unwrap_spec(secret, share, body),
        (
            IdentityView::Passphrase(passphrase),
            WrappedKeyView::Scrypt { salt, log_n, body },
        ) => crate::format::scrypt::unwrap_spec(passphrase, salt, log_n, body),
        _ => None,
    }
}

/// The file key from the first of `stanzas` that `identity` opens.
pub open spec fn try_stanzas_spec(identity: IdentityView, stanzas: Seq<WrappedKeyView>) -> Option<
    Seq<u8>,
>
    decreases stanzas.len(),
{
    if stanzas.len() == 0 {
        None
    } else {
        match unwrap_spec(identity, stanzas[0]) {
            Some(k) => Some(k),
            None => try_stanzas_spec(identity, stanzas.skip(1)),
        }
    }
}

/// The file key that the first of `identities` to open any of `stanzas`
/// finds in the first stanza that it opens.
pub open spec fn try_identities_spec(
    identities: Seq<IdentityView>,
    stanzas: Seq<WrappedKeyView>,
) -> Option<Seq<u8>>
    decreases identities.len(),
{
    if identities.len() == 0 {
        None
    } else {
        match try_stanzas_spec(identities[0], stanzas) {
            Some(k) => Some(k),
            None => try_identities_spec(identities.skip(1), stanzas),
        }
    }
}

/// The file key and the payload of the message `data` for the holder of
/// `identities`, or why there is none.
///
/// `HeaderParseError` where `data` does not start with a header;
/// `MalformedStanza` where a stanza with a known tag is out of shape;
/// `NoMatchingIdentity` where no identity opens a stanza;
/// `HeaderMacMismatch` where the header's code is not the code of its
/// stanzas under the file key.
pub open spec fn open_header_spec(identities: Seq<IdentityView>, data: Seq<u8>) -> Result<
    (Seq<u8>, Seq<u8>),
    Error,
> {
    match parse_header_spec(data) {
        None => Err(Error::HeaderParseError),
        Some((header, payload)) => match classify_all_spec(header.stanzas) {
            Err(e) => Err(e),
            Ok(stanzas) => match try_identities_spec(identities, stanzas) {
                None => Err(Error::NoMatchingIdentity),
                Some(file_key) => if header_mac_spec(file_key, header.stanzas) != header.mac {
                    Err(Error::HeaderMacMismatch)
                } else {
                    Ok((file_key, payload))
                },
            },
        },
    }
}

/// The plaintext of the message `data` for the holder of `identities`, or
/// why there is none: what refuses the header, or what the payload gives
/// under the header's file key.
pub open spec fn decrypt_spec(identities: Seq<IdentityView>, data: Seq<u8>) -> Result<
    Seq<u8>,
    Error,
> {
    match open_header_spec(identities, data) {
        Err(e) => Err(e),
        Ok((file_key, payload)) => stream_decrypt_spec(file_key, payload),
    }
}

/// No file key is found exactly where no identity opens any stanza.
pub proof fn lemma_no_matching_identity(
    identities: Seq<IdentityView>,
    stanzas: Seq<WrappedKeyView>,
)
    ensures
        try_identities_spec(identities, stanzas) is None <==> forall|i: int, j: int|
            0 <= i < identities.len() && 0 <= j < stanzas.len() ==> (#[trigger] unwrap_spec(
                identities[i],
                stanzas[j],
            )) is None,
    decreases identities.len(),
{
    if identities.len() > 0 {
        let rest = identities.skip(1);
        lemma_no_stanza_opens(identities[0], stanzas);
        lemma_no_matching_identity(rest, stanzas);
        assert forall|i: int| 0 <= i < rest.len() implies rest[i] == identities[i + 1] by {}
        if try_identities_spec(identities, stanzas) is None {
            assert forall|i: int, j: int|
                0 <= i < identities.len() && 0 <= j < stanzas.len() implies (#[trigger] unwrap_spec(
                identities[i],
                stanzas[j],
            )) is None by {
                if i > 0 {
                    assert(identities[i] == rest[i - 1]);
                }
            }
        } else if try_stanzas_spec(identities[0], stanzas) is None {
            let (i, j) = choose|i: int, j: int|
                0 <= i < rest.len() && 0 <= j < stanzas.len() && !((#[trigger] unwrap_spec(
                    rest[i],
                    stanzas[j],
                )) is None);
            assert(unwrap_spec(identities[i + 1], stanzas[j]) is Some);
        }
    }
}

/// An identity finds no file key exactly where it opens none of the
/// stanzas.
pub proof fn lemma_no_stanza_opens(identity: IdentityView, stanzas: Seq<WrappedKeyView>)
    ensures
        try_stanzas_spec(identity, stanzas) is None <==> forall|j: int|
            0 <= j < stanzas.len() ==> (#[trigger] unwrap_spec(identity, stanzas[j])) is None,
    decreases stanzas.len(),
{
    if stanzas.len() > 0 {
        let rest = stanzas.skip(1);
        lemma_no_stanza_opens(identity, rest);
        assert forall|j: int| 0 <= j < rest.len() implies rest[j] == stanzas[j + 1] by {}
        if try_stanzas_spec(identity, stanzas) is None {
            assert forall|j: int| 0 <= j < stanzas.len() implies (#[trigger] unwrap_spec(
                identity,
                stanzas[j],
            )) is None by {
                if j > 0 {
                    assert(stanzas[j] == rest[j - 1]);
                }
            }
        } else if unwrap_spec(identity, stanzas[0]) is None {
            let j = choose|j: int|
                0 <= j < rest.len() && !((#[trigger] unwrap_spec(identity, rest[j])) is None);
            assert(unwrap_spec(identity, stanzas[j + 1]) is Some);
        }
    }
}

/// A message that is decrypted has an authentic header: the bytes of the
/// message are a header and a payload, the header's code is the code of
/// its stanzas under the file key that an identity found in them, and the
/// plaintext is what the payload holds under that file key.
pub proof fn lemma_accepted_is_authenticated(identities: Seq<IdentityView>, data: Seq<u8>)
    requires
        decrypt_spec(identities, data) is Ok,
    ensures
        ({
            let (header, payload) = parse_header_spec(data)->Some_0;
            let file_key = try_identities_spec(
                identities,
                classify_all_spec(header.stanzas)->Ok_0,
            )->Some_0;
            &&& header_spec(header) + payload == data
            &&& header.mac == header_mac_spec(file_key, header.stanzas)
            &&& decrypt_spec(identities, data) == stream_decrypt_spec(file_key, payload)
        }),
{
    crate::format::grammar::lemma_parse_header_sound(data);
}

/// The message in `data`: what the armor holds where `data` starts like an
/// armored message, else `data` itself. `None` where `data` starts like an
/// armored message and is none.
pub open spec fn unarmored_spec(data: Seq<u8>) -> Option<Seq<u8>> {
    if is_armored_spec(data) {
        dearmor_spec(data)
    } else {
        Some(data)
    }
}

/// The plaintext of the message `data`, armored or not, for the holder of
/// `identities`, or why there is none. Armor that cannot be read is a
/// `HeaderParseError`.
pub open spec fn trial_decrypt_spec(identities: Seq<IdentityView>, data: Seq<u8>) -> Result<
    Seq<u8>,
    Error,
> {
    match unarmored_spec(data) {
        None => Err(Error::HeaderParseError),
        Some(message) => decrypt_spec(identities, message),
    }
}

/// The value of a classified stanza or of the refusal to classify it.
pub open spec fn wrapped_result_view(r: Result<WrappedKey, Error>) -> Result<
    WrappedKeyView,
    Error,
> {
    match r {
        Ok(w) => Ok(w@),
        Err(e) => Err(e),
    }
}

/// The value of secret bytes that may be there.
pub open spec fn secret_view(r: Option<SecretBytes>) -> Option<Seq<u8>> {
    match r {
        Some(s) => Some(s@),
        None => None,
    }
}

/// The value of a file key that may have been found.
pub open spec fn found_view(r: Option<FileKey>) -> Option<Seq<u8>> {
    match r {
        Some(k) => Some(k@),
        None => None,
    }
}

impl WrappedKey {
    /// Says how decryption understands `stanza`, or refuses it as
    /// `MalformedStanza`.
    pub fn from_stanza(stanza: &Stanza) -> (r: Result<WrappedKey, Error>)
        ensures
            wrapped_result_view(r) == classify_spec(stanza@),
            r matches Ok(w) ==> w@.wf(),
    {
        if same_bytes(stanza.tag.as_slice(), X25519_TAG.as_slice()) {
            if stanza.args.len() != 1 || stanza.body.len() != WRAPPED_LEN {
                return Err(Error::MalformedStanza);
            }
            assert(stanza@.args[0] == stanza.args@[0]@);
            let share = match decode(stanza.args[0].as_slice()) {
                Some(v) => v,
                None => { return Err(Error::MalformedStanza); },
            };
            if share.len() != KEY_LEN {
                return Err(Error::MalformedStanza);
            }
            let body = copy_range(stanza.body.as_slice(), 0, WRAPPED_LEN);
            assert(body@ =~= stanza@.body);
            Ok(WrappedKey::X25519 { share, body })
        } else if same_bytes(stanza.tag.as_slice(), SCRYPT_TAG.as_slice()) {
            if stanza.args.len() != 2 || stanza.body.len() != WRAPPED_LEN {
                return Err(Error::MalformedStanza);
            }
            assert(stanza@.args[0] == stanza.args@[0]@);
            assert(stanza@.args[1] == stanza.args@[1]@);
            let salt = match decode(stanza.args[0].as_slice()) {
                Some(v) => v,
                None => { return Err(Error::MalformedStanza); },
            };
            let log_n = match parse_decimal(stanza.args[1].as_slice()) {
                Some(v) => v,
                None => { return Err(Error::MalformedStanza); },
            };
            if salt.len() != SALT_LEN || !is_work_factor_allowed(log_n) {
                return Err(Error::MalformedStanza);
            }
            let body = copy_range(stanza.body.as_slice(), 0, WRAPPED_LEN);
            assert(body@ =~= stanza@.body);
            Ok(WrappedKey::Scrypt { salt, log_n, body })
        } else {
            Ok(WrappedKey::Unknown(stanza.duplicate()))
        }
    }

    /// Says how decryption understands each of `stanzas`, or refuses them
    /// as `MalformedStanza` where one of them is.
    pub fn from_stanzas(stanzas: &Vec<Stanza>) -> (r: Result<Vec<WrappedKey>, Error>)
        ensures
            match r {
                Ok(ws) => classify_all_spec(stanzas_view(stanzas@)) == Ok::<
                    Seq<WrappedKeyView>,
                    Error,
                >(wrapped_view(ws@)) && forall|i: int|
                    0 <= i < ws@.len() ==> (#[trigger] ws@[i])@.wf(),
                Err(e) => classify_all_spec(stanzas_view(stanzas@)) == Err::<
                    Seq<WrappedKeyView>,
                    Error,
                >(e),
            },
    {
        let ghost ss = stanzas_view(stanzas@);
        let mut out: Vec<WrappedKey> = Vec::new();
        let mut i: usize = 0;
        while i < stanzas.len()
            invariant
                i <= stanzas@.len(),
                ss == stanzas_view(stanzas@),
                out@.len() == i,
                forall|j: int|
                    0 <= j < i ==> (#[trigger] classify_spec(ss[j])) == Ok::<WrappedKeyView, Error>(
                        out@[j]@,
                    ),
                forall|j: int| 0 <= j < i ==> (#[trigger] out@[j])@.wf(),
            decreases stanzas@.len() - i,
        {
            assert(ss[i as int] == stanzas@[i as int]@);
            match WrappedKey::from_stanza(&stanzas[i]) {
                Ok(w) => {
                    out.push(w);
                },
                Err(e) => {
                    assert(!(classify_spec(ss[i as int]) is Ok));
                    return Err(e);
                },
            }
            i += 1;
        }
        proof {
            assert(wrapped_view(out@) =~= Seq::new(
                ss.len(),
                |i: int| classify_spec(ss[i])->Ok_0,
            ));
        }
        Ok(out)
    }
}

impl Identity {
    /// Looks for the file key in `wrapped`.
    pub fn unwrap_stanza(&self, wrapped: &WrappedKey) -> (r: Option<FileKey>)
        ensures
            found_view(r) == unwrap_spec(self@, wrapped@),
    {
        match (self, wrapped) {
            (Identity::SecretKey(secret), WrappedKey::X25519 { share, body }) => {
                crate::format::x25519::unwrap(secret, share.as_slice(), body.as_slice())
            },
            (Identity::Passphrase(passphrase), WrappedKey::Scrypt { salt, log_n, body }) => {
                crate::format::scrypt::unwrap(
                    passphrase.as_bytes(),
                    salt.as_slice(),
                    *log_n,
                    body.as_slice(),
                )
            },
            _ => None,
        }
    }

    /// Gives the file key from the first of `stanzas` that opens.
    pub fn try_stanzas(&self, stanzas: &Vec<WrappedKey>) -> (r: Option<FileKey>)
        ensures
            found_view(r) == try_stanzas_spec(self@, wrapped_view(stanzas@)),
    {
        let ghost ws = wrapped_view(stanzas@);
        let mut i: usize = 0;
        assert(ws.skip(0) =~= ws);
        while i < stanzas.len()
            invariant
                i <= stanzas@.len(),
                ws == wrapped_view(stanzas@),
                try_stanzas_spec(self@, ws) == try_stanzas_spec(self@, ws.skip(i as int)),
            decreases stanzas@.len() - i,
        {
            proof {
                let rest = ws.skip(i as int);
                assert(rest[0] == stanzas@[i as int]@);
                assert(rest.skip(1) =~= ws.skip(i + 1));
            }
            match self.unwrap_stanza(&stanzas[i]) {
                Some(k) => {
                    return Some(k);
                },
                None => {},
            }
            i += 1;
        }
        None
    }
}

/// Decrypts messages with a list of identities.
pub struct Decryptor {
    /// The identities, in the order in which they are tried.
    pub identities: Vec<Identity>,
}

impl View for Decryptor {
    type V = Seq<IdentityView>;

    open spec fn view(&self) -> Seq<IdentityView> {
        identities_view(self.identities@)
    }
}

impl Decryptor {
    /// A decryptor that tries `identities` in their order.
    pub fn with_identities(identities: Vec<Identity>) -> (d: Decryptor)
        ensures
            d@ == identities_view(identities@),
    {
        Decryptor { identities }
    }

    /// A decryptor that tries the passphrase `passphrase`.
    pub fn with_passphrase(passphrase: SecretBytes) -> (d: Decryptor)
        ensures
            d@ == seq![IdentityView::Passphrase(passphrase@)],
    {
        let mut identities: Vec<Identity> = Vec::new();
        identities.push(Identity::Passphrase(passphrase));
        let d = Decryptor { identities };
        assert(d@ =~= seq![IdentityView::Passphrase(passphrase@)]);
        d
    }

    /// Gives the file key that the first identity to open any of `stanzas`
    /// finds in the first stanza that it opens.
    pub fn try_identities(&self, stanzas: &Vec<WrappedKey>) -> (r: Option<FileKey>)
        ensures
            found_view(r) == try_identities_spec(self@, wrapped_view(stanzas@)),
    {
        let ghost ids = self@;
        let ghost ws = wrapped_view(stanzas@);
        let mut i: usize = 0;
        assert(ids.skip(0) =~= ids);
        while i < self.identities.len()
            invariant
                i <= self.identities@.len(),
                ids == self@,
                ws == wrapped_view(stanzas@),
                try_identities_spec(ids, ws) == try_identities_spec(ids.skip(i as int), ws),
            decreases self.identities@.len() - i,
        {
            proof {
                let rest = ids.skip(i as int);
                assert(rest[0] == self.identities@[i as int]@);
                assert(rest.skip(1) =~= ids.skip(i + 1));
            }
            match self.identities[i].try_stanzas(stanzas) {
                Some(k) => {
                    return Some(k);
                },
                None => {},
            }
            i += 1;
        }
        None
    }

    /// Decrypts the message `data`, armored or not.
    ///
    /// Gives the plaintext, or says why there is none; no plaintext comes
    /// out of a message that is refused.
    pub fn trial_decrypt(&self, data: &[u8]) -> (r: Result<Vec<u8>, Error>)
        ensures
            result_view(r) == trial_decrypt_spec(self@, data@),
    {
        if is_armored(data) {
            match dearmor(data) {
                Some(message) => self.decrypt(message.as_slice()),
                None => Err(Error::HeaderParseError),
            }
        } else {
            self.decrypt(data)
        }
    }

    /// Decrypts the message `data`, which is not armored.
    ///
    /// Gives the plaintext, or says why there is none; no plaintext comes
    /// out of a message that is refused.
    pub fn decrypt(&self, data: &[u8]) -> (r: Result<Vec<u8>, Error>)
        ensures
            result_view(r) == decrypt_spec(self@, data@),
    {
        let (file_key, next) = match self.open_header(data) {
            Ok(v) => v,
            Err(e) => { return Err(e); },
        };
        let payload = slice_subrange(data, next, data.len());
        assert(payload@ =~= data@.skip(next as int));
        decrypt_payload(&file_key, payload)
    }

    /// Reads the header that `data` starts with, finds the file key and
    /// checks the header's code.
    ///
    /// Gives the file key and the index at which the payload starts, or
    /// says why the message is refused. A `StreamReader` made with the
    /// file key decrypts the payload piece by piece.
    pub fn open_header(&self, data: &[u8]) -> (r: Result<(FileKey, usize), Error>)
        ensures
            match r {
                Ok((file_key, next)) => next <= data@.len() && open_header_spec(self@, data@)
                    == Ok::<(Seq<u8>, Seq<u8>), Error>((file_key@, data@.skip(next as int))),
                Err(e) => open_header_spec(self@, data@) == Err::<(Seq<u8>, Seq<u8>), Error>(e),
            },
    {
        let (header, next) = match Header::read_prefix(data) {
            Ok(v) => v,
            Err(e) => { return Err(e); },
        };
        let stanzas = match WrappedKey::from_stanzas(&header.stanzas) {
            Ok(v) => v,
            Err(e) => { return Err(e); },
        };
        let file_key = match self.try_identities(&stanzas) {
            Some(k) => k,
            None => { return Err(Error::NoMatchingIdentity); },
        };
        if !header.verify_mac(&file_key) {
            return Err(Error::HeaderMacMismatch);
        }
        Ok((file_key, next))
    }
}

/// The number of random bytes that encryption uses for each recipient: an
/// ephemeral secret key of 32 bytes, or a salt in the first 16 of them.
pub const SEED_LEN: usize = 32;

/// The number of random bytes that encryption for `recipients` recipients
/// uses: 16 for the file key, then 32 for each recipient.
pub open spec fn entropy_needed(recipients: nat) -> nat {
    FILE_KEY_LEN as nat + SEED_LEN as nat * recipients
}

/// The random bytes of recipient number `i`.
pub open spec fn seed_of(entropy: Seq<u8>, i: int) -> Seq<u8> {
    entropy.subrange(FILE_KEY_LEN + SEED_LEN * i, FILE_KEY_LEN + SEED_LEN * (i + 1))
}

/// The stanza that wraps `file_key` for `recipient`.
///
/// For a public key, `seed` is the ephemeral secret key. For a passphrase,
/// the first 16 bytes of `seed` are the salt and `log_n` is the work
/// factor.
pub open spec fn wrap_spec(
    recipient: RecipientView,
    file_key: Seq<u8>,
    seed: Seq<u8>,
    log_n: u8,
) -> StanzaView {
    match recipient {
        RecipientView::PublicKey(public) => crate::format::x25519::stanza_spec(
            public,
            file_key,
            seed,
        ),
        RecipientView::Passphrase(passphrase) => crate::format::scrypt::stanza_spec(
            passphrase,
            file_key,
            seed.take(SALT_LEN as int),
            log_n,
        ),
    }
}

/// The stanzas of a message for `recipients`, one for each, in their
/// order.
pub open spec fn stanzas_for(
    recipients: Seq<RecipientView>,
    file_key: Seq<u8>,
    entropy: Seq<u8>,
    log_n: u8,
) -> Seq<StanzaView> {
    Seq::new(
        recipients.len(),
        |i: int| wrap_spec(recipients[i], file_key, seed_of(entropy, i), log_n),
    )
}

/// The header of a message for `recipients`, made with the random bytes
/// `entropy`: a stanza for each recipient, and the code of the stanzas
/// under the file key. The first 16 bytes of `entropy` are the file key.
pub open spec fn header_for(recipients: Seq<RecipientView>, log_n: u8, entropy: Seq<u8>) -> Seq<
    u8,
> {
    let file_key = entropy.take(FILE_KEY_LEN as int);
    let stanzas = stanzas_for(recipients, file_key, entropy, log_n);
    header_spec(HeaderView { stanzas, mac: header_mac_spec(file_key, stanzas) })
}

/// The message that holds `plaintext` for `recipients`, made with the
/// random bytes `entropy`: the header, then the payload.
pub open spec fn encrypt_spec(
    recipients: Seq<RecipientView>,
    log_n: u8,
    entropy: Seq<u8>,
    plaintext: Seq<u8>,
) -> Seq<u8> {
    header_for(recipients, log_n, entropy) + stream_encrypt_spec(
        entropy.take(FILE_KEY_LEN as int),
        plaintext,
    )
}

/// The message `binary` in the format `format`.
pub open spec fn message_spec(format: Format, binary: Seq<u8>) -> Seq<u8> {
    match format {
        Format::Binary => binary,
        Format::AsciiArmor => armor_spec(binary),
    }
}

/// What the primitives did when `file_key` was wrapped for `recipient`.
pub open spec fn wrap_sound(
    recipient: RecipientView,
    file_key: Seq<u8>,
    seed: Seq<u8>,
    log_n: u8,
) -> bool {
    match recipient {
        RecipientView::PublicKey(public) => crate::format::x25519::wrap_sound(
            public,
            file_key,
            seed,
        ),
        RecipientView::Passphrase(passphrase) => crate::format::scrypt::wrap_sound(
            passphrase,
            file_key,
            seed.take(SALT_LEN as int),
            log_n,
        ),
    }
}

/// What the primitives did when the header was made: every stanza's file
/// key opens for its recipient, and the header's code has 32 bytes.
pub open spec fn header_sound(recipients: Seq<RecipientView>, log_n: u8, entropy: Seq<u8>) -> bool {
    let file_key = entropy.take(FILE_KEY_LEN as int);
    let stanzas = stanzas_for(recipients, file_key, entropy, log_n);
    &&& entropy.len() >= entropy_needed(recipients.len())
    &&& forall|i: int|
        0 <= i < recipients.len() ==> wrap_sound(
            #[trigger] recipients[i],
            file_key,
            seed_of(entropy, i),
            log_n,
        )
    &&& header_mac_spec(file_key, stanzas).len() == MAC_LEN
}

/// What the primitives did when the message was made: what they did for
/// the header, and every chunk of the payload opens to itself.
pub open spec fn encryption_sound(
    recipients: Seq<RecipientView>,
    log_n: u8,
    entropy: Seq<u8>,
    plaintext: Seq<u8>,
) -> bool {
    header_sound(recipients, log_n, entropy) && chunks_open(
        payload_key_spec(entropy.take(FILE_KEY_LEN as int)),
        0,
        plaintext,
    )
}

/// Whether `identity` is the one that `recipient` stands for: the secret
/// key of the public key, or the same passphrase.
pub open spec fn identity_matches(identity: IdentityView, recipient: RecipientView) -> bool {
    match (identity, recipient) {
        (IdentityView::SecretKey(secret), RecipientView::PublicKey(public)) => secret.len()
            == KEY_LEN && public == public_of(secret),
        (IdentityView::Passphrase(a), RecipientView::Passphrase(b)) => a == b,
        _ => false,
    }
}

/// Whether recipient number `k` is the first whose stanza `identity`
/// opens, and `identity` is the one that this recipient stands for.
pub open spec fn opens_first(
    identity: IdentityView,
    recipients: Seq<RecipientView>,
    log_n: u8,
    entropy: Seq<u8>,
    k: int,
) -> bool {
    let file_key = entropy.take(FILE_KEY_LEN as int);
    let stanzas = stanzas_for(recipients, file_key, entropy, log_n);
    &&& 0 <= k < recipients.len()
    &&& identity_matches(identity, recipients[k])
    &&& forall|j: int|
        0 <= j < k ==> unwrap_spec(identity, #[trigger] classify_spec(stanzas[j])->Ok_0) is None
}

/// Base64 text of at least one byte is a word.
pub proof fn lemma_encoded_word(s: Seq<u8>)
    requires
        s.len() > 0,
    ensures
        is_word(encode_spec(s)),
{
    lemma_encode_len(s);
    lemma_encode_alphabet(s);
}

/// The stanza that a recipient's file key was wrapped in can be written
/// and read back, decryption understands it, and every identity that the
/// recipient stands for finds the file key in it.
pub proof fn lemma_wrap_opens(recipient: RecipientView, file_key: Seq<u8>, seed: Seq<u8>, log_n: u8)
    requires
        wrap_sound(recipient, file_key, seed, log_n),
    ensures
        wrap_spec(recipient, file_key, seed, log_n).wf(),
        classify_spec(wrap_spec(recipient, file_key, seed, log_n)) is Ok,
        forall|identity: IdentityView| #[trigger]
            identity_matches(identity, recipient) ==> unwrap_spec(
                identity,
                classify_spec(wrap_spec(recipient, file_key, seed, log_n))->Ok_0,
            ) == Some(file_key),
{
    let stanza = wrap_spec(recipient, file_key, seed, log_n);
    match recipient {
        RecipientView::PublicKey(public) => {
            let share = public_of(seed);
            lemma_encoded_word(share);
            lemma_decode_encode(share);
            assert(stanza.tag == X25519_TAG@);
            assert(is_word(stanza.tag));
            assert(stanza.args[0] == encode_spec(share));
            assert forall|identity: IdentityView| #[trigger]
                identity_matches(identity, recipient) implies unwrap_spec(
                identity,
                classify_spec(stanza)->Ok_0,
            ) == Some(file_key) by {
                match identity {
                    IdentityView::SecretKey(secret) => {
                        crate::format::x25519::lemma_unwrap_wrap(secret, file_key, seed);
                    },
                    IdentityView::Passphrase(_) => {},
                }
            }
        },
        RecipientView::Passphrase(passphrase) => {
            let salt = seed.take(SALT_LEN as int);
            lemma_encoded_word(salt);
            lemma_decode_encode(salt);
            lemma_parse_decimal(log_n);
            assert(stanza.tag == SCRYPT_TAG@);
            assert(stanza.tag[0] != X25519_TAG@[0]);
            assert(is_word(stanza.tag));
            assert(stanza.args[0] == encode_spec(salt));
            assert(stanza.args[1] == decimal_spec(log_n));
            assert(is_word(decimal_spec(log_n)));
            crate::format::scrypt::lemma_unwrap_wrap(passphrase, file_key, salt, log_n);
        },
    }
}

/// An identity that opens stanza number `k` and none before it takes its
/// file key from that stanza.
pub proof fn lemma_try_stanzas_finds(
    identity: IdentityView,
    stanzas: Seq<WrappedKeyView>,
    k: int,
    file_key: Seq<u8>,
)
    requires
        0 <= k < stanzas.len(),
        forall|j: int| 0 <= j < k ==> unwrap_spec(identity, #[trigger] stanzas[j]) is None,
        unwrap_spec(identity, stanzas[k]) == Some(file_key),
    ensures
        try_stanzas_spec(identity, stanzas) == Some(file_key),
    decreases k,
{
    if k > 0 {
        let rest = stanzas.skip(1);
        assert(unwrap_spec(identity, stanzas[0]) is None);
        assert forall|j: int| 0 <= j < k - 1 implies unwrap_spec(identity, #[trigger] rest[j])
            is None by {
            assert(rest[j] == stanzas[j + 1]);
        }
        assert(rest[k - 1] == stanzas[k]);
        lemma_try_stanzas_finds(identity, rest, k - 1, file_key);
    }
}

/// The header of a message opens for its recipients.
///
/// From a header that was made for `recipients`, followed by any payload,
/// the file key is found by identities of which the first is the one that
/// some recipient stands for, and opens no stanza before that recipient's.
pub proof fn lemma_header_opens(
    recipients: Seq<RecipientView>,
    log_n: u8,
    entropy: Seq<u8>,
    identities: Seq<IdentityView>,
    k: int,
    payload: Seq<u8>,
)
    requires
        header_sound(recipients, log_n, entropy),
        identities.len() > 0,
        opens_first(identities[0], recipients, log_n, entropy, k),
    ensures
        open_header_spec(identities, header_for(recipients, log_n, entropy) + payload) == Ok::<
            (Seq<u8>, Seq<u8>),
            Error,
        >((entropy.take(FILE_KEY_LEN as int), payload)),
{
    let file_key = entropy.take(FILE_KEY_LEN as int);
    let stanzas = stanzas_for(recipients, file_key, entropy, log_n);
    let header = HeaderView { stanzas, mac: header_mac_spec(file_key, stanzas) };
    assert forall|i: int| 0 <= i < stanzas.len() implies (#[trigger] stanzas[i]).wf()
        && classify_spec(stanzas[i]) is Ok by {
        assert(wrap_sound(recipients[i], file_key, seed_of(entropy, i), log_n));
        lemma_wrap_opens(recipients[i], file_key, seed_of(entropy, i), log_n);
    }
    lemma_parse_header_complete(header, payload);
    let wrapped = classify_all_spec(stanzas)->Ok_0;
    assert(wrap_sound(recipients[k], file_key, seed_of(entropy, k), log_n));
    lemma_wrap_opens(recipients[k], file_key, seed_of(entropy, k), log_n);
    assert(identity_matches(identities[0], recipients[k]));
    assert(unwrap_spec(identities[0], wrapped[k]) == Some(file_key));
    assert forall|j: int| 0 <= j < k implies unwrap_spec(identities[0], #[trigger] wrapped[j])
        is None by {
        assert(wrapped[j] == classify_spec(stanzas[j])->Ok_0);
    }
    lemma_try_stanzas_finds(identities[0], wrapped, k, file_key);
}

/// Decryption undoes encryption.
///
/// A message that was made for `recipients` is decrypted to its plaintext
/// by identities of which the first is the one that some recipient stands
/// for, and opens no stanza before that recipient's.
pub proof fn lemma_round_trip(
    recipients: Seq<RecipientView>,
    log_n: u8,
    entropy: Seq<u8>,
    plaintext: Seq<u8>,
    identities: Seq<IdentityView>,
    k: int,
)
    requires
        encryption_sound(recipients, log_n, entropy, plaintext),
        identities.len() > 0,
        opens_first(identities[0], recipients, log_n, entropy, k),
    ensures
        decrypt_spec(identities, encrypt_spec(recipients, log_n, entropy, plaintext)) == Ok::<
            Seq<u8>,
            Error,
        >(plaintext),
{
    let file_key = entropy.take(FILE_KEY_LEN as int);
    lemma_header_opens(
        recipients,
        log_n,
        entropy,
        identities,
        k,
        stream_encrypt_spec(file_key, plaintext),
    );
    lemma_stream_round_trip(payload_key_spec(file_key), 0, plaintext);
}

/// A message without its last chunk is refused as truncated.
///
/// A message that was made for `recipients` and cut off after its header
/// and some of the full chunks of its payload is refused as
/// `StreamTruncated`, though its header is whole and every chunk in it
/// opens.
pub proof fn lemma_truncated_message(
    recipients: Seq<RecipientView>,
    log_n: u8,
    entropy: Seq<u8>,
    plaintext: Seq<u8>,
    identities: Seq<IdentityView>,
    k: int,
    chunks: nat,
)
    requires
        encryption_sound(recipients, log_n, entropy, plaintext),
        identities.len() > 0,
        opens_first(identities[0], recipients, log_n, entropy, k),
        chunks * CHUNK_SIZE <= plaintext.len(),
    ensures
        decrypt_spec(
            identities,
            header_for(recipients, log_n, entropy) + truncated_spec(
                stream_encrypt_spec(entropy.take(FILE_KEY_LEN as int), plaintext),
                chunks,
            ),
        ) == Err::<Seq<u8>, Error>(Error::StreamTruncated),
{
    let file_key = entropy.take(FILE_KEY_LEN as int);
    lemma_header_opens(
        recipients,
        log_n,
        entropy,
        identities,
        k,
        truncated_spec(stream_encrypt_spec(file_key, plaintext), chunks),
    );
    lemma_truncation_rejected(payload_key_spec(file_key), plaintext, chunks);
}

/// Decryption undoes encryption in either format.
///
/// A message that was made for `recipients`, armored or not, is decrypted
/// to its plaintext by identities of which the first is the one that some
/// recipient stands for, and opens no stanza before that recipient's.
pub proof fn lemma_message_round_trip(
    recipients: Seq<RecipientView>,
    log_n: u8,
    entropy: Seq<u8>,
    plaintext: Seq<u8>,
    format: Format,
    identities: Seq<IdentityView>,
    k: int,
)
    requires
        encryption_sound(recipients, log_n, entropy, plaintext),
        identities.len() > 0,
        opens_first(identities[0], recipients, log_n, entropy, k),
    ensures
        trial_decrypt_spec(
            identities,
            message_spec(format, encrypt_spec(recipients, log_n, entropy, plaintext)),
        ) == Ok::<Seq<u8>, Error>(plaintext),
{
    let binary = encrypt_spec(recipients, log_n, entropy, plaintext);
    lemma_round_trip(recipients, log_n, entropy, plaintext, identities, k);
    match format {
        Format::Binary => {
            assert(binary[0] == 97);
            if is_armored_spec(binary) {
                assert(binary.take(ARMOR_BEGIN@.len() as int)[0] == ARMOR_BEGIN@[0]);
            }
        },
        Format::AsciiArmor => {
            let text = armor_spec(binary);
            assert(text.take(ARMOR_BEGIN@.len() as int) =~= ARMOR_BEGIN@);
            lemma_dearmor_armor(binary);
        },
    }
}

/// The value of an `Encryptor`.
pub struct EncryptorView {
    pub recipients: Seq<RecipientView>,
    pub work_factor: u8,
}

/// Encrypts messages for a list of recipients, of which there is at least
/// one.
pub struct Encryptor {
    recipients: Vec<Recipient>,
    work_factor: u8,
}

impl View for Encryptor {
    type V = EncryptorView;

    closed spec fn view(&self) -> EncryptorView {
        EncryptorView {
            recipients: recipients_view(self.recipients@),
            work_factor: self.work_factor,
        }
    }
}

fn wrap_for(recipient: &Recipient, file_key: &FileKey, seed: &[u8], log_n: u8) -> (stanza: Stanza)
    requires
        seed@.len() == SEED_LEN,
        work_factor_allowed(log_n),
    ensures
        stanza@ == wrap_spec(recipient@, file_key@, seed@, log_n),
        wrap_sound(recipient@, file_key@, seed@, log_n),
{
    match recipient {
        Recipient::PublicKey(public) => {
            let bytes = copy_range(seed, 0, SEED_LEN);
            assert(bytes@ =~= seed@);
            let ephemeral = SecretKey::from_vec(bytes);
            crate::format::x25519::wrap(public, file_key, &ephemeral)
        },
        Recipient::Passphrase(passphrase) => {
            let salt = slice_subrange(seed, 0, SALT_LEN);
            assert(salt@ =~= seed@.take(SALT_LEN as int));
            match crate::format::scrypt::wrap(passphrase.as_bytes(), file_key, salt, log_n) {
                Some(stanza) => stanza,
                None => unreached(),
            }
        },
    }
}

impl Encryptor {
    #[verifier::type_invariant]
    spec fn inv(self) -> bool {
        self.recipients@.len() > 0 && work_factor_allowed(self.work_factor)
    }

    /// An encryptor for `recipients`, or `NoRecipients` where there is
    /// none. Passphrases are stretched with the default work factor.
    pub fn with_recipients(recipients: Vec<Recipient>) -> (r: Result<Encryptor, Error>)
        ensures
            match r {
                Ok(e) => recipients@.len() > 0 && e@ == (EncryptorView {
                    recipients: recipients_view(recipients@),
                    work_factor: DEFAULT_WORK_FACTOR,
                }),
                Err(e) => e == Error::NoRecipients && recipients@.len() == 0,
            },
    {
        if recipients.len() == 0 {
            return Err(Error::NoRecipients);
        }
        let ok = is_work_factor_allowed(DEFAULT_WORK_FACTOR);
        assert(ok);
        Ok(Encryptor { recipients, work_factor: DEFAULT_WORK_FACTOR })
    }

    /// An encryptor for whoever knows `passphrase`, stretched with the
    /// default work factor.
    pub fn with_passphrase(passphrase: SecretBytes) -> (e: Encryptor)
        ensures
            e@ == (EncryptorView {
                recipients: seq![RecipientView::Passphrase(passphrase@)],
                work_factor: DEFAULT_WORK_FACTOR,
            }),
    {
        let mut recipients: Vec<Recipient> = Vec::new();
        recipients.push(Recipient::Passphrase(passphrase));
        let ok = is_work_factor_allowed(DEFAULT_WORK_FACTOR);
        assert(ok);
        let e = Encryptor { recipients, work_factor: DEFAULT_WORK_FACTOR };
        assert(e@.recipients =~= seq![RecipientView::Passphrase(passphrase@)]);
        e
    }

    /// The work factor with which passphrases are stretched.
    pub fn work_factor(&self) -> (log_n: u8)
        ensures
            log_n == self@.work_factor,
            work_factor_allowed(log_n),
    {
        proof {
            use_type_invariant(self);
        }
        self.work_factor
    }

    /// The same encryptor with the work factor `log_n` for passphrases, or
    /// `MalformedStanza` where no stanza may name `log_n`.
    pub fn with_work_factor(self, log_n: u8) -> (r: Result<Encryptor, Error>)
        ensures
            match r {
                Ok(e) => work_factor_allowed(log_n) && e@ == (EncryptorView {
                    recipients: self@.recipients,
                    work_factor: log_n,
                }),
                Err(e) => e == Error::MalformedStanza && !work_factor_allowed(log_n),
            },
    {
        proof {
            use_type_invariant(&self);
        }
        if !is_work_factor_allowed(log_n) {
            return Err(Error::MalformedStanza);
        }
        Ok(Encryptor { recipients: self.recipients, work_factor: log_n })
    }

    /// Makes the header of a message with the random bytes `entropy`.
    ///
    /// Gives the bytes of the header and the file key, or `RandomSource`
    /// where `entropy` is too short.
    fn header_with_entropy(&self, entropy: &[u8]) -> (r: Result<(Vec<u8>, FileKey), Error>)
        ensures
            match r {
                Ok((header, file_key)) => {
                    &&& header@ == header_for(self@.recipients, self@.work_factor, entropy@)
                    &&& file_key@ == entropy@.take(FILE_KEY_LEN as int)
                    &&& header_sound(self@.recipients, self@.work_factor, entropy@)
                },
                Err(e) => e == Error::RandomSource && entropy@.len() < entropy_needed(
                    self@.recipients.len(),
                ),
            },
    {
        proof {
            use_type_invariant(self);
        }
        let n = self.recipients.len();
        let len = entropy.len();
        if len < FILE_KEY_LEN || (len - FILE_KEY_LEN) / SEED_LEN < n {
            return Err(Error::RandomSource);
        }
        let key_bytes = copy_range(entropy, 0, FILE_KEY_LEN);
        assert(key_bytes@ =~= entropy@.take(FILE_KEY_LEN as int));
        let file_key = FileKey::from_vec(key_bytes);
        let ghost recipients = self@.recipients;
        let log_n = self.work_factor;
        let mut stanzas: Vec<Stanza> = Vec::new();
        let mut i: usize = 0;
        while i < n
            invariant
                i <= n == self.recipients@.len(),
                len == entropy@.len(),
                FILE_KEY_LEN + SEED_LEN * n <= len,
                recipients == recipients_view(self.recipients@),
                work_factor_allowed(log_n),
                file_key@ == entropy@.take(FILE_KEY_LEN as int),
                stanzas@.len() == i,
                forall|j: int|
                    0 <= j < i ==> (#[trigger] stanzas@[j])@ == wrap_spec(
                        recipients[j],
                        file_key@,
                        seed_of(entropy@, j),
                        log_n,
                    ),
                forall|j: int|
                    0 <= j < i ==> wrap_sound(
                        #[trigger] recipients[j],
                        file_key@,
                        seed_of(entropy@, j),
                        log_n,
                    ),
            decreases n - i,
        {
            let from = FILE_KEY_LEN + SEED_LEN * i;
            let seed = slice_subrange(entropy, from, from + SEED_LEN);
            assert(seed@ =~= seed_of(entropy@, i as int));
            assert(recipients[i as int] == self.recipients@[i as int]@);
            let stanza = wrap_for(&self.recipients[i], &file_key, seed, log_n);
            stanzas.push(stanza);
            i += 1;
        }
        let ghost views = stanzas_for(recipients, file_key@, entropy@, log_n);
        assert(stanzas_view(stanzas@) =~= views);
        let header = Header::new(stanzas, &file_key);
        let out = header.write();
        proof {
            assert(header@ == HeaderView { stanzas: views, mac: header_mac_spec(file_key@, views) });
        }
        Ok((out, file_key))
    }

    /// Starts a message with random bytes from the system.
    ///
    /// Gives the bytes of the header and a writer for the payload, or
    /// `RandomSource` where the system gives no random bytes. The header
    /// and then what the writer gives out are a message that
    /// `encrypt_spec` describes.
    pub fn start_output(&self) -> (r: Result<(Vec<u8>, StreamWriter), Error>)
        ensures
            match r {
                Ok((header, writer)) => exists|entropy: Seq<u8>|
                    {
                        &&& header@ == #[trigger] header_for(
                            self@.recipients,
                            self@.work_factor,
                            entropy,
                        )
                        &&& header_sound(self@.recipients, self@.work_factor, entropy)
                        &&& writer.key() == payload_key_spec(entropy.take(FILE_KEY_LEN as int))
                        &&& writer.counter() == 0
                        &&& writer.buffered() == Seq::<u8>::empty()
                    },
                Err(e) => e == Error::RandomSource,
            },
    {
        let entropy = match self.draw_entropy() {
            Some(v) => v,
            None => { return Err(Error::RandomSource); },
        };
        match self.start_output_with_entropy(entropy.as_bytes()) {
            Ok(v) => Ok(v),
            Err(e) => Err(e),
        }
    }

    /// Starts a message with the random bytes `entropy`: 16 for the file
    /// key, then 32 for each recipient.
    ///
    /// Gives the bytes of the header and a writer for the payload, or
    /// `RandomSource` where `entropy` is too short.
    pub fn start_output_with_entropy(&self, entropy: &[u8]) -> (r: Result<
        (Vec<u8>, StreamWriter),
        Error,
    >)
        ensures
            match r {
                Ok((header, writer)) => {
                    &&& header@ == header_for(self@.recipients, self@.work_factor, entropy@)
                    &&& header_sound(self@.recipients, self@.work_factor, entropy@)
                    &&& writer.key() == payload_key_spec(entropy@.take(FILE_KEY_LEN as int))
                    &&& writer.counter() == 0
                    &&& writer.buffered() == Seq::<u8>::empty()
                },
                Err(e) => e == Error::RandomSource && entropy@.len() < entropy_needed(
                    self@.recipients.len(),
                ),
            },
    {
        let (header, file_key) = match self.header_with_entropy(entropy) {
            Ok(v) => v,
            Err(e) => { return Err(e); },
        };
        Ok((header, StreamWriter::new(&file_key)))
    }

    /// Draws the random bytes that a message needs from the system.
    ///
    /// Asks the system for as many bytes as `entropy_len` says and gives
    /// what `drawn_entropy` makes of the answer. Nothing is drawn, and
    /// nothing given, where the number of bytes does not fit a `usize`.
    /// Whether the system gives any bytes is not for this function to say.
    fn draw_entropy(&self) -> (r: Option<SecretBytes>)
        ensures
            r matches Some(entropy) ==> entropy@.len() == entropy_needed(self@.recipients.len()),
            entropy_needed(self@.recipients.len()) > usize::MAX ==> r is None,
    {
        let needed = match self.entropy_len() {
            Some(v) => v,
            None => { return None; },
        };
        Encryptor::drawn_entropy(random_bytes(needed))
    }

    /// The number of random bytes that a message for these recipients
    /// needs: 16 for the file key, then 32 for each recipient. `None`
    /// where that number does not fit a `usize`.
    pub fn entropy_len(&self) -> (r: Option<usize>)
        ensures
            match r {
                Some(n) => n == entropy_needed(self@.recipients.len()),
                None => entropy_needed(self@.recipients.len()) > usize::MAX,
            },
    {
        let seeds = match self.recipients.len().checked_mul(SEED_LEN) {
            Some(v) => v,
            None => { return None; },
        };
        seeds.checked_add(FILE_KEY_LEN)
    }

    /// What is made of the system's answer to a request for random bytes:
    /// the bytes that it gave, held as a secret, and nothing where it gave
    /// none.
    fn drawn_entropy(drawn: Option<Vec<u8>>) -> (r: Option<SecretBytes>)
        ensures
            secret_view(r) == crate::primitives::option_view(drawn),
    {
        match drawn {
            Some(bytes) => Some(SecretBytes::new(bytes)),
            None => None,
        }
    }

    /// Encrypts `plaintext` in the format `format` with random bytes from
    /// the system.
    ///
    /// Gives a message that `encrypt_spec` describes for some random
    /// bytes, or `RandomSource` where the system gives none. The identity
    /// that the first recipient stands for decrypts the message to
    /// `plaintext`.
    pub fn wrap_output(&self, plaintext: &[u8], format: Format) -> (r: Result<Vec<u8>, Error>)
        ensures
            match r {
                Ok(out) => {
                    &&& exists|entropy: Seq<u8>|
                        out@ == #[trigger] message_spec(
                            format,
                            encrypt_spec(
                                self@.recipients,
                                self@.work_factor,
                                entropy,
                                plaintext@,
                            ),
                        ) && encryption_sound(
                            self@.recipients,
                            self@.work_factor,
                            entropy,
                            plaintext@,
                        )
                    &&& forall|identities: Seq<IdentityView>|
                        identities.len() > 0 && identity_matches(
                            identities[0],
                            self@.recipients[0],
                        ) ==> #[trigger] trial_decrypt_spec(identities, out@) == Ok::<
                            Seq<u8>,
                            Error,
                        >(plaintext@)
                },
                Err(e) => e == Error::RandomSource,
            },
    {
        let entropy = match self.draw_entropy() {
            Some(v) => v,
            None => { return Err(Error::RandomSource); },
        };
        match self.wrap_with_entropy(plaintext, format, entropy.as_bytes()) {
            Ok(out) => Ok(out),
            Err(e) => Err(e),
        }
    }

    /// Encrypts `plaintext` in the format `format` with the random bytes
    /// `entropy`: 16 for the file key, then 32 for each recipient.
    ///
    /// Gives the message that `encrypt_spec` describes, or `RandomSource`
    /// where `entropy` is too short. The identity that the first recipient
    /// stands for decrypts the message to `plaintext`.
    pub fn wrap_with_entropy(&self, plaintext: &[u8], format: Format, entropy: &[u8]) -> (r: Result<
        Vec<u8>,
        Error,
    >)
        ensures
            match r {
                Ok(out) => {
                    &&& out@ == message_spec(
                        format,
                        encrypt_spec(self@.recipients, self@.work_factor, entropy@, plaintext@),
                    )
                    &&& encryption_sound(
                        self@.recipients,
                        self@.work_factor,
                        entropy@,
                        plaintext@,
                    )
                    &&& forall|identities: Seq<IdentityView>|
                        identities.len() > 0 && identity_matches(
                            identities[0],
                            self@.recipients[0],
                        ) ==> #[trigger] trial_decrypt_spec(identities, out@) == Ok::<
                            Seq<u8>,
                            Error,
                        >(plaintext@)
                },
                Err(e) => e == Error::RandomSource && entropy@.len() < entropy_needed(
                    self@.recipients.len(),
                ),
            },
    {
        proof {
            use_type_invariant(self);
        }
        let (mut out, file_key) = match self.header_with_entropy(entropy) {
            Ok(v) => v,
            Err(e) => { return Err(e); },
        };
        let ghost recipients = self@.recipients;
        let ghost log_n = self@.work_factor;
        let payload = encrypt_payload(&file_key, plaintext);
        append(&mut out, payload.as_slice());
        let out = match format {
            Format::Binary => out,
            Format::AsciiArmor => armor(out.as_slice()),
        };
        proof {
            assert forall|identities: Seq<IdentityView>|
                identities.len() > 0 && identity_matches(
                    identities[0],
                    recipients[0],
                ) implies #[trigger] trial_decrypt_spec(identities, out@) == Ok::<Seq<u8>, Error>(
                plaintext@,
            ) by {
                lemma_message_round_trip(
                    recipients,
                    log_n,
                    entropy@,
                    plaintext@,
                    format,
                    identities,
                    0,
                );
            }
        }
        Ok(out)
    }
}

} // verus!

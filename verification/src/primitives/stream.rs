//! The payload of a message: plaintext cut into chunks of 64 KiB, each
//! sealed on its own under a nonce that holds the chunk's number and says
//! whether the chunk is the last.
//!
//! Every chunk but the last holds exactly 64 KiB. The last chunk is shorter
//! and may be empty: a message always ends with a chunk that is marked as
//! final, so a payload that was cut short is told from a whole one.

use crate::error::Error;
use crate::keys::FileKey;
use crate::secret::SecretBytes;
use crate::primitives::{
    aead_open, aead_opened, aead_seal, aead_sealed, hkdf_output, hkdf_sha256, seal_opens, KEY_LEN,
    NONCE_LEN, TAG_LEN,
};
use crate::util::append;
use vstd::prelude::*;
use vstd::slice::slice_subrange;

verus! {

/// The number of plaintext bytes in every chunk but the last.
pub const CHUNK_SIZE: usize = 65536;

/// The number of bytes of a sealed chunk that is not the last.
pub const ENCRYPTED_CHUNK_SIZE: usize = 65552;

/// The label under which the payload's key is derived: `payload`.
pub const PAYLOAD_LABEL: [u8; 7] = [112, 97, 121, 108, 111, 97, 100];

/// The number `n` in `width` bytes, most significant byte first; the bytes
/// of `n` that do not fit are left out.
pub open spec fn be_bytes_spec(n: nat, width: nat) -> Seq<u8>
    decreases width,
{
    if width == 0 {
        Seq::empty()
    } else {
        be_bytes_spec(n / 256, (width - 1) as nat).push((n % 256) as u8)
    }
}

/// The nonce of chunk number `counter`: the number in 11 bytes, most
/// significant first, then 1 for the last chunk and 0 for any other.
pub open spec fn nonce_spec(counter: nat, last: bool) -> Seq<u8> {
    be_bytes_spec(counter, 11).push(if last { 1u8 } else { 0u8 })
}

/// The key under which the payload of a message with this file key is
/// sealed.
pub open spec fn payload_key_spec(file_key: Seq<u8>) -> Seq<u8> {
    hkdf_output(Seq::empty(), file_key, PAYLOAD_LABEL@)
}

/// The sealed chunks of `plaintext`, the first of them numbered `counter`.
pub open spec fn encrypt_from(key: Seq<u8>, counter: nat, plaintext: Seq<u8>) -> Seq<u8>
    decreases plaintext.len(),
{
    if plaintext.len() < CHUNK_SIZE {
        aead_sealed(key, nonce_spec(counter, true), plaintext)
    } else {
        aead_sealed(key, nonce_spec(counter, false), plaintext.take(CHUNK_SIZE as int))
            + encrypt_from(key, counter + 1, plaintext.skip(CHUNK_SIZE as int))
    }
}

/// What the chunks in `ciphertext` hold, the first of them numbered
/// `counter`.
///
/// A chunk of full size is opened as one that is not the last, and only
/// where that fails as the last. A shorter chunk must be the last. An input
/// that ends before a last chunk is `StreamTruncated`; a chunk that does
/// not open, and anything after the last chunk, is `DecryptionFailed`.
pub open spec fn decrypt_from(key: Seq<u8>, counter: nat, ciphertext: Seq<u8>) -> Result<
    Seq<u8>,
    Error,
>
    decreases ciphertext.len(),
{
    if ciphertext.len() == 0 {
        Err(Error::StreamTruncated)
    } else if ciphertext.len() < ENCRYPTED_CHUNK_SIZE {
        match aead_opened(key, nonce_spec(counter, true), ciphertext) {
            Some(p) => Ok(p),
            None => Err(Error::DecryptionFailed),
        }
    } else {
        let chunk = ciphertext.take(ENCRYPTED_CHUNK_SIZE as int);
        let rest = ciphertext.skip(ENCRYPTED_CHUNK_SIZE as int);
        match aead_opened(key, nonce_spec(counter, false), chunk) {
            Some(p) => match decrypt_from(key, counter + 1, rest) {
                Ok(q) => Ok(p + q),
                Err(e) => Err(e),
            },
            None => match aead_opened(key, nonce_spec(counter, true), chunk) {
                Some(p) => if rest.len() == 0 {
                    Ok(p)
                } else {
                    Err(Error::DecryptionFailed)
                },
                None => Err(Error::DecryptionFailed),
            },
        }
    }
}

/// The payload of `plaintext` in a message with the file key `file_key`.
pub open spec fn stream_encrypt_spec(file_key: Seq<u8>, plaintext: Seq<u8>) -> Seq<u8> {
    encrypt_from(payload_key_spec(file_key), 0, plaintext)
}

/// The plaintext of the payload `ciphertext` in a message with the file key
/// `file_key`.
pub open spec fn stream_decrypt_spec(file_key: Seq<u8>, ciphertext: Seq<u8>) -> Result<
    Seq<u8>,
    Error,
> {
    decrypt_from(payload_key_spec(file_key), 0, ciphertext)
}

/// Whether every chunk of `plaintext`, the first of them numbered
/// `counter`, is sealed to 16 bytes more and opens to itself.
pub open spec fn chunks_open(key: Seq<u8>, counter: nat, plaintext: Seq<u8>) -> bool
    decreases plaintext.len(),
{
    if plaintext.len() < CHUNK_SIZE {
        seal_opens(key, nonce_spec(counter, true), plaintext)
    } else {
        seal_opens(key, nonce_spec(counter, false), plaintext.take(CHUNK_SIZE as int))
            && chunks_open(key, counter + 1, plaintext.skip(CHUNK_SIZE as int))
    }
}

/// `width` bytes are `width` bytes.
pub proof fn lemma_be_bytes_len(n: nat, width: nat)
    ensures
        be_bytes_spec(n, width).len() == width,
    decreases width,
{
    if width > 0 {
        lemma_be_bytes_len(n / 256, (width - 1) as nat);
    }
}

/// 256 to the power of `width`: the number of values of `width` bytes.
pub open spec fn pow256(width: nat) -> nat
    decreases width,
{
    if width == 0 {
        1
    } else {
        256 * pow256((width - 1) as nat)
    }
}

/// Two numbers that fit `width` bytes and have the same bytes are the same.
pub proof fn lemma_be_bytes_injective(a: nat, b: nat, width: nat)
    requires
        a < pow256(width),
        b < pow256(width),
        be_bytes_spec(a, width) == be_bytes_spec(b, width),
    ensures
        a == b,
    decreases width,
{
    if width > 0 {
        let less = (width - 1) as nat;
        let bytes_a = be_bytes_spec(a, width);
        let bytes_b = be_bytes_spec(b, width);
        lemma_be_bytes_len(a / 256, less);
        lemma_be_bytes_len(b / 256, less);
        assert(bytes_a.last() == (a % 256) as u8);
        assert(bytes_b.last() == (b % 256) as u8);
        assert(bytes_a.drop_last() =~= be_bytes_spec(a / 256, less));
        assert(bytes_b.drop_last() =~= be_bytes_spec(b / 256, less));
        lemma_be_bytes_injective(a / 256, b / 256, less);
    }
}

/// Every number of a chunk that a writer or a reader can count fits the 11
/// bytes that a nonce has for it.
pub proof fn lemma_counter_fits(counter: u64)
    ensures
        counter < pow256(11),
{
    reveal_with_fuel(pow256, 12);
}

/// No two chunks of a payload have the same nonce: the nonce tells the
/// number of the chunk and whether it is the last.
pub proof fn lemma_nonce_unique(a: nat, last_a: bool, b: nat, last_b: bool)
    requires
        a < pow256(11),
        b < pow256(11),
        nonce_spec(a, last_a) == nonce_spec(b, last_b),
    ensures
        a == b,
        last_a == last_b,
{
    let nonce_a = nonce_spec(a, last_a);
    let nonce_b = nonce_spec(b, last_b);
    lemma_be_bytes_len(a, 11);
    lemma_be_bytes_len(b, 11);
    assert(nonce_a.last() == nonce_b.last());
    assert(nonce_a.drop_last() =~= be_bytes_spec(a, 11));
    assert(nonce_b.drop_last() =~= be_bytes_spec(b, 11));
    lemma_be_bytes_injective(a, b, 11);
}

/// A payload whose chunks open to themselves has 16 bytes more than its
/// plaintext for every chunk, and there is one chunk more than the
/// plaintext has full chunks.
pub proof fn lemma_encrypt_len(key: Seq<u8>, counter: nat, plaintext: Seq<u8>)
    requires
        chunks_open(key, counter, plaintext),
    ensures
        encrypt_from(key, counter, plaintext).len() == plaintext.len() + TAG_LEN * (plaintext.len()
            / CHUNK_SIZE as nat + 1),
    decreases plaintext.len(),
{
    if plaintext.len() >= CHUNK_SIZE {
        lemma_encrypt_len(key, counter + 1, plaintext.skip(CHUNK_SIZE as int));
    }
}

/// Decrypting undoes encrypting: a payload whose chunks open to themselves
/// is decrypted to its plaintext.
pub proof fn lemma_stream_round_trip(key: Seq<u8>, counter: nat, plaintext: Seq<u8>)
    requires
        chunks_open(key, counter, plaintext),
    ensures
        decrypt_from(key, counter, encrypt_from(key, counter, plaintext)) == Ok::<Seq<u8>, Error>(
            plaintext,
        ),
    decreases plaintext.len(),
{
    let ct = encrypt_from(key, counter, plaintext);
    if plaintext.len() >= CHUNK_SIZE {
        let head = plaintext.take(CHUNK_SIZE as int);
        let tail = plaintext.skip(CHUNK_SIZE as int);
        let sealed = aead_sealed(key, nonce_spec(counter, false), head);
        lemma_stream_round_trip(key, counter + 1, tail);
        assert(ct.take(ENCRYPTED_CHUNK_SIZE as int) =~= sealed);
        assert(ct.skip(ENCRYPTED_CHUNK_SIZE as int) =~= encrypt_from(key, counter + 1, tail));
        assert(head + tail =~= plaintext);
    }
}

/// Whether `ciphertext` is made of whole chunks of full size, the first of
/// them numbered `counter`, each of which opens as a chunk that is not the
/// last.
pub open spec fn only_inner_chunks(key: Seq<u8>, counter: nat, ciphertext: Seq<u8>) -> bool
    decreases ciphertext.len(),
{
    ciphertext.len() == 0 || (ciphertext.len() >= ENCRYPTED_CHUNK_SIZE && aead_opened(
        key,
        nonce_spec(counter, false),
        ciphertext.take(ENCRYPTED_CHUNK_SIZE as int),
    ) is Some && only_inner_chunks(
        key,
        counter + 1,
        ciphertext.skip(ENCRYPTED_CHUNK_SIZE as int),
    ))
}

/// A payload without its last chunk is refused as truncated, though every
/// chunk in it opens.
pub proof fn lemma_missing_final_chunk(key: Seq<u8>, counter: nat, ciphertext: Seq<u8>)
    requires
        only_inner_chunks(key, counter, ciphertext),
    ensures
        decrypt_from(key, counter, ciphertext) == Err::<Seq<u8>, Error>(Error::StreamTruncated),
    decreases ciphertext.len(),
{
    if ciphertext.len() > 0 {
        lemma_missing_final_chunk(
            key,
            counter + 1,
            ciphertext.skip(ENCRYPTED_CHUNK_SIZE as int),
        );
    }
}

/// The first `chunks` chunks of an encrypted payload, where the plaintext
/// has at least as many full chunks, open as chunks that are not the last.
pub proof fn lemma_prefix_only_inner_chunks(
    key: Seq<u8>,
    counter: nat,
    plaintext: Seq<u8>,
    chunks: nat,
)
    requires
        chunks_open(key, counter, plaintext),
        chunks * CHUNK_SIZE <= plaintext.len(),
    ensures
        chunks * ENCRYPTED_CHUNK_SIZE <= encrypt_from(key, counter, plaintext).len(),
        only_inner_chunks(
            key,
            counter,
            encrypt_from(key, counter, plaintext).take(chunks * ENCRYPTED_CHUNK_SIZE),
        ),
    decreases chunks,
{
    let ct = encrypt_from(key, counter, plaintext);
    lemma_encrypt_len(key, counter, plaintext);
    if chunks > 0 {
        let head = plaintext.take(CHUNK_SIZE as int);
        let tail = plaintext.skip(CHUNK_SIZE as int);
        let sealed = aead_sealed(key, nonce_spec(counter, false), head);
        let more = (chunks - 1) as nat;
        lemma_prefix_only_inner_chunks(key, counter + 1, tail, more);
        let cut = ct.take(chunks * ENCRYPTED_CHUNK_SIZE);
        assert(cut.take(ENCRYPTED_CHUNK_SIZE as int) =~= sealed);
        assert(cut.skip(ENCRYPTED_CHUNK_SIZE as int) =~= encrypt_from(key, counter + 1, tail).take(
            more * ENCRYPTED_CHUNK_SIZE,
        ));
    }
}

/// The first `chunks` chunks of full size of `payload`: what is left of a
/// payload that was cut off after them.
pub open spec fn truncated_spec(payload: Seq<u8>, chunks: nat) -> Seq<u8> {
    payload.take(chunks * ENCRYPTED_CHUNK_SIZE)
}

/// A payload that was cut off after some of its full chunks, before its
/// last chunk, is refused as truncated.
pub proof fn lemma_truncation_rejected(key: Seq<u8>, plaintext: Seq<u8>, chunks: nat)
    requires
        chunks_open(key, 0, plaintext),
        chunks * CHUNK_SIZE <= plaintext.len(),
    ensures
        decrypt_from(key, 0, truncated_spec(encrypt_from(key, 0, plaintext), chunks)) == Err::<
            Seq<u8>,
            Error,
        >(Error::StreamTruncated),
{
    lemma_prefix_only_inner_chunks(key, 0, plaintext, chunks);
    lemma_missing_final_chunk(
        key,
        0,
        encrypt_from(key, 0, plaintext).take(chunks * ENCRYPTED_CHUNK_SIZE),
    );
}

fn be_bytes(n: u64, width: usize) -> (out: Vec<u8>)
    ensures
        out@ == be_bytes_spec(n as nat, width as nat),
    decreases width,
{
    if width == 0 {
        Vec::new()
    } else {
        let mut out = be_bytes(n / 256, width - 1);
        out.push((n % 256) as u8);
        out
    }
}

fn nonce(counter: u64, last: bool) -> (out: Vec<u8>)
    ensures
        out@ == nonce_spec(counter as nat, last),
        out@.len() == NONCE_LEN,
{
    let mut out = be_bytes(counter, 11);
    proof {
        lemma_be_bytes_len(counter as nat, 11);
    }
    out.push(if last { 1u8 } else { 0u8 });
    out
}

fn payload_key(file_key: &FileKey) -> (key: SecretBytes)
    ensures
        key@ == payload_key_spec(file_key@),
        key@.len() == KEY_LEN,
{
    let salt: Vec<u8> = Vec::new();
    SecretBytes::new(hkdf_sha256(salt.as_slice(), file_key.as_bytes(), PAYLOAD_LABEL.as_slice()))
}

fn seal_chunk(key: &[u8], counter: u64, last: bool, chunk: &[u8]) -> (sealed: Vec<u8>)
    requires
        key@.len() == KEY_LEN,
        chunk@.len() <= CHUNK_SIZE,
    ensures
        sealed@ == aead_sealed(key@, nonce_spec(counter as nat, last), chunk@),
        seal_opens(key@, nonce_spec(counter as nat, last), chunk@),
{
    let nonce = nonce(counter, last);
    aead_seal(key, nonce.as_slice(), chunk)
}

fn open_chunk(key: &[u8], counter: u64, last: bool, chunk: &[u8]) -> (plain: Option<Vec<u8>>)
    requires
        key@.len() == KEY_LEN,
    ensures
        crate::primitives::option_view(plain) == aead_opened(
            key@,
            nonce_spec(counter as nat, last),
            chunk@,
        ),
{
    let nonce = nonce(counter, last);
    aead_open(key, nonce.as_slice(), chunk)
}

/// Encrypts `plaintext` as the payload of a message with the file key
/// `file_key`.
///
/// The result is the sealed chunks of `plaintext`, it is 16 bytes longer
/// than `plaintext` for every chunk, and decrypting it gives `plaintext`
/// back. Cut off after any number of its full chunks, before its last
/// chunk, it is refused as truncated.
pub fn encrypt_payload(file_key: &FileKey, plaintext: &[u8]) -> (out: Vec<u8>)
    ensures
        out@ == stream_encrypt_spec(file_key@, plaintext@),
        out@.len() == plaintext@.len() + TAG_LEN * (plaintext@.len() / CHUNK_SIZE as nat + 1),
        chunks_open(payload_key_spec(file_key@), 0, plaintext@),
        stream_decrypt_spec(file_key@, out@) == Ok::<Seq<u8>, Error>(plaintext@),
        forall|chunks: nat|
            chunks * CHUNK_SIZE <= plaintext@.len() ==> stream_decrypt_spec(
                file_key@,
                #[trigger] truncated_spec(out@, chunks),
            ) == Err::<Seq<u8>, Error>(Error::StreamTruncated),
{
    let key = payload_key(file_key);
    let n = plaintext.len();
    let mut out: Vec<u8> = Vec::new();
    let mut i: usize = 0;
    let mut counter: u64 = 0;
    proof {
        assert(plaintext@.skip(0) =~= plaintext@);
        assert(out@ + encrypt_from(key@, 0, plaintext@) =~= encrypt_from(key@, 0, plaintext@));
    }
    while n - i >= CHUNK_SIZE
        invariant
            i <= n == plaintext@.len(),
            key@.len() == KEY_LEN,
            counter * CHUNK_SIZE == i,
            out@ + encrypt_from(key@, counter as nat, plaintext@.skip(i as int)) == encrypt_from(
                key@,
                0,
                plaintext@,
            ),
            chunks_open(key@, counter as nat, plaintext@.skip(i as int)) ==> chunks_open(
                key@,
                0,
                plaintext@,
            ),
        decreases n - i,
    {
        let ghost before = out@;
        let ghost rest = plaintext@.skip(i as int);
        let chunk = slice_subrange(plaintext, i, i + CHUNK_SIZE);
        let sealed = seal_chunk(key.as_bytes(), counter, false, chunk);
        append(&mut out, sealed.as_slice());
        proof {
            assert(rest.take(CHUNK_SIZE as int) =~= chunk@);
            assert(rest.skip(CHUNK_SIZE as int) =~= plaintext@.skip(i + CHUNK_SIZE));
            assert(before + (sealed@ + encrypt_from(
                key@,
                (counter + 1) as nat,
                rest.skip(CHUNK_SIZE as int),
            )) =~= out@ + encrypt_from(
                key@,
                (counter + 1) as nat,
                plaintext@.skip(i + CHUNK_SIZE),
            ));
        }
        i += CHUNK_SIZE;
        counter += 1;
    }
    let ghost before = out@;
    let chunk = slice_subrange(plaintext, i, n);
    let sealed = seal_chunk(key.as_bytes(), counter, true, chunk);
    append(&mut out, sealed.as_slice());
    proof {
        assert(plaintext@.skip(i as int) =~= chunk@);
        assert(chunks_open(key@, counter as nat, chunk@));
        lemma_stream_round_trip(key@, 0, plaintext@);
        lemma_encrypt_len(key@, 0, plaintext@);
        assert forall|chunks: nat| chunks * CHUNK_SIZE <= plaintext@.len() implies stream_decrypt_spec(
            file_key@,
            #[trigger] truncated_spec(out@, chunks),
        ) == Err::<Seq<u8>, Error>(Error::StreamTruncated) by {
            lemma_truncation_rejected(key@, plaintext@, chunks);
        }
    }
    out
}

/// The result of decrypting after `done` has been decrypted.
spec fn plain_after(done: Seq<u8>, r: Result<Seq<u8>, Error>) -> Result<Seq<u8>, Error> {
    match r {
        Ok(p) => Ok(done + p),
        Err(e) => Err(e),
    }
}

/// The value of a decryption's result.
pub open spec fn result_view(r: Result<Vec<u8>, Error>) -> Result<Seq<u8>, Error> {
    match r {
        Ok(p) => Ok(p@),
        Err(e) => Err(e),
    }
}

/// Decrypts `ciphertext` as the payload of a message with the file key
/// `file_key`.
///
/// Gives the plaintext of the chunks, or says why there is none:
/// `StreamTruncated` where the input ends before a last chunk,
/// `DecryptionFailed` where a chunk does not open or data follows the last
/// chunk.
pub fn decrypt_payload(file_key: &FileKey, ciphertext: &[u8]) -> (r: Result<Vec<u8>, Error>)
    ensures
        result_view(r) == stream_decrypt_spec(file_key@, ciphertext@),
{
    let key = payload_key(file_key);
    let n = ciphertext.len();
    let mut out: Vec<u8> = Vec::new();
    let mut i: usize = 0;
    let mut counter: u64 = 0;
    proof {
        assert(ciphertext@.skip(0) =~= ciphertext@);
        let r = decrypt_from(key@, 0, ciphertext@);
        if r is Ok {
            assert(out@ + r.unwrap() =~= r.unwrap());
        }
    }
    loop
        invariant
            i <= n == ciphertext@.len(),
            key@.len() == KEY_LEN,
            key@ == payload_key_spec(file_key@),
            counter * ENCRYPTED_CHUNK_SIZE == i,
            decrypt_from(key@, 0, ciphertext@) == plain_after(
                out@,
                decrypt_from(key@, counter as nat, ciphertext@.skip(i as int)),
            ),
        decreases n - i,
    {
        let ghost rest = ciphertext@.skip(i as int);
        let ghost done = out@;
        if n - i == 0 {
            return Err(Error::StreamTruncated);
        }
        if n - i < ENCRYPTED_CHUNK_SIZE {
            let chunk = slice_subrange(ciphertext, i, n);
            assert(rest =~= chunk@);
            match open_chunk(key.as_bytes(), counter, true, chunk) {
                Some(p) => {
                    append(&mut out, p.as_slice());
                    return Ok(out);
                },
                None => {
                    return Err(Error::DecryptionFailed);
                },
            }
        }
        let chunk = slice_subrange(ciphertext, i, i + ENCRYPTED_CHUNK_SIZE);
        proof {
            assert(rest.take(ENCRYPTED_CHUNK_SIZE as int) =~= chunk@);
            assert(rest.skip(ENCRYPTED_CHUNK_SIZE as int) =~= ciphertext@.skip(
                i + ENCRYPTED_CHUNK_SIZE,
            ));
        }
        match open_chunk(key.as_bytes(), counter, false, chunk) {
            Some(p) => {
                append(&mut out, p.as_slice());
                proof {
                    let r = decrypt_from(
                        key@,
                        (counter + 1) as nat,
                        ciphertext@.skip(i + ENCRYPTED_CHUNK_SIZE),
                    );
                    if r is Ok {
                        assert(done + (p@ + r.unwrap()) =~= out@ + r.unwrap());
                    }
                }
                i += ENCRYPTED_CHUNK_SIZE;
                counter += 1;
            },
            None => {
                match open_chunk(key.as_bytes(), counter, true, chunk) {
                    Some(p) => {
                        if n - i > ENCRYPTED_CHUNK_SIZE {
                            return Err(Error::DecryptionFailed);
                        }
                        append(&mut out, p.as_slice());
                        return Ok(out);
                    },
                    None => {
                        return Err(Error::DecryptionFailed);
                    },
                }
            },
        }
    }
}

/// The first `chunks` chunks of `data`, sealed as chunks that are not the
/// last and numbered from `start`.
pub open spec fn sealed_run_spec(key: Seq<u8>, start: nat, data: Seq<u8>, chunks: nat) -> Seq<u8>
    decreases chunks,
{
    if chunks == 0 {
        Seq::empty()
    } else {
        sealed_run_spec(key, start, data, (chunks - 1) as nat) + aead_sealed(
            key,
            nonce_spec((start + chunks - 1) as nat, false),
            data.subrange((chunks - 1) * CHUNK_SIZE, chunks * CHUNK_SIZE),
        )
    }
}

/// The first full chunks of a plaintext are sealed alike whatever follows
/// the plaintext.
pub proof fn lemma_sealed_run_prefix(
    key: Seq<u8>,
    start: nat,
    data: Seq<u8>,
    more: Seq<u8>,
    chunks: nat,
)
    requires
        chunks * CHUNK_SIZE <= data.len(),
    ensures
        sealed_run_spec(key, start, data + more, chunks) == sealed_run_spec(
            key,
            start,
            data,
            chunks,
        ),
    decreases chunks,
{
    if chunks > 0 {
        lemma_sealed_run_prefix(key, start, data, more, (chunks - 1) as nat);
        assert((data + more).subrange((chunks - 1) * CHUNK_SIZE, chunks * CHUNK_SIZE)
            =~= data.subrange((chunks - 1) * CHUNK_SIZE, chunks * CHUNK_SIZE));
    }
}

/// A payload is its first full chunks, sealed as chunks that are not the
/// last, and then the payload of what follows them.
pub proof fn lemma_sealed_run_then_rest(key: Seq<u8>, start: nat, data: Seq<u8>, chunks: nat)
    requires
        chunks * CHUNK_SIZE <= data.len(),
    ensures
        encrypt_from(key, start, data) == sealed_run_spec(key, start, data, chunks) + encrypt_from(
            key,
            start + chunks,
            data.skip(chunks * CHUNK_SIZE),
        ),
    decreases chunks,
{
    if chunks == 0 {
        assert(data.skip(0) =~= data);
        assert(sealed_run_spec(key, start, data, 0) + encrypt_from(key, start, data)
            =~= encrypt_from(key, start, data));
    } else {
        let before = (chunks - 1) as nat;
        lemma_sealed_run_then_rest(key, start, data, before);
        let rest = data.skip(before * CHUNK_SIZE);
        assert(rest.take(CHUNK_SIZE as int) =~= data.subrange(
            before * CHUNK_SIZE,
            chunks * CHUNK_SIZE,
        ));
        assert(rest.skip(CHUNK_SIZE as int) =~= data.skip(chunks * CHUNK_SIZE));
        assert(sealed_run_spec(key, start, data, before) + (aead_sealed(
            key,
            nonce_spec(start + before, false),
            rest.take(CHUNK_SIZE as int),
        ) + encrypt_from(key, start + chunks, data.skip(chunks * CHUNK_SIZE))) =~= sealed_run_spec(
            key,
            start,
            data,
            chunks,
        ) + encrypt_from(key, start + chunks, data.skip(chunks * CHUNK_SIZE)));
    }
}

/// Encrypts a payload piece by piece.
///
/// The writer takes plaintext in pieces of any size, gives out every chunk
/// as soon as it is full, and keeps less than a chunk. `finish` gives out
/// the last chunk. What was given out, in its order, is the payload of what
/// was written, in its order.
pub struct StreamWriter {
    key: SecretBytes,
    counter: u64,
    buffer: Vec<u8>,
}

impl StreamWriter {
    #[verifier::type_invariant]
    spec fn inv(self) -> bool {
        self.key@.len() == KEY_LEN && self.buffer@.len() < CHUNK_SIZE
    }

    /// The key under which the chunks are sealed.
    pub closed spec fn key(self) -> Seq<u8> {
        self.key@
    }

    /// The number of the next chunk.
    pub closed spec fn counter(self) -> nat {
        self.counter as nat
    }

    /// The plaintext that was written and not yet given out in a chunk.
    pub closed spec fn buffered(self) -> Seq<u8> {
        self.buffer@
    }

    /// Whether the chunks that `n` more bytes fill can still be numbered.
    pub open spec fn has_room(self, n: nat) -> bool {
        self.counter() + (self.buffered().len() + n) / (CHUNK_SIZE as nat) <= u64::MAX
    }

    /// A writer for the payload of a message with the file key `file_key`.
    pub fn new(file_key: &FileKey) -> (w: StreamWriter)
        ensures
            w.key() == payload_key_spec(file_key@),
            w.counter() == 0,
            w.buffered() == Seq::<u8>::empty(),
    {
        StreamWriter { key: payload_key(file_key), counter: 0, buffer: Vec::new() }
    }

    /// Whether the chunks that `n` more bytes fill can still be numbered.
    pub fn room_for(&self, n: usize) -> (b: bool)
        ensures
            b == self.has_room(n as nat),
    {
        proof {
            use_type_invariant(self);
        }
        let filled = self.buffer.len() as u128 + n as u128;
        self.counter as u128 + filled / (CHUNK_SIZE as u128) <= u64::MAX as u128
    }

    /// Takes `data` and gives out the chunks that it fills.
    ///
    /// What comes out is the full chunks of what was kept and `data`,
    /// sealed as chunks that are not the last; what is left of the two is
    /// kept.
    pub fn write(&mut self, data: &[u8]) -> (out: Vec<u8>)
        requires
            old(self).has_room(data@.len()),
        ensures
            final(self).key() == old(self).key(),
            ({
                let all = old(self).buffered() + data@;
                let chunks = all.len() / (CHUNK_SIZE as nat);
                &&& out@ == sealed_run_spec(old(self).key(), old(self).counter(), all, chunks)
                &&& final(self).counter() == old(self).counter() + chunks
                &&& final(self).buffered() == all.skip(chunks * CHUNK_SIZE)
            }),
    {
        proof {
            use_type_invariant(&*self);
        }
        let ghost all = old(self).buffered() + data@;
        let ghost first = old(self).counter();
        let ghost kept = old(self).buffered().len();
        let n = data.len();
        let mut out: Vec<u8> = Vec::new();
        let mut i: usize = 0;
        let ghost mut done: nat = 0;
        assert(self.buffer@ =~= all.subrange(0, kept as int));
        while n - i >= CHUNK_SIZE - self.buffer.len()
            invariant
                i <= n == data@.len(),
                all == old(self).buffered() + data@,
                kept == old(self).buffered().len(),
                first == old(self).counter(),
                first + all.len() / (CHUNK_SIZE as nat) <= u64::MAX,
                self.key@ == old(self).key(),
                self.key@.len() == KEY_LEN,
                self.buffer@.len() < CHUNK_SIZE,
                self.counter == first + done,
                done * CHUNK_SIZE + self.buffer@.len() == kept + i,
                self.buffer@ == all.subrange(done * CHUNK_SIZE, kept + i),
                out@ == sealed_run_spec(self.key@, first, all, done),
            decreases n - i,
        {
            let room = CHUNK_SIZE - self.buffer.len();
            let mut chunk: Vec<u8> = Vec::new();
            append(&mut chunk, self.buffer.as_slice());
            append(&mut chunk, slice_subrange(data, i, i + room));
            proof {
                assert(chunk@ =~= all.subrange(done * CHUNK_SIZE, (done + 1) * CHUNK_SIZE));
                assert((done + 1) * CHUNK_SIZE <= all.len());
            }
            let sealed = seal_chunk(self.key.as_bytes(), self.counter, false, chunk.as_slice());
            append(&mut out, sealed.as_slice());
            self.buffer = Vec::new();
            self.counter = self.counter + 1;
            i += room;
            proof {
                done = done + 1;
                assert(self.buffer@ =~= all.subrange(done * CHUNK_SIZE, kept + i));
            }
        }
        let mut kept_now: Vec<u8> = Vec::new();
        append(&mut kept_now, self.buffer.as_slice());
        append(&mut kept_now, slice_subrange(data, i, n));
        self.buffer = kept_now;
        proof {
            assert(all.len() / (CHUNK_SIZE as nat) == done);
            assert(self.buffer@ =~= all.skip(done * CHUNK_SIZE));
        }
        out
    }

    /// Gives out the last chunk: what was kept, sealed as the last chunk.
    pub fn finish(self) -> (out: Vec<u8>)
        ensures
            out@ == encrypt_from(self.key(), self.counter(), self.buffered()),
    {
        proof {
            use_type_invariant(&self);
        }
        seal_chunk(self.key.as_bytes(), self.counter, true, self.buffer.as_slice())
    }
}

/// Where the reader of a payload stands.
#[derive(Clone, Copy, Debug, PartialEq, Eq, Structural)]
pub enum StreamState {
    /// Chunks are expected: the last chunk has not come.
    Streaming,
    /// The last chunk has come: only the end of the input is expected.
    Final,
    /// The end of the input has come, or the payload has been refused.
    Closed,
}

/// The highest number that a chunk can have in a reader. The chunk with
/// this number can only be the last.
pub const MAX_COUNTER: u64 = 0xffff_ffff_ffff_ffff;

/// What a reader that stands at `state`, with `counter` the number of the
/// next chunk, makes of `chunk`: the next 65552 bytes of the payload, or
/// all that is left of it where that is less, and nothing at its end.
///
/// Gives the plaintext of the chunk or the reason to refuse the payload,
/// the number of the next chunk, and the state after the chunk.
pub open spec fn read_spec(key: Seq<u8>, counter: nat, state: StreamState, chunk: Seq<u8>) -> (
    Result<Seq<u8>, Error>,
    nat,
    StreamState,
) {
    match state {
        StreamState::Closed => (Err(Error::DecryptionFailed), counter, StreamState::Closed),
        StreamState::Final => if chunk.len() == 0 {
            (Ok(Seq::empty()), counter, StreamState::Closed)
        } else {
            (Err(Error::DecryptionFailed), counter, StreamState::Closed)
        },
        StreamState::Streaming => if chunk.len() == 0 {
            (Err(Error::StreamTruncated), counter, StreamState::Closed)
        } else if chunk.len() > ENCRYPTED_CHUNK_SIZE {
            (Err(Error::DecryptionFailed), counter, StreamState::Closed)
        } else if chunk.len() == ENCRYPTED_CHUNK_SIZE && counter < MAX_COUNTER && aead_opened(
            key,
            nonce_spec(counter, false),
            chunk,
        ) is Some {
            (
                Ok(aead_opened(key, nonce_spec(counter, false), chunk)->Some_0),
                counter + 1,
                StreamState::Streaming,
            )
        } else {
            match aead_opened(key, nonce_spec(counter, true), chunk) {
                Some(p) => (Ok(p), counter, StreamState::Final),
                None => (Err(Error::DecryptionFailed), counter, StreamState::Closed),
            }
        },
    }
}

/// What a reader makes of the payload `ciphertext`, read in pieces of
/// 65552 bytes, then what is left, then its end.
pub open spec fn read_all_spec(
    key: Seq<u8>,
    counter: nat,
    state: StreamState,
    ciphertext: Seq<u8>,
) -> Result<Seq<u8>, Error>
    decreases ciphertext.len(),
{
    if ciphertext.len() == 0 {
        read_spec(key, counter, state, ciphertext).0
    } else {
        let size = if ciphertext.len() < ENCRYPTED_CHUNK_SIZE {
            ciphertext.len() as int
        } else {
            ENCRYPTED_CHUNK_SIZE as int
        };
        let (r, next, after) = read_spec(key, counter, state, ciphertext.take(size));
        match r {
            Err(e) => Err(e),
            Ok(p) => match read_all_spec(key, next, after, ciphertext.skip(size)) {
                Ok(q) => Ok(p + q),
                Err(e) => Err(e),
            },
        }
    }
}

/// A reader makes of a payload what decryption makes of it, where the
/// chunks can be numbered.
pub proof fn lemma_read_all(key: Seq<u8>, counter: nat, ciphertext: Seq<u8>)
    requires
        counter + ciphertext.len() / (ENCRYPTED_CHUNK_SIZE as nat) < MAX_COUNTER,
    ensures
        read_all_spec(key, counter, StreamState::Streaming, ciphertext) == decrypt_from(
            key,
            counter,
            ciphertext,
        ),
    decreases ciphertext.len(),
{
    let empty = Seq::<u8>::empty();
    let closing = read_spec(key, counter, StreamState::Final, empty);
    assert(closing.0 == Ok::<Seq<u8>, Error>(empty));
    assert(read_all_spec(key, counter, StreamState::Final, empty) == closing.0);
    if ciphertext.len() == 0 {
    } else if ciphertext.len() < ENCRYPTED_CHUNK_SIZE {
        let size = ciphertext.len() as int;
        assert(ciphertext.take(size) =~= ciphertext);
        assert(ciphertext.skip(size) =~= empty);
        let opened = aead_opened(key, nonce_spec(counter, true), ciphertext);
        let step = read_spec(key, counter, StreamState::Streaming, ciphertext);
        match opened {
            Some(p) => {
                assert(step == (Ok::<Seq<u8>, Error>(p), counter, StreamState::Final));
                assert(p + empty =~= p);
            },
            None => {
                assert(step.0 == Err::<Seq<u8>, Error>(Error::DecryptionFailed));
            },
        }
    } else {
        let size = ENCRYPTED_CHUNK_SIZE as int;
        let chunk = ciphertext.take(size);
        let rest = ciphertext.skip(size);
        let step = read_spec(key, counter, StreamState::Streaming, chunk);
        assert(chunk.len() == ENCRYPTED_CHUNK_SIZE);
        assert(rest.len() == ciphertext.len() - ENCRYPTED_CHUNK_SIZE);
        match aead_opened(key, nonce_spec(counter, false), chunk) {
            Some(p) => {
                assert(step == (Ok::<Seq<u8>, Error>(p), counter + 1, StreamState::Streaming));
                assert(rest.len() / (ENCRYPTED_CHUNK_SIZE as nat) + 1 == ciphertext.len() / (
                ENCRYPTED_CHUNK_SIZE as nat));
                lemma_read_all(key, counter + 1, rest);
            },
            None => {
                match aead_opened(key, nonce_spec(counter, true), chunk) {
                    Some(p) => {
                        assert(step == (Ok::<Seq<u8>, Error>(p), counter, StreamState::Final));
                        if rest.len() == 0 {
                            assert(rest =~= empty);
                            assert(p + empty =~= p);
                        } else {
                            let next = if rest.len() < ENCRYPTED_CHUNK_SIZE {
                                rest.len() as int
                            } else {
                                ENCRYPTED_CHUNK_SIZE as int
                            };
                            assert(rest.take(next).len() > 0);
                            assert(read_spec(key, counter, StreamState::Final, rest.take(next)).0
                                == Err::<Seq<u8>, Error>(Error::DecryptionFailed));
                            assert(read_all_spec(key, counter, StreamState::Final, rest) == Err::<
                                Seq<u8>,
                                Error,
                            >(Error::DecryptionFailed));
                        }
                    },
                    None => {
                        assert(step.0 == Err::<Seq<u8>, Error>(Error::DecryptionFailed));
                    },
                }
            },
        }
    }
}

/// Decrypts a payload piece by piece.
///
/// The reader takes the payload in pieces of 65552 bytes, then what is
/// left of it, then its end, and gives the plaintext of each piece. It
/// starts at `Streaming`, comes to `Final` with the last chunk and to
/// `Closed` with the end of the input or with the first refusal.
pub struct StreamReader {
    key: SecretBytes,
    counter: u64,
    state: StreamState,
}

impl StreamReader {
    #[verifier::type_invariant]
    spec fn inv(self) -> bool {
        self.key@.len() == KEY_LEN
    }

    /// The key under which the chunks are opened.
    pub closed spec fn key(self) -> Seq<u8> {
        self.key@
    }

    /// The number of the next chunk.
    pub closed spec fn counter(self) -> nat {
        self.counter as nat
    }

    /// Where the reader stands.
    pub closed spec fn state_spec(self) -> StreamState {
        self.state
    }

    /// A reader for the payload of a message with the file key `file_key`.
    pub fn new(file_key: &FileKey) -> (r: StreamReader)
        ensures
            r.key() == payload_key_spec(file_key@),
            r.counter() == 0,
            r.state_spec() == StreamState::Streaming,
    {
        StreamReader { key: payload_key(file_key), counter: 0, state: StreamState::Streaming }
    }

    /// Where the reader stands.
    pub fn state(&self) -> (s: StreamState)
        ensures
            s == self.state_spec(),
    {
        self.state
    }

    /// Takes the next piece of the payload: 65552 bytes, or all that is
    /// left where that is less, and nothing at the end of the input.
    ///
    /// Gives the plaintext of the piece, or refuses the payload, as
    /// `read_spec` says.
    pub fn read_chunk(&mut self, chunk: &[u8]) -> (r: Result<Vec<u8>, Error>)
        ensures
            final(self).key() == old(self).key(),
            (result_view(r), final(self).counter(), final(self).state_spec()) == read_spec(
                old(self).key(),
                old(self).counter(),
                old(self).state_spec(),
                chunk@,
            ),
    {
        proof {
            use_type_invariant(&*self);
        }
        match self.state {
            StreamState::Closed => {
                return Err(Error::DecryptionFailed);
            },
            StreamState::Final => {
                self.state = StreamState::Closed;
                if chunk.len() == 0 {
                    return Ok(Vec::new());
                }
                return Err(Error::DecryptionFailed);
            },
            StreamState::Streaming => {},
        }
        if chunk.len() == 0 {
            self.state = StreamState::Closed;
            return Err(Error::StreamTruncated);
        }
        if chunk.len() > ENCRYPTED_CHUNK_SIZE {
            self.state = StreamState::Closed;
            return Err(Error::DecryptionFailed);
        }
        if chunk.len() == ENCRYPTED_CHUNK_SIZE && self.counter < MAX_COUNTER {
            match open_chunk(self.key.as_bytes(), self.counter, false, chunk) {
                Some(p) => {
                    self.counter = self.counter + 1;
                    return Ok(p);
                },
                None => {},
            }
        }
        match open_chunk(self.key.as_bytes(), self.counter, true, chunk) {
            Some(p) => {
                self.state = StreamState::Final;
                Ok(p)
            },
            None => {
                self.state = StreamState::Closed;
                Err(Error::DecryptionFailed)
            },
        }
    }
}

} // verus!

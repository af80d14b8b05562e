//! The object cipher: authenticated encryption of one whole in-memory object
//! under the run's (key, nonce) pair.

use vstd::prelude::*;

use crate::material::EncryptionMaterial;

verus! {

/// The ciphertext that the XChaCha20-Poly1305 construction produces for a
/// given key, nonce and plaintext. The construction is not restated here;
/// the name stands for its result, which depends on these three arguments
/// alone.
pub uninterp spec fn xchacha_ciphertext(key: Seq<u8>, nonce: Seq<u8>, plaintext: Seq<u8>) -> Seq<u8>;

/// The longest plaintext the cipher accepts: 64-byte blocks under a 32-bit
/// block counter, so 64 * (2^32 - 1) bytes. At or above this length the
/// cipher reports an error instead of encrypting.
pub const MAX_PLAINTEXT_LEN: u64 = 0x3F_FFFF_FFC0;

/// The ciphertext of a plaintext under a run's material.
pub open spec fn ciphertext_of(m: EncryptionMaterial, plaintext: Seq<u8>) -> Seq<u8> {
    xchacha_ciphertext(m.key@, m.nonce@, plaintext)
}

/// Relies on chacha20poly1305's `XChaCha20Poly1305` through `aead::Aead::encrypt`:
/// authenticated encryption whose result is a function of key, nonce and
/// plaintext alone; on success the result is the enciphered plaintext
/// followed by the 16-byte authentication tag. The call fails exactly when
/// the plaintext reaches the cipher's 64 * (2^32 - 1) byte limit.
#[verifier::external_body]
fn xchacha_encrypt(key: &Vec<u8>, nonce: &Vec<u8>, plaintext: &Vec<u8>) -> (r: Result<
    Vec<u8>,
    String,
>)
    requires
        key@.len() == 32,
        nonce@.len() == 24,
    ensures
        (r is Ok) <==> (plaintext@.len() < MAX_PLAINTEXT_LEN),
        r is Ok ==> r.unwrap()@ == xchacha_ciphertext(key@, nonce@, plaintext@),
        r is Ok ==> r.unwrap()@.len() == plaintext@.len() + 16,
{
    let cipher = <chacha20poly1305::XChaCha20Poly1305 as chacha20poly1305::KeyInit>::new(
        chacha20poly1305::Key::from_slice(key.as_slice()),
    );
    let nonce = chacha20poly1305::XNonce::from_slice(nonce.as_slice());
    match chacha20poly1305::aead::Aead::encrypt(&cipher, nonce, plaintext.as_slice()) {
        Ok(ciphertext) => Ok(ciphertext),
        Err(err) => Err(err.to_string()),
    }
}

/// Encrypts one object's bytes under the run's material. With well-formed
/// material the call succeeds for every object below the cipher's plaintext
/// limit; at or above it the failure is surfaced as an error rather than a
/// panic, so that the caller can record it.
pub fn get_encrypted_file(file: &Vec<u8>, material: &EncryptionMaterial) -> (r: Result<
    Vec<u8>,
    String,
>)
    requires
        material.wf(),
    ensures
        (r is Ok) <==> (file@.len() < MAX_PLAINTEXT_LEN),
        r is Ok ==> r.unwrap()@ == ciphertext_of(*material, file@),
        r is Ok ==> r.unwrap()@.len() == file@.len() + 16,
{
    xchacha_encrypt(&material.key, &material.nonce, file)
}

} // verus!

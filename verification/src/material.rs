//! Encryption material: one (key, nonce) pair per pipeline run, drawn from
//! the operating system's secure random source, plus the hex rendering used
//! for audit messages.

use vstd::prelude::*;

verus! {

/// Number of bytes in a symmetric key.
pub const KEY_LEN: usize = 32;

/// Number of bytes in a nonce.
pub const NONCE_LEN: usize = 24;

/// The lowercase hexadecimal digit for a value below 16.
pub open spec fn hex_digit(n: int) -> char {
    if n < 10 {
        ((48 + n) as u8) as char
    } else {
        ((87 + n) as u8) as char
    }
}

/// The lowercase hexadecimal rendering of a byte sequence: two digits per
/// byte, most significant digit first.
pub open spec fn hex_of(bytes: Seq<u8>) -> Seq<char> {
    Seq::new(
        2 * bytes.len(),
        |i: int|
            if i % 2 == 0 {
                hex_digit(bytes[i / 2] as int / 16)
            } else {
                hex_digit(bytes[i / 2] as int % 16)
            },
    )
}

/// One (key, nonce) pair. It is generated once per pipeline run and applied
/// to every object of that run; it is never persisted or shared across runs.
pub struct EncryptionMaterial {
    pub key: Vec<u8>,
    pub nonce: Vec<u8>,
}

impl EncryptionMaterial {
    /// Well-formed material holds a 32-byte key and a 24-byte nonce.
    pub open spec fn wf(&self) -> bool {
        self.key@.len() == KEY_LEN && self.nonce@.len() == NONCE_LEN
    }

    /// Builds material from caller-supplied bytes, rejecting wrong lengths.
    pub fn new(key: Vec<u8>, nonce: Vec<u8>) -> (r: Result<EncryptionMaterial, String>)
        ensures
            (r is Ok) <==> (key@.len() == KEY_LEN && nonce@.len() == NONCE_LEN),
            r is Ok ==> r.unwrap().key@ == key@ && r.unwrap().nonce@ == nonce@
                && r.unwrap().wf(),
    {
        if key.len() != KEY_LEN {
            Err("key must hold exactly 32 bytes".to_owned())
        } else if nonce.len() != NONCE_LEN {
            Err("nonce must hold exactly 24 bytes".to_owned())
        } else {
            Ok(EncryptionMaterial { key, nonce })
        }
    }

    /// Hex rendering of the key, for audit messages.
    pub fn key_hex(&self) -> (r: String)
        ensures
            r@ == hex_of(self.key@),
    {
        encode_hex(&self.key)
    }

    /// Hex rendering of the nonce, for audit messages.
    pub fn nonce_hex(&self) -> (r: String)
        ensures
            r@ == hex_of(self.nonce@),
    {
        encode_hex(&self.nonce)
    }
}

/// Generates the (key, nonce) pair for one pipeline run. Both parts come
/// from the secure random source on every call; nothing is seeded, cached or
/// reused.
pub fn gen_encryption_config() -> (m: EncryptionMaterial)
    ensures
        m.wf(),
{
    let key = os_random_bytes(KEY_LEN);
    let nonce = os_random_bytes(NONCE_LEN);
    EncryptionMaterial { key, nonce }
}

/// Relies on rand's `OsRng` (`rand::RngCore::fill_bytes`): fills the buffer
/// with bytes from the operating system's cryptographically secure random
/// source, and aborts the process if that source fails. Nothing can be
/// promised of the values, only the length.
#[verifier::external_body]
fn os_random_bytes(n: usize) -> (r: Vec<u8>)
    ensures
        r@.len() == n,
{
    let mut buf = vec![0u8; n];
    rand::RngCore::fill_bytes(&mut rand::rngs::OsRng, &mut buf);
    buf
}

/// Relies on `hex::encode`: two lowercase hexadecimal digits per byte, most
/// significant digit first.
#[verifier::external_body]
fn encode_hex(bytes: &Vec<u8>) -> (r: String)
    ensures
        r@ == hex_of(bytes@),
{
    hex::encode(bytes)
}

} // verus!

use aes_gcm_siv::aead::{Aead, KeyInit, OsRng};
use aes_gcm_siv::{Aes256GcmSiv, Key, Nonce};
use rand::RngCore;
use vstd::prelude::*;
use vstd::string::*;
use vstd::utf8::{decode_utf8, encode_utf8, valid_utf8};
use crate::error::SecretSantaError;

verus! {

/// The length of a key, in bytes.
pub const KEY_LEN: usize = 32;

/// The length of a nonce, in bytes.
pub const NONCE_LEN: usize = 12;

/// The length of the tag that ends a ciphertext, in bytes.
pub const TAG_LEN: usize = 16;

/// The longest message that the cipher takes, in bytes.
pub const MESSAGE_MAX: u64 = 0x10_0000_0000;

/// A text that can be sealed: its UTF-8 bytes are within the cipher's
/// limit.
pub open spec fn fits_cipher(text: Seq<char>) -> bool {
    encode_utf8(text).len() <= MESSAGE_MAX
}

/// What AES-256-GCM-SIV makes of a message under a key of 32 bytes and a
/// nonce of 12: the ciphertext with its tag, or `None` for a message that
/// is too long for the cipher.
pub uninterp spec fn sealed(key: Seq<u8>, nonce: Seq<u8>, msg: Seq<u8>) -> Option<Seq<u8>>;

/// What AES-256-GCM-SIV recovers from a ciphertext under a key of 32 bytes
/// and a nonce of 12: the message, or `None` where the tag does not fit.
pub uninterp spec fn opened(key: Seq<u8>, nonce: Seq<u8>, ciphertext: Seq<u8>) -> Option<Seq<u8>>;

/// The text that a ciphertext holds under a key and a nonce: `None` where
/// the key or the nonce has the wrong length, the tag does not fit, or the
/// message is no UTF-8.
pub open spec fn decrypted(ciphertext: Seq<u8>, key: Seq<u8>, nonce: Seq<u8>) -> Option<Seq<char>> {
    if key.len() != KEY_LEN || nonce.len() != NONCE_LEN {
        None
    } else {
        match opened(key, nonce, ciphertext) {
            Some(m) => if valid_utf8(m) {
                Some(decode_utf8(m))
            } else {
                None
            },
            None => None,
        }
    }
}

/// The message of the error for a text that cannot be encrypted.
pub open spec fn encrypt_msg() -> Seq<char> {
    "Could not encrypt secrets"@
}

/// The message of the error for a ciphertext that cannot be decrypted.
pub open spec fn decrypt_msg() -> Seq<char> {
    "Could not decrypt secrets"@
}

/// A fresh nonce of 96 bits: twelve bytes filled by `OsRng.fill_bytes`, the
/// operating system's generator, and passed through `Nonce::from_iter`.
/// Only the length is known of it.
#[verifier::external_body]
pub fn generate_nonce() -> (r: Vec<u8>)
    ensures
        r@.len() == NONCE_LEN,
{
    let mut rand = [0u8; 12];
    OsRng.fill_bytes(&mut rand);
    let nonce = Nonce::from_iter(rand);
    nonce.to_vec()
}

/// A fresh key of 256 bits: `Aes256GcmSiv::generate_key` with `OsRng`,
/// which fills a key of the cipher's size. Only the length is known of it.
#[verifier::external_body]
pub fn generate_key() -> (r: Vec<u8>)
    ensures
        r@.len() == KEY_LEN,
{
    let key = Aes256GcmSiv::generate_key(&mut OsRng);
    key.to_vec()
}

/// `encrypt` of the `Aead` trait on `Aes256GcmSiv`, made with `new` from the
/// key. It fails for a message beyond the cipher's limit and for no other.
/// What it gives is the message's length and a tag long, and `decrypt`
/// under the same key and nonce turns it back into the message.
#[verifier::external_body]
fn aead_seal(key: &Vec<u8>, nonce: &Vec<u8>, msg: &Vec<u8>) -> (r: Option<Vec<u8>>)
    requires
        key@.len() == KEY_LEN,
        nonce@.len() == NONCE_LEN,
    ensures
        match r {
            Some(c) => {
                &&& sealed(key@, nonce@, msg@) == Some(c@)
                &&& opened(key@, nonce@, c@) == Some(msg@)
                &&& c@.len() == msg@.len() + TAG_LEN
            },
            None => sealed(key@, nonce@, msg@) is None,
        },
        r is Some <==> msg@.len() <= MESSAGE_MAX,
{
    let cipher = Aes256GcmSiv::new(Key::<Aes256GcmSiv>::from_slice(key.as_slice()));
    cipher.encrypt(Nonce::from_slice(nonce.as_slice()), msg.as_slice()).ok()
}

/// `decrypt` of the `Aead` trait on `Aes256GcmSiv`, made with `new` from the
/// key: the message, or nothing where the tag does not verify.
#[verifier::external_body]
fn aead_open(key: &Vec<u8>, nonce: &Vec<u8>, ciphertext: &Vec<u8>) -> (r: Option<Vec<u8>>)
    requires
        key@.len() == KEY_LEN,
        nonce@.len() == NONCE_LEN,
    ensures
        match r {
            Some(m) => opened(key@, nonce@, ciphertext@) == Some(m@),
            None => opened(key@, nonce@, ciphertext@) is None,
        },
{
    let cipher = Aes256GcmSiv::new(Key::<Aes256GcmSiv>::from_slice(key.as_slice()));
    cipher.decrypt(Nonce::from_slice(nonce.as_slice()), ciphertext.as_slice()).ok()
}

/// `String::from_utf8`: the string whose UTF-8 encoding the bytes are, or
/// nothing where they are no valid UTF-8.
#[verifier::external_body]
fn string_from_utf8(bytes: Vec<u8>) -> (r: Option<String>)
    ensures
        match r {
            Some(s) => valid_utf8(bytes@) && encode_utf8(s@) == bytes@,
            None => !valid_utf8(bytes@),
        },
{
    String::from_utf8(bytes).ok()
}

/// Encrypts a text under a key of 32 bytes and a nonce of 12. What comes
/// out decrypts to the text again under the same key and nonce.
pub fn encrypt(msg: &str, key: &Vec<u8>, nonce: &Vec<u8>) -> (r: Result<Vec<u8>, SecretSantaError>)
    ensures
        match r {
            Ok(c) => {
                &&& sealed(key@, nonce@, encode_utf8(msg@)) == Some(c@)
                &&& decrypted(c@, key@, nonce@) == Some(msg@)
                &&& c@.len() == encode_utf8(msg@).len() + TAG_LEN
            },
            Err(e) => e.msg@ == encrypt_msg(),
        },
        r is Ok <==> key@.len() == KEY_LEN && nonce@.len() == NONCE_LEN && fits_cipher(msg@),
{
    if key.len() != KEY_LEN || nonce.len() != NONCE_LEN {
        return Err(SecretSantaError::new(String::from_str("Could not encrypt secrets")));
    }
    let bytes = msg.as_bytes_vec();
    match aead_seal(key, nonce, &bytes) {
        Some(c) => {
            proof {
                vstd::utf8::encode_utf8_valid_utf8(msg@);
                vstd::utf8::encode_utf8_decode_utf8(msg@);
            }
            Ok(c)
        },
        None => Err(SecretSantaError::new(String::from_str("Could not encrypt secrets"))),
    }
}

/// Decrypts a ciphertext. A key or a nonce of the wrong length, a tag that
/// does not verify and a message that is no text are refused, and nothing
/// of the message is given out.
pub fn decrypt(ciphertext: &Vec<u8>, key: &Vec<u8>, nonce: &Vec<u8>) -> (r: Result<
    String,
    SecretSantaError,
>)
    ensures
        match r {
            Ok(s) => decrypted(ciphertext@, key@, nonce@) == Some(s@),
            Err(e) => decrypted(ciphertext@, key@, nonce@) is None && e.msg@ == decrypt_msg(),
        },
{
    if key.len() != KEY_LEN || nonce.len() != NONCE_LEN {
        return Err(SecretSantaError::new(String::from_str("Could not decrypt secrets")));
    }
    let text = match aead_open(key, nonce, ciphertext) {
        Some(m) => string_from_utf8(m),
        None => None,
    };
    match text {
        Some(s) => {
            proof {
                vstd::utf8::encode_utf8_decode_utf8(s@);
            }
            Ok(s)
        },
        None => Err(SecretSantaError::new(String::from_str("Could not decrypt secrets"))),
    }
}

} // verus!

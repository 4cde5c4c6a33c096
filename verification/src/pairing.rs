use base64ct::{Base64Url, Encoding};
use vstd::prelude::*;
use vstd::string::*;
use vstd::utf8::encode_utf8;
use crate::crypto::{
    decrypt, decrypt_msg, decrypted, encrypt, encrypt_msg, fits_cipher, generate_key,
    generate_nonce, sealed, KEY_LEN, NONCE_LEN, TAG_LEN,
};
use crate::error::SecretSantaError;

verus! {

/// One pairing, sealed: the key, the nonce and the ciphertext, each as a
/// token of its own.
#[derive(Debug, Clone)]
pub struct EncryptedSecretSanta {
    pub key: String,
    pub nonce: String,
    pub pairing: String,
}

/// The URL-safe Base64 text of some bytes.
pub uninterp spec fn base64url(bytes: Seq<u8>) -> Seq<char>;

/// The bytes that a URL-safe Base64 text stands for, or `None` where the
/// text is no such encoding.
pub uninterp spec fn base64url_decoded(text: Seq<char>) -> Option<Seq<u8>>;

/// The message of the error for a token that is no valid encoding.
pub open spec fn decode_msg() -> Seq<char> {
    "Could not decode secrets"@
}

/// What the three tokens reveal: the name, or the message of the error.
/// A token that is no valid encoding comes first; then a ciphertext that
/// does not decrypt under the key and the nonce.
pub open spec fn revealed(key: Seq<char>, nonce: Seq<char>, ciphertext: Seq<char>) -> Result<
    Seq<char>,
    Seq<char>,
> {
    match (base64url_decoded(key), base64url_decoded(nonce), base64url_decoded(ciphertext)) {
        (Some(k), Some(n), Some(c)) => match decrypted(c, k, n) {
            Some(name) => Ok(name),
            None => Err(decrypt_msg()),
        },
        _ => Err(decode_msg()),
    }
}

/// A text that can be sealed and encoded: it is within the cipher's
/// limit, and its ciphertext is within the encoder's.
pub open spec fn sealable(text: Seq<char>) -> bool {
    fits_cipher(text) && encode_utf8(text).len() + TAG_LEN <= usize::MAX / 4
}

/// `Base64Url::encode_string` of base64ct, which panics on an input longer
/// than a quarter of the largest `usize`. Decoding what it gives brings the
/// bytes back.
#[verifier::external_body]
fn encode_string(bytes: &Vec<u8>) -> (r: String)
    requires
        bytes@.len() <= usize::MAX / 4,
    ensures
        r@ == base64url(bytes@),
        base64url_decoded(r@) == Some(bytes@),
{
    Base64Url::encode_string(bytes.as_slice())
}

/// `Base64Url::decode_vec` of base64ct: the bytes, or nothing where the
/// text is not validly encoded.
#[verifier::external_body]
fn decode_string(input: &str) -> (r: Option<Vec<u8>>)
    ensures
        match r {
            Some(v) => base64url_decoded(input@) == Some(v@),
            None => base64url_decoded(input@) is None,
        },
{
    Base64Url::decode_vec(input).ok()
}

/// Decodes one token.
pub fn decode_vec(input: &str) -> (r: Result<Vec<u8>, SecretSantaError>)
    ensures
        match r {
            Ok(v) => base64url_decoded(input@) == Some(v@),
            Err(e) => base64url_decoded(input@) is None && e.msg@ == decode_msg(),
        },
{
    match decode_string(input) {
        Some(v) => Ok(v),
        None => Err(SecretSantaError::new(String::from_str("Could not decode secrets"))),
    }
}

/// Seals a name under a given key and nonce, and encodes the three parts.
/// The tokens reveal the name again.
pub fn seal_secret_santa(paired_with: &str, key: &Vec<u8>, nonce: &Vec<u8>) -> (r: Result<
    EncryptedSecretSanta,
    SecretSantaError,
>)
    ensures
        match r {
            Ok(enc) => {
                &&& enc.key@ == base64url(key@)
                &&& enc.nonce@ == base64url(nonce@)
                &&& sealed(key@, nonce@, encode_utf8(paired_with@)) matches Some(c) && enc.pairing@
                    == base64url(c) && c.len() == encode_utf8(paired_with@).len() + TAG_LEN
                &&& base64url_decoded(enc.key@) == Some(key@)
                &&& base64url_decoded(enc.nonce@) == Some(nonce@)
                &&& base64url_decoded(enc.pairing@) == sealed(
                    key@,
                    nonce@,
                    encode_utf8(paired_with@),
                )
                &&& revealed(enc.key@, enc.nonce@, enc.pairing@) == Ok::<Seq<char>, Seq<char>>(
                    paired_with@,
                )
            },
            Err(e) => e.msg@ == encrypt_msg(),
        },
        r is Ok <==> key@.len() == KEY_LEN && nonce@.len() == NONCE_LEN && sealable(paired_with@),
{
    let ciphertext = match encrypt(paired_with, key, nonce) {
        Ok(c) => c,
        Err(e) => {
            return Err(e);
        },
    };
    if ciphertext.len() > usize::MAX / 4 {
        return Err(SecretSantaError::new(String::from_str("Could not encrypt secrets")));
    }
    Ok(
        EncryptedSecretSanta {
            key: encode_string(key),
            nonce: encode_string(nonce),
            pairing: encode_string(&ciphertext),
        },
    )
}

/// Seals a name under a fresh key and a fresh nonce. The tokens reveal the
/// name again; the key token stands for 32 bytes, the nonce token for 12,
/// and the pairing token for the name's UTF-8 bytes and a tag of 16.
pub fn encrypt_secret_santa(paired_with: &str) -> (r: Result<EncryptedSecretSanta, SecretSantaError>)
    ensures
        match r {
            Ok(enc) => {
                &&& revealed(enc.key@, enc.nonce@, enc.pairing@) == Ok::<Seq<char>, Seq<char>>(
                    paired_with@,
                )
                &&& base64url_decoded(enc.key@) matches Some(k) && k.len() == KEY_LEN
                &&& base64url_decoded(enc.nonce@) matches Some(n) && n.len() == NONCE_LEN
                &&& base64url_decoded(enc.pairing@) matches Some(c) && c.len() == encode_utf8(
                    paired_with@,
                ).len() + TAG_LEN
            },
            Err(e) => e.msg@ == encrypt_msg(),
        },
        r is Ok <==> sealable(paired_with@),
{
    let key = generate_key();
    let nonce = generate_nonce();
    seal_secret_santa(paired_with, &key, &nonce)
}

/// Reveals the name that three tokens hold.
pub fn decrypt_secret_santa(key: &str, nonce: &str, ciphertext: &str) -> (r: Result<
    String,
    SecretSantaError,
>)
    ensures
        match r {
            Ok(name) => revealed(key@, nonce@, ciphertext@) == Ok::<Seq<char>, Seq<char>>(name@),
            Err(e) => revealed(key@, nonce@, ciphertext@) == Err::<Seq<char>, Seq<char>>(e.msg@),
        },
{
    let dc_key = match decode_vec(key) {
        Ok(v) => v,
        Err(e) => {
            return Err(e);
        },
    };
    let dc_nonce = match decode_vec(nonce) {
        Ok(v) => v,
        Err(e) => {
            return Err(e);
        },
    };
    let dc_ct = match decode_vec(ciphertext) {
        Ok(v) => v,
        Err(e) => {
            return Err(e);
        },
    };
    decrypt(&dc_ct, &dc_key, &dc_nonce)
}

} // verus!

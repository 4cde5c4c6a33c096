use aes_gcm_siv::aead::{Aead, KeyInit};
use base64ct::{Base64Url, Encoding};
use super_secret_santa::crypto::{decrypt, encrypt, generate_key, generate_nonce};
use super_secret_santa::pairing::{decode_vec, seal_secret_santa};
use super_secret_santa::{decrypt_secret_santa, encrypt_secret_santa};

#[test]
fn test_generate_nonce() {
    let nonce = generate_nonce();
    assert_eq!(nonce.len(), 12);
    assert!(true)
}

#[test]
fn test_generate_key() {
    let key = generate_key();
    assert_eq!(key.len(), 32);
    assert!(true)
}

#[test]
fn test_encrypt() {
    let key = generate_key();
    let nonce = generate_nonce();
    let msg = "A message with-a-hyphen and some ‚ü®√§‚ü©, ‚ü®√∂‚ü©, and ‚ü®√º‚ü© and üòÄ!??";
    let enc = encrypt(msg, &key, &nonce).unwrap();
    assert_eq!(enc.len(), msg.len() + 16);
    assert_ne!(&enc[..msg.len()], msg.as_bytes());
    assert!(true)
}

#[test]
fn test_decrypt() {
    let key = generate_key();
    let nonce = generate_nonce();
    let msg_in = "A message with-a-hyphen and some ‚ü®√§‚ü©, ‚ü®√∂‚ü©, and ‚ü®√º‚ü© and üòÄ!??";
    let enc = encrypt(&msg_in, &key, &nonce).unwrap();

    let key_vec: Vec<u8> = key.into_iter().collect();
    let nonce_vec: Vec<u8> = nonce.into_iter().collect();

    let msg_out = decrypt(&enc, &key_vec, &nonce_vec).unwrap();
    assert_eq!(msg_out, msg_in.to_string())
}

#[test]
fn test_encrypt_secret_santa() {
    let enc = encrypt_secret_santa("Tom").unwrap();
    println!("{}", enc.nonce);
    assert_eq!(enc.key.len(), 44);
    assert_eq!(enc.nonce.len(), 16);
    assert_eq!(decode_vec(&enc.key).unwrap().len(), 32);
    assert_eq!(decode_vec(&enc.nonce).unwrap().len(), 12);
    assert_eq!(decode_vec(&enc.pairing).unwrap().len(), 3 + 16);
}

#[test]
fn test_decrypt_secret_santa() {
    let enc = encrypt_secret_santa("Tom").unwrap();
    let name = decrypt_secret_santa(&enc.key, &enc.nonce, &enc.pairing).unwrap();
    assert_eq!(name, "Tom".to_string())
}

#[test]
fn codec_round_trip_on_many_names() {
    for name in ["", "Amy", "Jean-Luc Picard", "  spaced  ", "Zoë ☃ 名前"] {
        let enc = encrypt_secret_santa(name).unwrap();
        let back = decrypt_secret_santa(&enc.key, &enc.nonce, &enc.pairing).unwrap();
        assert_eq!(back, name);
    }
}

#[test]
fn encrypt_is_fixed_by_key_and_nonce() {
    let key = vec![7u8; 32];
    let nonce = vec![9u8; 12];
    let a = encrypt("Tom", &key, &nonce).unwrap();
    let b = encrypt("Tom", &key, &nonce).unwrap();
    assert_eq!(a, b);
    let c = encrypt("Tom", &key, &vec![8u8; 12]).unwrap();
    assert_ne!(a, c);
}

#[test]
fn encrypt_refuses_wrong_lengths() {
    let e = encrypt("Tom", &vec![0u8; 31], &vec![0u8; 12]).unwrap_err();
    assert_eq!(e.msg, "Could not encrypt secrets");
    let e = encrypt("Tom", &vec![0u8; 32], &vec![0u8; 11]).unwrap_err();
    assert_eq!(e.msg, "Could not encrypt secrets");
    let e = seal_secret_santa("Tom", &vec![0u8; 33], &vec![0u8; 12]).unwrap_err();
    assert_eq!(e.msg, "Could not encrypt secrets");
}

#[test]
fn decrypt_refuses_wrong_lengths() {
    let key = generate_key();
    let nonce = generate_nonce();
    let enc = encrypt("Tom", &key, &nonce).unwrap();
    let e = decrypt(&enc, &key[..31].to_vec(), &nonce).unwrap_err();
    assert_eq!(e.msg, "Could not decrypt secrets");
    let e = decrypt(&enc, &key, &nonce[..11].to_vec()).unwrap_err();
    assert_eq!(e.msg, "Could not decrypt secrets");
}

#[test]
fn decrypt_refuses_a_wrong_key_or_nonce() {
    let key = generate_key();
    let nonce = generate_nonce();
    let enc = encrypt("Tom", &key, &nonce).unwrap();
    let mut other_key = key.clone();
    other_key[0] ^= 1;
    assert_eq!(decrypt(&enc, &other_key, &nonce).unwrap_err().msg, "Could not decrypt secrets");
    let mut other_nonce = nonce.clone();
    other_nonce[3] ^= 0x80;
    assert_eq!(decrypt(&enc, &key, &other_nonce).unwrap_err().msg, "Could not decrypt secrets");
}

#[test]
fn decrypt_refuses_every_flipped_bit() {
    let key = generate_key();
    let nonce = generate_nonce();
    let enc = encrypt("Kara", &key, &nonce).unwrap();
    for byte in 0..enc.len() {
        for bit in 0..8 {
            let mut bad = enc.clone();
            bad[byte] ^= 1 << bit;
            let e = decrypt(&bad, &key, &nonce).unwrap_err();
            assert_eq!(e.msg, "Could not decrypt secrets");
        }
    }
}

#[test]
fn decrypt_refuses_a_message_that_is_no_text() {
    let key = vec![1u8; 32];
    let nonce = vec![2u8; 12];
    let cipher = aes_gcm_siv::Aes256GcmSiv::new_from_slice(&key).unwrap();
    let raw: [u8; 3] = [0xff, 0xfe, 0x80];
    let sealed = cipher.encrypt(aes_gcm_siv::Nonce::from_slice(&nonce), &raw[..]).unwrap();
    let e = decrypt(&sealed, &key, &nonce).unwrap_err();
    assert_eq!(e.msg, "Could not decrypt secrets");
}

#[test]
fn tampered_token_is_refused() {
    let enc = encrypt_secret_santa("Tom").unwrap();
    let mut bytes = decode_vec(&enc.pairing).unwrap();
    bytes[0] ^= 1;
    let fixed = seal_secret_santa("x", &vec![0u8; 32], &vec![0u8; 12]).unwrap();
    assert_ne!(fixed.pairing, "x");
    let bad: String = Base64Url::encode_string(&bytes);
    let e = decrypt_secret_santa(&enc.key, &enc.nonce, &bad).unwrap_err();
    assert_eq!(e.msg, "Could not decrypt secrets");
}

#[test]
fn tokens_are_url_safe_base64() {
    let enc = seal_secret_santa("Tom", &vec![0xfbu8; 32], &vec![0xffu8; 12]).unwrap();
    assert_eq!(enc.key, "-_v7-_v7-_v7-_v7-_v7-_v7-_v7-_v7-_v7-_v7-_s=");
    assert_eq!(enc.nonce, "________________");
    assert_eq!(decode_vec("VG9t").unwrap(), b"Tom".to_vec());
    assert_eq!(decode_vec("").unwrap(), Vec::<u8>::new());
}

#[test]
fn invalid_tokens_are_decode_errors() {
    let enc = encrypt_secret_santa("Tom").unwrap();
    let e = decrypt_secret_santa("not base64!", &enc.nonce, &enc.pairing).unwrap_err();
    assert_eq!(e.msg, "Could not decode secrets");
    let e = decrypt_secret_santa(&enc.key, "***", &enc.pairing).unwrap_err();
    assert_eq!(e.msg, "Could not decode secrets");
    let e = decrypt_secret_santa(&enc.key, &enc.nonce, "a b").unwrap_err();
    assert_eq!(e.msg, "Could not decode secrets");
    assert_eq!(decode_vec("+/+/").unwrap_err().msg, "Could not decode secrets");
}

#[test]
fn short_key_token_is_a_decrypt_error() {
    let enc = encrypt_secret_santa("Tom").unwrap();
    let e = decrypt_secret_santa("VG9t", &enc.nonce, &enc.pairing).unwrap_err();
    assert_eq!(e.msg, "Could not decrypt secrets");
}

#[test]
fn keys_and_nonces_are_fresh() {
    let mut keys = std::collections::HashSet::new();
    let mut nonces = std::collections::HashSet::new();
    for _ in 0..200 {
        let enc = encrypt_secret_santa("Tom").unwrap();
        assert!(keys.insert(enc.key));
        assert!(nonces.insert(enc.nonce));
    }
}

#[test]
fn pairing_token_holds_the_name_and_a_tag() {
    for name in ["", "Tom", "Zoë", "名前 ☃", "a name that is a little longer than the others"] {
        let enc = encrypt_secret_santa(name).unwrap();
        assert_eq!(decode_vec(&enc.key).unwrap().len(), 32);
        assert_eq!(decode_vec(&enc.nonce).unwrap().len(), 12);
        assert_eq!(decode_vec(&enc.pairing).unwrap().len(), name.len() + 16);
        let key = vec![3u8; 32];
        let nonce = vec![4u8; 12];
        let fixed = seal_secret_santa(name, &key, &nonce).unwrap();
        assert_eq!(decode_vec(&fixed.key).unwrap(), key);
        assert_eq!(decode_vec(&fixed.nonce).unwrap(), nonce);
        assert_eq!(decode_vec(&fixed.pairing).unwrap(), encrypt(name, &key, &nonce).unwrap());
    }
}

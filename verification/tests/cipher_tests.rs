use senha::cipher::{decrypt, decrypt_bytes, encrypt, encrypt_bytes, KeyMaterial};
use senha::errors::{CipherError, ConfigurationError};

use aes::Aes256;
use base64::Engine;
use block_modes::{BlockMode, Cbc};
use block_padding::Pkcs7;

const KEY: &[u8; 32] = b"32-byte-secret-key-used-for-encr";
const IV: &[u8; 16] = b"16-byte-iv-vec!!";

fn km() -> KeyMaterial {
    KeyMaterial::new(KEY.to_vec(), IV.to_vec()).unwrap()
}

#[test]
fn round_trip_empty() {
    let km = km();
    let stored = encrypt_bytes(&km, b"");
    assert_eq!(decrypt_bytes(&km, &stored).unwrap(), Vec::<u8>::new());
}

#[test]
fn round_trip_single_byte() {
    let km = km();
    let stored = encrypt_bytes(&km, b"x");
    assert_eq!(decrypt_bytes(&km, &stored).unwrap(), b"x".to_vec());
}

#[test]
fn round_trip_exactly_one_block() {
    let km = km();
    let plain = b"0123456789abcdef";
    assert_eq!(plain.len(), 16);
    let stored = encrypt_bytes(&km, plain);
    assert_eq!(decrypt_bytes(&km, &stored).unwrap(), plain.to_vec());
}

#[test]
fn round_trip_long_text() {
    let km = km();
    let plain = "a somewhat longer secret, spanning several cipher blocks easily";
    let stored = encrypt(&km, plain);
    assert_eq!(decrypt(&km, &stored).unwrap(), plain);
}

#[test]
fn round_trip_unicode_text() {
    let km = km();
    let plain = "mot de passe: \u{00e9}\u{00e8}\u{20ac} \u{1f511}";
    let stored = encrypt(&km, plain);
    assert_eq!(decrypt(&km, &stored).unwrap(), plain);
}

#[test]
fn empty_secret_encrypts_to_one_block() {
    let km = km();
    // One padding block of 16 bytes encodes to 24 base64 characters.
    assert_eq!(encrypt_bytes(&km, b"").len(), 24);
}

#[test]
fn matches_reference_cipher_stack() {
    // The same pipeline built directly from the block-modes, aes and base64
    // crates must produce byte-identical stored text.
    type Aes256Cbc = Cbc<Aes256, Pkcs7>;
    let km = km();
    for plain in [
        &b""[..],
        &b"a"[..],
        &b"hunter2"[..],
        &b"0123456789abcdef"[..],
        &b"a secret that spans more than one block"[..],
    ] {
        let cipher = Aes256Cbc::new_from_slices(KEY, IV).unwrap();
        let reference =
            base64::engine::general_purpose::STANDARD.encode(cipher.encrypt_vec(plain));
        assert_eq!(encrypt_bytes(&km, plain), reference);
    }
}

#[test]
fn decrypts_reference_cipher_output() {
    type Aes256Cbc = Cbc<Aes256, Pkcs7>;
    let km = km();
    let cipher = Aes256Cbc::new_from_slices(KEY, IV).unwrap();
    let stored = base64::engine::general_purpose::STANDARD.encode(cipher.encrypt_vec(b"hunter2"));
    assert_eq!(decrypt(&km, &stored).unwrap(), "hunter2");
}

#[test]
fn tamper_detection_every_byte() {
    let km = km();
    let plain = b"tamper detection sample secret";
    let stored = encrypt_bytes(&km, plain);
    for i in 0..stored.len() {
        let mut bytes = stored.clone().into_bytes();
        bytes[i] ^= 0x01;
        let tampered = String::from_utf8(bytes).unwrap();
        match decrypt_bytes(&km, &tampered) {
            Ok(recovered) => assert_ne!(recovered, plain.to_vec()),
            Err(e) => assert!(matches!(
                e,
                CipherError::DecodeError | CipherError::PaddingError | CipherError::EncodingError
            )),
        }
    }
}

#[test]
fn invalid_base64_is_decode_error() {
    let km = km();
    assert_eq!(decrypt_bytes(&km, "not base64!!").unwrap_err(), CipherError::DecodeError);
}

#[test]
fn missing_padding_characters_is_decode_error() {
    let km = km();
    let stored = encrypt_bytes(&km, b"abc");
    let truncated = &stored[..stored.len() - 1];
    assert_eq!(decrypt_bytes(&km, truncated).unwrap_err(), CipherError::DecodeError);
}

#[test]
fn short_ciphertext_is_padding_error() {
    let km = km();
    // Valid base64 of three bytes: not a whole cipher block.
    assert_eq!(decrypt_bytes(&km, "AAAA").unwrap_err(), CipherError::PaddingError);
}

#[test]
fn empty_ciphertext_is_padding_error() {
    let km = km();
    assert_eq!(decrypt_bytes(&km, "").unwrap_err(), CipherError::PaddingError);
}

#[test]
fn wrong_key_cannot_recover() {
    let km = km();
    let stored = encrypt_bytes(&km, b"hunter2");
    let other_key: Vec<u8> = b"another-32-byte-secret-key......".to_vec();
    let other = KeyMaterial::new(other_key, IV.to_vec()).unwrap();
    match decrypt_bytes(&other, &stored) {
        Ok(recovered) => assert_ne!(recovered, b"hunter2".to_vec()),
        Err(e) => assert!(matches!(e, CipherError::PaddingError | CipherError::EncodingError)),
    }
}

#[test]
fn non_text_bytes_are_encoding_error() {
    let km = km();
    let stored = encrypt_bytes(&km, &[0xff, 0xfe, 0x00, 0x80]);
    assert_eq!(decrypt(&km, &stored).unwrap_err(), CipherError::EncodingError);
    // The byte-level pipeline still recovers them.
    assert_eq!(decrypt_bytes(&km, &stored).unwrap(), vec![0xff, 0xfe, 0x00, 0x80]);
}

#[test]
fn short_key_is_configuration_error() {
    assert_eq!(
        KeyMaterial::new(b"short".to_vec(), IV.to_vec()).unwrap_err(),
        ConfigurationError::WrongKeyLength
    );
}

#[test]
fn short_iv_is_configuration_error() {
    assert_eq!(
        KeyMaterial::new(KEY.to_vec(), b"short".to_vec()).unwrap_err(),
        ConfigurationError::WrongIvLength
    );
}

use vstd::prelude::*;

verus! {

/// Why a stored secret could not be recovered.
#[derive(Clone, Copy, PartialEq, Eq, Structural, Debug)]
pub enum CipherError {
    /// The stored text is not valid base64 for the standard alphabet.
    DecodeError,
    /// The decrypted padding bytes are inconsistent: wrong key or
    /// initialization vector, corrupted ciphertext, or truncated input.
    PaddingError,
    /// The decrypted bytes are not valid UTF-8 text.
    EncodingError,
}

/// Why key material was rejected at construction.
#[derive(Clone, Copy, PartialEq, Eq, Structural, Debug)]
pub enum ConfigurationError {
    /// The key is not exactly 32 bytes long.
    WrongKeyLength,
    /// The initialization vector is not exactly 16 bytes long.
    WrongIvLength,
}

} // verus!

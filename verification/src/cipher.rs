use vstd::prelude::*;
use crate::cbc::{cbc_decrypt, cbc_decrypt_spec, cbc_encrypt, cbc_encrypt_spec,
    lemma_cbc_encrypt_len};
use crate::errors::{CipherError, ConfigurationError};
use crate::padding::{lemma_pkcs7_round_trip, pad, pkcs7_pad, pkcs7_unpad, unpad};
use crate::text64::{b64_decode, b64_encode, b64_of};
use vstd::utf8::{decode_utf8, encode_utf8, encode_utf8_decode_utf8, encode_utf8_valid_utf8,
    valid_utf8};

verus! {

/// The key material every transform uses: a 32-byte key and a 16-byte
/// initialization vector. The same pair must be used to encrypt and to
/// decrypt a given secret; changing it makes previously stored secrets
/// unrecoverable.
#[derive(Debug)]
pub struct KeyMaterial {
    pub key: Vec<u8>,
    pub iv: Vec<u8>,
}

impl KeyMaterial {
    /// The key and the initialization vector have their required lengths.
    pub open spec fn wf(&self) -> bool {
        self.key@.len() == 32 && self.iv@.len() == 16
    }

    /// Accepts exactly a 32-byte key together with a 16-byte initialization
    /// vector; anything else is a configuration error.
    pub fn new(key: Vec<u8>, iv: Vec<u8>) -> (r: Result<KeyMaterial, ConfigurationError>)
        ensures
            r is Ok <==> key@.len() == 32 && iv@.len() == 16,
            r is Ok ==> r->Ok_0.key@ == key@ && r->Ok_0.iv@ == iv@ && r->Ok_0.wf(),
            key@.len() != 32 ==> r == Err::<KeyMaterial, ConfigurationError>(
                ConfigurationError::WrongKeyLength,
            ),
            key@.len() == 32 && iv@.len() != 16 ==> r == Err::<KeyMaterial, ConfigurationError>(
                ConfigurationError::WrongIvLength,
            ),
    {
        if key.len() != 32 {
            return Err(ConfigurationError::WrongKeyLength);
        }
        if iv.len() != 16 {
            return Err(ConfigurationError::WrongIvLength);
        }
        Ok(KeyMaterial { key, iv })
    }
}

/// The stored form of a secret: PKCS#7 padding, then cipher-block-chaining
/// encryption, then base64 text.
pub open spec fn encrypt_spec(key: Seq<u8>, iv: Seq<u8>, p: Seq<u8>) -> Seq<char> {
    b64_of(cbc_encrypt_spec(key, iv, pkcs7_pad(p)))
}

/// What undoing the cipher on decoded ciphertext bytes yields: the unpadded
/// CBC decryption, or a padding error when the length is not a positive
/// multiple of the block size or the decrypted padding is inconsistent.
pub open spec fn decipher_spec(key: Seq<u8>, iv: Seq<u8>, c: Seq<u8>) -> Result<
    Seq<u8>,
    CipherError,
> {
    if c.len() % 16 != 0 {
        Err(CipherError::PaddingError)
    } else {
        match pkcs7_unpad(cbc_decrypt_spec(key, iv, c)) {
            Some(p) => Ok(p),
            None => Err(CipherError::PaddingError),
        }
    }
}

/// What decrypting a stored text yields: a decode error unless the text is
/// canonical base64 of some byte sequence, else the cipher undone on those
/// bytes.
pub open spec fn decrypt_spec(key: Seq<u8>, iv: Seq<u8>, text: Seq<char>) -> Result<
    Seq<u8>,
    CipherError,
> {
    if exists|x: Seq<u8>| text == b64_of(x) {
        decipher_spec(key, iv, choose|x: Seq<u8>| text == b64_of(x))
    } else {
        Err(CipherError::DecodeError)
    }
}

/// The executable result carries exactly the bytes or the error the
/// specification names.
pub open spec fn agrees(r: Result<Vec<u8>, CipherError>, s: Result<Seq<u8>, CipherError>) -> bool {
    match s {
        Ok(p) => r is Ok && r->Ok_0@ == p,
        Err(e) => r == Err::<Vec<u8>, CipherError>(e),
    }
}

/// Encrypts a byte sequence for storage: pad, encrypt block by block, encode
/// as base64 text.
pub fn encrypt_bytes(km: &KeyMaterial, plain: &[u8]) -> (r: String)
    requires
        km.wf(),
        plain@.len() + 16 <= usize::MAX,
    ensures
        r@ == encrypt_spec(km.key@, km.iv@, plain@),
{
    let padded = pad(plain);
    let c = cbc_encrypt(km.key.as_slice(), km.iv.as_slice(), padded.as_slice());
    b64_encode(c.as_slice())
}

/// Decrypts a stored text back to the byte sequence it was made from.
/// The last clause is the round trip: decrypting what `encrypt_bytes` (or
/// any text equal to `encrypt_spec`) produced under the same key material
/// returns exactly the original bytes.
pub fn decrypt_bytes(km: &KeyMaterial, text: &str) -> (r: Result<Vec<u8>, CipherError>)
    requires
        km.wf(),
    ensures
        agrees(r, decrypt_spec(km.key@, km.iv@, text@)),
        forall|p: Seq<u8>|
            text@ == #[trigger] encrypt_spec(km.key@, km.iv@, p) ==> r is Ok && r->Ok_0@ == p,
{
    let decoded = b64_decode(text);
    match decoded {
        None => {
            proof {
                assert(!(exists|x: Seq<u8>| text@ == b64_of(x)));
                assert forall|p: Seq<u8>|
                    text@ == #[trigger] encrypt_spec(km.key@, km.iv@, p) implies false by {
                    assert(text@ == b64_of(cbc_encrypt_spec(km.key@, km.iv@, pkcs7_pad(p))));
                }
            }
            Err(CipherError::DecodeError)
        },
        Some(c) => {
            proof {
                assert(text@ == b64_of(c@));
                let x0 = choose|x: Seq<u8>| text@ == b64_of(x);
                assert(text@ == b64_of(x0));
                assert(x0 == c@);
                assert(decrypt_spec(km.key@, km.iv@, text@) == decipher_spec(
                    km.key@,
                    km.iv@,
                    c@,
                ));
            }
            if c.len() % 16 != 0 {
                proof {
                    assert forall|p: Seq<u8>|
                        text@ == #[trigger] encrypt_spec(km.key@, km.iv@, p) implies false by {
                        assert(text@ == b64_of(cbc_encrypt_spec(km.key@, km.iv@, pkcs7_pad(p))));
                        assert(c@ == cbc_encrypt_spec(km.key@, km.iv@, pkcs7_pad(p)));
                        lemma_cbc_encrypt_len(km.key@, km.iv@, pkcs7_pad(p));
                    }
                }
                Err(CipherError::PaddingError)
            } else {
                let plain = cbc_decrypt(km.key.as_slice(), km.iv.as_slice(), c.as_slice());
                let r = unpad(plain.as_slice());
                proof {
                    assert forall|p: Seq<u8>|
                        text@ == #[trigger] encrypt_spec(km.key@, km.iv@, p) implies r is Ok
                        && r->Ok_0@ == p by {
                        let data = cbc_encrypt_spec(km.key@, km.iv@, pkcs7_pad(p));
                        assert(text@ == b64_of(data));
                        assert(c@ == data);
                        lemma_cbc_encrypt_len(km.key@, km.iv@, pkcs7_pad(p));
                        assert(pkcs7_pad(p).len() == c@.len());
                        assert(plain@ == pkcs7_pad(p));
                        lemma_pkcs7_round_trip(p);
                        assert(pkcs7_unpad(plain@) == Some(p));
                    }
                }
                r
            }
        },
    }
}

/// What recovering a stored secret as text yields: the byte pipeline's
/// result decoded as UTF-8, or an encoding error when the decrypted bytes
/// are not valid UTF-8 text.
pub open spec fn decrypt_text_spec(key: Seq<u8>, iv: Seq<u8>, text: Seq<char>) -> Result<
    Seq<char>,
    CipherError,
> {
    match decrypt_spec(key, iv, text) {
        Ok(p) => if valid_utf8(p) {
            Ok(decode_utf8(p))
        } else {
            Err(CipherError::EncodingError)
        },
        Err(e) => Err(e),
    }
}

/// The executable result carries exactly the text or the error the
/// specification names.
pub open spec fn text_agrees(r: Result<String, CipherError>, s: Result<
    Seq<char>,
    CipherError,
>) -> bool {
    match s {
        Ok(p) => r is Ok && r->Ok_0@ == p,
        Err(e) => r == Err::<String, CipherError>(e),
    }
}

/// Relies on `String::from_utf8` (std): it succeeds exactly on valid UTF-8
/// input and returns the text those bytes encode.
#[verifier::external_body]
fn bytes_to_string(v: Vec<u8>) -> (r: Option<String>)
    ensures
        r is Some <==> valid_utf8(v@),
        r is Some ==> r->0@ == decode_utf8(v@) && encode_utf8(r->0@) == v@,
{
    match String::from_utf8(v) {
        Ok(s) => Some(s),
        Err(_) => None,
    }
}

/// Encrypts a text secret: its UTF-8 bytes go through the byte pipeline.
pub fn encrypt(km: &KeyMaterial, plain: &str) -> (r: String)
    requires
        km.wf(),
        encode_utf8(plain@).len() + 16 <= usize::MAX,
    ensures
        r@ == encrypt_spec(km.key@, km.iv@, encode_utf8(plain@)),
{
    let bytes = plain.as_bytes();
    encrypt_bytes(km, bytes)
}

/// Decrypts a stored secret back to the text it was made from. The last
/// clause is the round trip: decrypting what `encrypt` produced under the
/// same key material returns exactly the original text.
pub fn decrypt(km: &KeyMaterial, text: &str) -> (r: Result<String, CipherError>)
    requires
        km.wf(),
    ensures
        text_agrees(r, decrypt_text_spec(km.key@, km.iv@, text@)),
        forall|s: Seq<char>|
            text@ == #[trigger] encrypt_spec(km.key@, km.iv@, encode_utf8(s)) ==> r is Ok
                && r->Ok_0@ == s,
{
    let step = decrypt_bytes(km, text);
    match step {
        Err(e) => {
            proof {
                assert forall|s: Seq<char>|
                    text@ == #[trigger] encrypt_spec(km.key@, km.iv@, encode_utf8(s))
                    implies false by {}
            }
            Err(e)
        },
        Ok(p) => {
            let ghost pv = p@;
            let converted = bytes_to_string(p);
            match converted {
                None => {
                    proof {
                        assert forall|s: Seq<char>|
                            text@ == #[trigger] encrypt_spec(km.key@, km.iv@, encode_utf8(s))
                            implies false by {
                            assert(pv == encode_utf8(s));
                            encode_utf8_valid_utf8(s);
                        }
                    }
                    Err(CipherError::EncodingError)
                },
                Some(s) => {
                    proof {
                        assert forall|q: Seq<char>|
                            text@ == #[trigger] encrypt_spec(km.key@, km.iv@, encode_utf8(q))
                            implies s@ == q by {
                            assert(pv == encode_utf8(q));
                            encode_utf8_decode_utf8(q);
                        }
                    }
                    Ok(s)
                },
            }
        },
    }
}

} // verus!


use vstd::prelude::*;
use aes::{Aes256, BlockDecrypt, BlockEncrypt, NewBlockCipher};
use aes::cipher::generic_array::GenericArray;

verus! {

/// What `aes::Aes256::encrypt_block` computes: the AES-256 block permutation,
/// a function of the 32-byte key and the 16-byte block alone.
pub uninterp spec fn aes256_encrypt_spec(key: Seq<u8>, block: Seq<u8>) -> Seq<u8>;

/// What `aes::Aes256::decrypt_block` computes: the inverse AES-256 block
/// permutation, a function of the 32-byte key and the 16-byte block alone.
pub uninterp spec fn aes256_decrypt_spec(key: Seq<u8>, block: Seq<u8>) -> Seq<u8>;

/// The encrypted block, normalized to its 16-byte width.
pub open spec fn enc_block(key: Seq<u8>, block: Seq<u8>) -> Seq<u8> {
    Seq::new(16, |i: int| aes256_encrypt_spec(key, block)[i])
}

/// The decrypted block, normalized to its 16-byte width.
pub open spec fn dec_block(key: Seq<u8>, block: Seq<u8>) -> Seq<u8> {
    Seq::new(16, |i: int| aes256_decrypt_spec(key, block)[i])
}

/// Relies on `aes::Aes256::encrypt_block` (the `aes` crate): encrypting a
/// 16-byte block under a 32-byte key yields a 16-byte block that depends on
/// key and block alone.
#[verifier::external_body]
pub(crate) fn encrypt_block(key: &[u8], block: &[u8]) -> (r: Vec<u8>)
    requires
        key@.len() == 32,
        block@.len() == 16,
    ensures
        r@ == aes256_encrypt_spec(key@, block@),
        r@ == enc_block(key@, block@),
{
    let cipher = Aes256::new(GenericArray::from_slice(key));
    let mut b = aes::Block::clone_from_slice(block);
    cipher.encrypt_block(&mut b);
    b.to_vec()
}

/// Relies on `aes::Aes256::decrypt_block` (the `aes` crate): block decryption
/// depends on key and block alone and inverts block encryption, so if the
/// input block is the encryption of some 16-byte block `p`, then `p` comes
/// back.
#[verifier::external_body]
pub(crate) fn decrypt_block(key: &[u8], block: &[u8]) -> (r: Vec<u8>)
    requires
        key@.len() == 32,
        block@.len() == 16,
    ensures
        r@ == aes256_decrypt_spec(key@, block@),
        r@ == dec_block(key@, block@),
        forall|p: Seq<u8>| p.len() == 16 && block@ == #[trigger] enc_block(key@, p) ==> r@ == p,
{
    let cipher = Aes256::new(GenericArray::from_slice(key));
    let mut b = aes::Block::clone_from_slice(block);
    cipher.decrypt_block(&mut b);
    b.to_vec()
}

/// Bytewise exclusive-or of two equally long byte sequences.
pub open spec fn xor_bytes(a: Seq<u8>, b: Seq<u8>) -> Seq<u8> {
    Seq::new(a.len(), |i: int| a[i] ^ b[i])
}

/// Exclusive-or of two 16-byte blocks.
pub fn xor16(a: &[u8], b: &[u8]) -> (r: Vec<u8>)
    requires
        a@.len() == 16,
        b@.len() == 16,
    ensures
        r@ == xor_bytes(a@, b@),
{
    let mut out: Vec<u8> = Vec::new();
    let mut i: usize = 0;
    while i < 16
        invariant
            a@.len() == 16,
            b@.len() == 16,
            i <= 16,
            out@.len() == i,
            forall|j: int| 0 <= j < i ==> out@[j] == (a@[j] ^ b@[j]),
        decreases 16 - i,
    {
        out.push(a[i] ^ b[i]);
        i = i + 1;
    }
    proof {
        assert(out@ =~= xor_bytes(a@, b@));
    }
    out
}

/// Exclusive-or is its own inverse: masking a block twice with the same mask
/// gives the block back.
pub proof fn lemma_xor_cancel(mask: Seq<u8>, a: Seq<u8>)
    requires
        mask.len() == a.len(),
    ensures
        xor_bytes(mask, xor_bytes(mask, a)) == a,
{
    assert forall|i: int| 0 <= i < a.len() implies xor_bytes(mask, xor_bytes(mask, a))[i] == a[i] by {
        let x = mask[i];
        let y = a[i];
        assert(x ^ (x ^ y) == y) by (bit_vector);
    }
    assert(xor_bytes(mask, xor_bytes(mask, a)) =~= a);
}

} // verus!

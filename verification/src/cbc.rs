use vstd::prelude::*;
use crate::blocks::{
    dec_block, decrypt_block, enc_block, encrypt_block, lemma_xor_cancel, xor16, xor_bytes,
};

verus! {

/// Block `j` (16 bytes) of a byte sequence.
pub open spec fn blk(data: Seq<u8>, j: int) -> Seq<u8> {
    data.subrange(16 * j, 16 * j + 16)
}

/// Cipher-block-chaining encryption with chaining value `prev`: each
/// plaintext block is masked with the previous ciphertext block (initially
/// `prev`, the initialization vector) and then encrypted.
pub open spec fn cbc_encrypt_spec(key: Seq<u8>, prev: Seq<u8>, p: Seq<u8>) -> Seq<u8>
    decreases p.len(),
{
    if p.len() < 16 {
        Seq::empty()
    } else {
        let c = enc_block(key, xor_bytes(prev, p.take(16)));
        c + cbc_encrypt_spec(key, c, p.skip(16))
    }
}

/// Cipher-block-chaining decryption with chaining value `prev`: each
/// ciphertext block is decrypted and then unmasked with the previous
/// ciphertext block (initially `prev`).
pub open spec fn cbc_decrypt_spec(key: Seq<u8>, prev: Seq<u8>, c: Seq<u8>) -> Seq<u8>
    decreases c.len(),
{
    if c.len() < 16 {
        Seq::empty()
    } else {
        xor_bytes(prev, dec_block(key, c.take(16))) + cbc_decrypt_spec(key, c.take(16), c.skip(16))
    }
}

/// CBC encryption keeps the length of a block-aligned message.
pub proof fn lemma_cbc_encrypt_len(key: Seq<u8>, prev: Seq<u8>, p: Seq<u8>)
    requires
        p.len() % 16 == 0,
    ensures
        cbc_encrypt_spec(key, prev, p).len() == p.len(),
    decreases p.len(),
{
    if p.len() >= 16 {
        let c = enc_block(key, xor_bytes(prev, p.take(16)));
        assert(p.skip(16).len() % 16 == 0);
        lemma_cbc_encrypt_len(key, c, p.skip(16));
    }
}

/// CBC decryption keeps the length of a block-aligned ciphertext.
pub proof fn lemma_cbc_decrypt_len(key: Seq<u8>, prev: Seq<u8>, c: Seq<u8>)
    requires
        c.len() % 16 == 0,
        prev.len() == 16,
    ensures
        cbc_decrypt_spec(key, prev, c).len() == c.len(),
    decreases c.len(),
{
    if c.len() >= 16 {
        assert(c.skip(16).len() % 16 == 0);
        lemma_cbc_decrypt_len(key, c.take(16), c.skip(16));
    }
}

/// The chaining value that precedes block `j` of a CBC encryption: the
/// initialization vector for the first block, else the previous ciphertext
/// block.
pub open spec fn cbc_prev_block(key: Seq<u8>, prev: Seq<u8>, p: Seq<u8>, j: int) -> Seq<u8> {
    if j <= 0 {
        prev
    } else {
        blk(cbc_encrypt_spec(key, prev, p), j - 1)
    }
}

/// Ciphertext block `j` of a CBC encryption is the block encryption of
/// plaintext block `j` masked with the chaining value before it.
pub proof fn lemma_cbc_encrypt_block(key: Seq<u8>, prev: Seq<u8>, p: Seq<u8>, j: int)
    requires
        p.len() % 16 == 0,
        0 <= j,
        16 * j + 16 <= p.len(),
    ensures
        blk(cbc_encrypt_spec(key, prev, p), j) == enc_block(
            key,
            xor_bytes(cbc_prev_block(key, prev, p, j), blk(p, j)),
        ),
    decreases j,
{
    let c0 = enc_block(key, xor_bytes(prev, p.take(16)));
    let rest = cbc_encrypt_spec(key, c0, p.skip(16));
    let full = cbc_encrypt_spec(key, prev, p);
    lemma_cbc_encrypt_len(key, prev, p);
    assert(p.skip(16).len() % 16 == 0);
    lemma_cbc_encrypt_len(key, c0, p.skip(16));
    assert(full == c0 + rest);
    if j == 0 {
        assert(blk(full, 0) =~= c0);
        assert(blk(p, 0) =~= p.take(16));
    } else {
        lemma_cbc_encrypt_block(key, c0, p.skip(16), j - 1);
        assert(blk(full, j) =~= blk(rest, j - 1));
        assert(blk(p.skip(16), j - 1) =~= blk(p, j));
        if j == 1 {
            assert(cbc_prev_block(key, c0, p.skip(16), 0) == c0);
            assert(blk(full, 0) =~= c0);
        } else {
            assert(cbc_prev_block(key, c0, p.skip(16), j - 1) == blk(rest, j - 2));
            assert(blk(rest, j - 2) =~= blk(full, j - 1));
        }
    }
}

/// Copies block `j` out of a byte sequence.
pub fn take_block(data: &[u8], j: usize) -> (r: Vec<u8>)
    requires
        16 * j + 16 <= data@.len(),
    ensures
        r@ == blk(data@, j as int),
{
    let mut out: Vec<u8> = Vec::new();
    let dl: usize = data.len();
    let base: usize = 16 * j;
    let mut t: usize = 0;
    while t < 16
        invariant
            16 * j + 16 <= data@.len(),
            base == 16 * j,
            t <= 16,
            out@.len() == t,
            forall|u: int| 0 <= u < t ==> out@[u] == data@[16 * j + u],
        decreases 16 - t,
    {
        out.push(data[base + t]);
        t = t + 1;
    }
    proof {
        assert(out@ =~= blk(data@, j as int));
    }
    out
}

/// Appends all of `b` to `out`.
pub fn append_bytes(out: &mut Vec<u8>, b: &[u8])
    ensures
        final(out)@ == old(out)@ + b@,
{
    let mut t: usize = 0;
    while t < b.len()
        invariant
            t <= b@.len(),
            out@.len() == old(out)@.len() + t,
            forall|u: int| 0 <= u < old(out)@.len() ==> out@[u] == old(out)@[u],
            forall|u: int| 0 <= u < t ==> #[trigger] out@[old(out)@.len() + u] == b@[u],
        decreases b@.len() - t,
    {
        out.push(b[t]);
        t = t + 1;
    }
    proof {
        assert forall|i: int| 0 <= i < out@.len() implies out@[i] == (old(out)@ + b@)[i] by {
            if i >= old(out)@.len() {
                assert(out@[old(out)@.len() + (i - old(out)@.len())] == b@[i - old(out)@.len()]);
            }
        }
        assert(out@ =~= old(out)@ + b@);
    }
}

/// Encrypts a block-aligned message in cipher-block-chaining mode under a
/// 32-byte key and a 16-byte initialization vector.
pub fn cbc_encrypt(key: &[u8], iv: &[u8], data: &[u8]) -> (r: Vec<u8>)
    requires
        key@.len() == 32,
        iv@.len() == 16,
        data@.len() % 16 == 0,
    ensures
        r@ == cbc_encrypt_spec(key@, iv@, data@),
        r@.len() == data@.len(),
{
    let n: usize = data.len() / 16;
    let mut out: Vec<u8> = Vec::new();
    let mut prev: Vec<u8> = take_iv(iv);
    let mut j: usize = 0;
    proof {
        lemma_cbc_encrypt_len(key@, iv@, data@);
        assert(data@.skip(0) =~= data@);
        assert(Seq::<u8>::empty() + cbc_encrypt_spec(key@, iv@, data@) =~= cbc_encrypt_spec(
            key@,
            iv@,
            data@,
        ));
    }
    while j < n
        invariant
            key@.len() == 32,
            data@.len() % 16 == 0,
            n == data@.len() / 16,
            j <= n,
            prev@.len() == 16,
            out@.len() == 16 * j,
            out@ + cbc_encrypt_spec(key@, prev@, data@.skip(16 * j)) == cbc_encrypt_spec(
                key@,
                iv@,
                data@,
            ),
        decreases n - j,
    {
        let b = take_block(data, j);
        let x = xor16(prev.as_slice(), b.as_slice());
        let c = encrypt_block(key, x.as_slice());
        proof {
            let rest = data@.skip(16 * j as int);
            assert(rest.len() == data@.len() - 16 * j);
            assert(rest.take(16) =~= blk(data@, j as int));
            assert(rest.skip(16) =~= data@.skip(16 * (j + 1) as int));
            assert(cbc_encrypt_spec(key@, prev@, rest) == c@ + cbc_encrypt_spec(
                key@,
                c@,
                data@.skip(16 * (j + 1) as int),
            ));
            assert((out@ + c@) + cbc_encrypt_spec(key@, c@, data@.skip(16 * (j + 1) as int))
                =~= out@ + cbc_encrypt_spec(key@, prev@, rest));
        }
        append_bytes(&mut out, c.as_slice());
        prev = c;
        j = j + 1;
    }
    proof {
        assert(data@.skip(16 * n as int) =~= Seq::<u8>::empty());
        assert(out@ + Seq::<u8>::empty() =~= out@);
        lemma_cbc_encrypt_len(key@, iv@, data@);
    }
    out
}

/// Copies the initialization vector.
fn take_iv(iv: &[u8]) -> (r: Vec<u8>)
    requires
        iv@.len() == 16,
    ensures
        r@ == iv@,
{
    let mut out: Vec<u8> = Vec::new();
    let mut t: usize = 0;
    while t < 16
        invariant
            iv@.len() == 16,
            t <= 16,
            out@.len() == t,
            forall|u: int| 0 <= u < t ==> out@[u] == iv@[u],
        decreases 16 - t,
    {
        out.push(iv[t]);
        t = t + 1;
    }
    proof {
        assert(out@ =~= iv@);
    }
    out
}

/// Decrypts a block-aligned ciphertext in cipher-block-chaining mode. Beyond
/// computing the CBC decryption, the contract states the round trip: if the
/// ciphertext is the CBC encryption of some block-aligned message under the
/// same key and initialization vector, that message is returned.
pub fn cbc_decrypt(key: &[u8], iv: &[u8], data: &[u8]) -> (r: Vec<u8>)
    requires
        key@.len() == 32,
        iv@.len() == 16,
        data@.len() % 16 == 0,
    ensures
        r@ == cbc_decrypt_spec(key@, iv@, data@),
        r@.len() == data@.len(),
        forall|p: Seq<u8>|
            p.len() == data@.len() && data@ == #[trigger] cbc_encrypt_spec(key@, iv@, p) ==> r@
                == p,
{
    let n: usize = data.len() / 16;
    let mut out: Vec<u8> = Vec::new();
    let mut prev: Vec<u8> = take_iv(iv);
    let mut j: usize = 0;
    proof {
        lemma_cbc_decrypt_len(key@, iv@, data@);
        assert(data@.skip(0) =~= data@);
        assert(Seq::<u8>::empty() + cbc_decrypt_spec(key@, iv@, data@) =~= cbc_decrypt_spec(
            key@,
            iv@,
            data@,
        ));
        assert(forall|p: Seq<u8>| #[trigger] p.take(0) =~= Seq::<u8>::empty());
    }
    while j < n
        invariant
            key@.len() == 32,
            iv@.len() == 16,
            data@.len() % 16 == 0,
            n == data@.len() / 16,
            j <= n,
            prev@.len() == 16,
            prev@ == (if j == 0 {
                iv@
            } else {
                blk(data@, j - 1)
            }),
            out@.len() == 16 * j,
            out@ + cbc_decrypt_spec(key@, prev@, data@.skip(16 * j)) == cbc_decrypt_spec(
                key@,
                iv@,
                data@,
            ),
            forall|p: Seq<u8>|
                p.len() == data@.len() && data@ == #[trigger] cbc_encrypt_spec(key@, iv@, p)
                    ==> out@ == p.take(16 * j),
        decreases n - j,
    {
        let b = take_block(data, j);
        let d = decrypt_block(key, b.as_slice());
        let x = xor16(prev.as_slice(), d.as_slice());
        proof {
            let rest = data@.skip(16 * j as int);
            assert(rest.take(16) =~= blk(data@, j as int));
            assert(rest.skip(16) =~= data@.skip(16 * (j + 1) as int));
            assert(rest.take(16) == b@);
            assert(cbc_decrypt_spec(key@, prev@, rest) == x@ + cbc_decrypt_spec(
                key@,
                b@,
                data@.skip(16 * (j + 1) as int),
            ));
            assert((out@ + x@) + cbc_decrypt_spec(key@, b@, data@.skip(16 * (j + 1) as int))
                =~= out@ + cbc_decrypt_spec(key@, prev@, rest));
            assert forall|p: Seq<u8>|
                p.len() == data@.len() && data@ == #[trigger] cbc_encrypt_spec(
                    key@,
                    iv@,
                    p,
                ) implies out@ + x@ == p.take(16 * (j + 1)) by {
                lemma_cbc_encrypt_block(key@, iv@, p, j as int);
                let mask = cbc_prev_block(key@, iv@, p, j as int);
                assert(mask == prev@);
                let q = xor_bytes(prev@, blk(p, j as int));
                assert(blk(p, j as int).len() == 16);
                assert(q.len() == 16);
                assert(b@ == enc_block(key@, q));
                assert(d@ == q);
                lemma_xor_cancel(prev@, blk(p, j as int));
                assert(x@ == blk(p, j as int));
                assert(p.take(16 * (j + 1) as int) =~= p.take(16 * j as int) + blk(
                    p,
                    j as int,
                ));
            }
        }
        append_bytes(&mut out, x.as_slice());
        prev = b;
        j = j + 1;
    }
    proof {
        assert(data@.skip(16 * n as int) =~= Seq::<u8>::empty());
        assert(out@ + Seq::<u8>::empty() =~= out@);
        lemma_cbc_decrypt_len(key@, iv@, data@);
        assert forall|p: Seq<u8>|
            p.len() == data@.len() && data@ == #[trigger] cbc_encrypt_spec(key@, iv@, p)
            implies out@ == p by {
            assert(p.take(16 * n as int) =~= p);
        }
    }
    out
}

} // verus!

use vstd::prelude::*;
use crate::errors::CipherError;

verus! {

/// How many padding bytes PKCS#7 appends to a message of length `n`:
/// always between 1 and 16, bringing the length to a multiple of 16.
pub open spec fn pad_len(n: nat) -> nat {
    (16 - (n % 16)) as nat
}

/// The message with PKCS#7 padding appended: `pad_len(n)` bytes, each
/// holding the value `pad_len(n)`.
pub open spec fn pkcs7_pad(p: Seq<u8>) -> Seq<u8> {
    p + Seq::new(pad_len(p.len()), |i: int| pad_len(p.len()) as u8)
}

/// The message with PKCS#7 padding removed, or `None` if the tail is not
/// well-formed padding: the length must be a positive multiple of 16, the
/// last byte `k` must lie in 1..=16, and the last `k` bytes must all be `k`.
pub open spec fn pkcs7_unpad(q: Seq<u8>) -> Option<Seq<u8>> {
    if q.len() == 0 || q.len() % 16 != 0 {
        None
    } else {
        let k = q[q.len() - 1] as int;
        if 1 <= k <= 16 && (forall|i: int| q.len() - k <= i < q.len() ==> #[trigger] q[i] == q[q.len() - 1]) {
            Some(q.take(q.len() - k))
        } else {
            None
        }
    }
}

/// Appends PKCS#7 padding to `data`.
pub fn pad(data: &[u8]) -> (r: Vec<u8>)
    requires
        data@.len() + 16 <= usize::MAX,
    ensures
        r@ == pkcs7_pad(data@),
        r@.len() % 16 == 0,
        r@.len() == data@.len() + pad_len(data@.len()),
{
    let n: usize = data.len();
    let k: usize = 16 - (n % 16);
    let mut out: Vec<u8> = Vec::new();
    let mut i: usize = 0;
    while i < n
        invariant
            i <= n,
            n == data@.len(),
            out@.len() == i,
            forall|j: int| 0 <= j < i ==> out@[j] == data@[j],
        decreases n - i,
    {
        out.push(data[i]);
        i = i + 1;
    }
    let mut t: usize = 0;
    while t < k
        invariant
            t <= k,
            n == data@.len(),
            k == pad_len(n as nat),
            out@.len() == n + t,
            forall|j: int| 0 <= j < n ==> out@[j] == data@[j],
            forall|j: int| n <= j < n + t ==> out@[j] == k as u8,
        decreases k - t,
    {
        out.push(k as u8);
        t = t + 1;
    }
    proof {
        assert(out@ =~= pkcs7_pad(data@));
    }
    out
}

/// Strips and validates PKCS#7 padding; fails with `PaddingError` when the
/// tail is not well-formed padding.
pub fn unpad(data: &[u8]) -> (r: Result<Vec<u8>, CipherError>)
    ensures
        pkcs7_unpad(data@) is Some ==> r is Ok && r->Ok_0@ == pkcs7_unpad(data@)->0,
        pkcs7_unpad(data@) is None ==> r == Err::<Vec<u8>, CipherError>(CipherError::PaddingError),
{
    let n: usize = data.len();
    if n == 0 || n % 16 != 0 {
        return Err(CipherError::PaddingError);
    }
    let last: u8 = data[n - 1];
    if last < 1 || last > 16 {
        return Err(CipherError::PaddingError);
    }
    let k: usize = last as usize;
    let mut i: usize = n - k;
    while i < n
        invariant
            n == data@.len(),
            0 < n,
            n % 16 == 0,
            1 <= k <= 16,
            k == data@[n - 1] as int,
            last == data@[n - 1],
            n - k <= i <= n,
            forall|j: int| n - k <= j < i ==> #[trigger] data@[j] == data@[n - 1],
        decreases n - i,
    {
        if data[i] != last {
            return Err(CipherError::PaddingError);
        }
        i = i + 1;
    }
    let mut out: Vec<u8> = Vec::new();
    let mut t: usize = 0;
    while t < n - k
        invariant
            n == data@.len(),
            k <= n,
            out@.len() == t,
            t <= n - k,
            forall|j: int| 0 <= j < t ==> out@[j] == data@[j],
        decreases n - k - t,
    {
        out.push(data[t]);
        t = t + 1;
    }
    proof {
        assert(out@ =~= pkcs7_unpad(data@)->0);
    }
    Ok(out)
}

/// Removing PKCS#7 padding recovers exactly the message it was applied to.
pub proof fn lemma_pkcs7_round_trip(p: Seq<u8>)
    ensures
        pkcs7_unpad(pkcs7_pad(p)) == Some(p),
{
    let k = pad_len(p.len());
    let q = pkcs7_pad(p);
    assert(1 <= k <= 16);
    assert(q.len() == p.len() + k);
    assert((p.len() + k) % 16 == 0) by {
        let n = p.len() as int;
        assert(n % 16 + (16 - n % 16) == 16);
        assert((n + (16 - n % 16)) % 16 == 0) by (nonlinear_arith);
    }
    assert(q[q.len() - 1] == k as u8);
    assert(forall|i: int| q.len() - k <= i < q.len() ==> #[trigger] q[i] == q[q.len() - 1]);
    assert(q.take(q.len() - k as int) =~= p);
}

} // verus!

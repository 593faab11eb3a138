use crate::error::DiffError;
use blake2::{Blake2s256, Digest};
use vstd::prelude::*;

verus! {

/// The BLAKE2s-256 digest of `data`. The digest is a pure function of the
/// input bytes, so it is modelled as an unspecified function of them; the
/// only fact stated beside it is its documented length of 32 bytes.
pub uninterp spec fn blake2s_of(data: Seq<u8>) -> Seq<u8>;

/// Relies on blake2's `Blake2s256` (via digest's `Digest` trait): a
/// deterministic 32-byte digest that depends on the input bytes alone.
#[verifier::external_body]
pub fn get_blake2(chunk: Vec<u8>) -> (r: Result<Vec<u8>, DiffError>)
    ensures
        r is Ok,
        r->Ok_0@ == blake2s_of(chunk@),
        r->Ok_0@.len() == 32,
{
    let mut hasher = Blake2s256::new();
    hasher.update(chunk);
    let result = hasher.finalize().as_slice().to_vec();

    Ok(result)
}

/// Byte-wise equality of two slices.
pub fn bytes_eq(a: &[u8], b: &[u8]) -> (r: bool)
    ensures
        r == (a@ == b@),
{
    if a.len() != b.len() {
        return false;
    }
    let n: usize = a.len();
    let mut i: usize = 0;
    while i < n
        invariant
            i <= n,
            n == a@.len(),
            n == b@.len(),
            forall|j: int| 0 <= j < i ==> a@[j] == b@[j],
        decreases n - i,
    {
        if a[i] != b[i] {
            return false;
        }
        i = i + 1;
    }
    proof {
        assert(a@ =~= b@);
    }
    true
}

} // verus!

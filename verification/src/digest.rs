//! SHA-1 digests: each piece of the torrent is verified against its
//! 20-byte entry in the metainfo hash table.
use vstd::prelude::*;

verus! {

/// The 20-byte SHA-1 digest of a byte string, a function of those bytes
/// alone. Its value is not spelled out here; `sha1_digest` computes it.
pub uninterp spec fn sha1_of(data: Seq<u8>) -> Seq<u8>;

/// Relies on sha1::Sha1::from together with digest().bytes(): the 20-byte
/// SHA-1 digest of the input, depending on the input bytes alone.
#[verifier::external_body]
pub fn sha1_digest(data: &Vec<u8>) -> (r: [u8; 20])
    ensures
        r@ == sha1_of(data@),
        r@.len() == 20,
{
    sha1::Sha1::from(data.as_slice()).digest().bytes()
}

/// Compares two 20-byte digests.
pub fn digest_eq(a: &[u8; 20], b: &[u8; 20]) -> (r: bool)
    ensures
        r == (a@ =~= b@),
{
    let mut i: usize = 0;
    while i < 20
        invariant
            0 <= i <= 20,
            forall|j: int| 0 <= j < i ==> a@[j] == b@[j],
        decreases 20 - i,
    {
        if a[i] != b[i] {
            return false;
        }
        i = i + 1;
    }
    true
}

} // verus!

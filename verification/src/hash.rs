//! The 64-bit hash by which objects are placed.
use vstd::prelude::*;

verus! {

/// The XXH3 64-bit digest of a byte string, with the default secret and seed zero.
pub uninterp spec fn xxh3_64(data: Seq<u8>) -> u64;

/// `twox_hash::xxh3::hash64`: the digest depends on the bytes alone.
#[verifier::external_body]
pub(crate) fn hash64(data: &[u8]) -> (h: u64)
    ensures
        h == xxh3_64(data@),
{
    twox_hash::xxh3::hash64(data)
}

} // verus!

//! The SHA-1 digest used to derive content identifiers, named abstractly:
//! the digest is a function of the input bytes alone.

use sha1::Digest;
use vstd::prelude::*;

verus! {

/// The 20-byte SHA-1 digest of a byte sequence.
pub uninterp spec fn sha1_of(bytes: Seq<u8>) -> Seq<u8>;

/// Relies on sha1::Sha1 (Digest::update then Digest::finalize): the 20-byte
/// SHA-1 digest of the input, a function of the input bytes alone.
#[verifier::external_body]
pub fn sha1_digest(bytes: &Vec<u8>) -> (r: [u8; 20])
    ensures
        r@ == sha1_of(bytes@),
{
    let mut hasher = sha1::Sha1::new();
    hasher.update(bytes.as_slice());
    let out = hasher.finalize();
    let mut r = [0u8; 20];
    r.copy_from_slice(&out);
    r
}

} // verus!

//! The SHA-1 primitive, consumed as a pure function from bytes to a 20-byte
//! digest.

use vstd::prelude::*;

use crypto::digest::Digest;

verus! {

/// The 20-byte SHA-1 digest of a byte sequence.  The digest is a function of
/// the input bytes alone.
pub uninterp spec fn sha1_of(data: Seq<u8>) -> Seq<u8>;

/// Relies on `crypto::sha1::Sha1` (through `crypto::digest::Digest`): the
/// SHA-1 digest of the input, 20 bytes, depending on the input bytes alone.
#[verifier::external_body]
pub fn calculate_sha1(input: &[u8]) -> (r: Vec<u8>)
    ensures
        r@ == sha1_of(input@),
        r@.len() == 20,
{
    let mut hasher = crypto::sha1::Sha1::new();
    hasher.input(input);
    let mut buf: Vec<u8> = vec![0; hasher.output_bytes()];
    hasher.result(&mut buf);
    buf
}

} // verus!

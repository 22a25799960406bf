//! The content hash: glyphs are addressed by the SHA-256 digest of their
//! canonical encoding.  The digest itself comes from an outside
//! implementation; this library names its result and proves everything else.

use vstd::prelude::*;

verus! {

/// The SHA-256 digest of a byte sequence: a function of the bytes alone.
pub uninterp spec fn sha256_of(data: Seq<u8>) -> Seq<u8>;

/// Relies on `sha2::Sha256` (the `Digest::digest` one-shot): the digest is a
/// function of the input bytes alone, is always 32 bytes long, and the call
/// is total — it returns for every input.  This is the same digest the
/// Soroban host computes for `env.crypto().sha256`, which itself hashes
/// through the `sha2` crate.
#[verifier::external_body]
pub(crate) fn sha256(data: &Vec<u8>) -> (r: Vec<u8>)
    ensures
        r@ == sha256_of(data@),
        r@.len() == 32,
{
    let digest = <sha2::Sha256 as sha2::Digest>::digest(data.as_slice());
    AsRef::<[u8]>::as_ref(&digest).to_vec()
}

} // verus!

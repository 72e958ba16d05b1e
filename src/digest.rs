use vstd::prelude::*;

verus! {

/// The SHA-1 digest of a byte string.
pub uninterp spec fn sha1_of(content: Seq<u8>) -> Seq<u8>;

/// Relies on `sha1::Sha1::digest` (through the `digest::Digest` trait): the SHA-1 digest
/// of the whole input, which depends on the input bytes alone.
#[verifier::external_body]
pub(crate) fn sha1_digest(content: &[u8]) -> (r: Vec<u8>)
    ensures
        r@ == sha1_of(content@),
{
    <sha1::Sha1 as sha1::Digest>::digest(content).to_vec()
}

/// The SHA-1 digest of a file's content, the value by which files of equal size are
/// told apart.
pub fn content_digest(content: &[u8]) -> (r: Vec<u8>)
    ensures
        r@ == sha1_of(content@),
{
    sha1_digest(content)
}

} // verus!

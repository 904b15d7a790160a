//! SHA-256 digests.

use crate::number::{hex, show_hex};
use vstd::prelude::*;

verus! {

/// The SHA-256 digest of data, as `sha2` computes it.
pub uninterp spec fn sha256(data: Seq<u8>) -> Seq<u8>;

/// `sha2::Sha256::digest`: 32 bytes that depend on the data alone.
#[verifier::external_body]
pub(crate) fn sha256_of(data: &[u8]) -> (r: Vec<u8>)
    ensures
        r@ == sha256(data@),
        r@.len() == 32,
{
    <sha2::Sha256 as sha2::Digest>::digest(data).to_vec()
}

/// The digest of data in hexadecimal.
pub open spec fn sha256_text(data: Seq<u8>) -> Seq<char> {
    hex(sha256(data))
}

/// The digest of data in hexadecimal: 64 lower-case digits.
pub fn sha256_hex(data: &[u8]) -> (r: String)
    ensures
        r@ == sha256_text(data@),
        r@.len() == 64,
{
    let d: Vec<u8> = sha256_of(data);
    proof {
        crate::number::lemma_hex_len(d@);
        assert(d@.take(d@.len() as int) =~= d@);
    }
    show_hex(d.as_slice(), d.len())
}

} // verus!

//! The integrity digest over encoded bytes.

use sha2::Digest;
use vstd::prelude::*;

verus! {

/// The SHA-256 digest of `data`, written as upper-case hexadecimal digits.
pub uninterp spec fn sha256_upper_hex(data: Seq<u8>) -> Seq<char>;

/// Relies on sha2's `Sha256::digest` for the SHA-256 digest of the bytes, and on
/// generic_array's `UpperHex` to write it out: the text depends on the bytes alone.
#[verifier::external_body]
pub(crate) fn sha256_hex(data: &Vec<u8>) -> (r: String)
    ensures
        r@ == sha256_upper_hex(data@),
{
    format!("{:X}", sha2::Sha256::digest(data))
}

} // verus!

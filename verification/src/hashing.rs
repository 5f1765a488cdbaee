//! SHA-1 digests and their hexadecimal form.

use vstd::prelude::*;

use sha1::{Digest, Sha1};

use crate::text::hex_text;

verus! {

/// The SHA-1 digest of a byte sequence.
pub uninterp spec fn sha1_digest(data: Seq<u8>) -> Seq<u8>;

/// Calls `sha1::Sha1::digest`, the one-shot form of the hasher. Believed:
/// the twenty bytes it returns are a function of the data alone, here named
/// `sha1_digest`.
#[verifier::external_body]
pub(crate) fn sha1_of(data: &[u8]) -> (digest: [u8; 20])
    ensures
        digest@ == sha1_digest(data@),
{
    Sha1::digest(data).into()
}

/// Calls `hex::encode`. Believed, as its documentation says: each byte
/// becomes two lower-case hexadecimal digits, the high one first.
#[verifier::external_body]
pub(crate) fn hex_of(bytes: &[u8]) -> (s: String)
    ensures
        s@ == hex_text(bytes@),
{
    hex::encode(bytes)
}

} // verus!

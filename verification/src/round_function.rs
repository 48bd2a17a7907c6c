//! The round function: a keyed pseudorandom function whose output is as long
//! as its input, built on SHA3-256.

use sha3::Digest;
use sha3::Sha3_256;
use vstd::prelude::*;

verus! {

/// The length in bytes of a SHA3-256 digest.
pub const DIGEST_LEN: usize = 32;

/// The SHA3-256 digest of `input`.
pub uninterp spec fn sha3_256(input: Seq<u8>) -> Seq<u8>;

/// A digest adapted to `len` bytes: cut off after `len` bytes where it is
/// longer, repeated cyclically where it is shorter. Byte `i` of the result
/// is byte `i mod digest.len()` of the digest, so the digest must not be
/// empty.
pub open spec fn fit_to_length(digest: Seq<u8>, len: nat) -> Seq<u8> {
    Seq::new(len, |i: int| digest[i % (digest.len() as int)])
}

/// What the round function returns for `data` under `subkey`: the digest of
/// `subkey` followed by `data`, adapted to the length of `data`.
pub open spec fn round_output(data: Seq<u8>, subkey: Seq<u8>) -> Seq<u8> {
    fit_to_length(sha3_256(subkey + data), data.len())
}

/// Hashes `input` with `sha3::Sha3_256::digest`, the one-shot form of the
/// hasher. Trusted: the result is the SHA3-256 digest of `input`, a function
/// of the input bytes alone, and is 32 bytes long.
#[verifier::external_body]
fn sha3_256_digest(input: &[u8]) -> (digest: Vec<u8>)
    ensures
        digest@ == sha3_256(input@),
        digest@.len() == DIGEST_LEN,
{
    Sha3_256::digest(input).to_vec()
}

/// Adapts a digest to `len` bytes.
pub fn fit_digest(digest: &[u8], len: usize) -> (out: Vec<u8>)
    requires
        digest@.len() > 0,
    ensures
        out@ == fit_to_length(digest@, len as nat),
        len <= digest@.len() ==> out@ == digest@.take(len as int),
{
    let mut out: Vec<u8> = Vec::new();
    let mut i: usize = 0;
    while i < len
        invariant
            i <= len,
            digest@.len() > 0,
            out@.len() == i,
            forall|j: int| 0 <= j < i ==> out@[j] == digest@[j % (digest@.len() as int)],
        decreases len - i,
    {
        out.push(digest[i % digest.len()]);
        i += 1;
    }
    proof {
        if len <= digest@.len() {
            assert forall|j: int| 0 <= j < len implies out@[j] == digest@[j] by {
                let modulus = digest@.len() as int;
                assert(j % modulus == j) by (nonlinear_arith)
                    requires
                        0 <= j < modulus,
                ;
            }
        }
    }
    out
}

/// The round function: hashes `subkey` followed by `data` and adapts the
/// digest to the length of `data`.
pub fn round_fn(data: &[u8], subkey: &[u8]) -> (out: Vec<u8>)
    ensures
        out@ == round_output(data@, subkey@),
        out@.len() == data@.len(),
{
    let mut input: Vec<u8> = Vec::new();
    input.extend_from_slice(subkey);
    input.extend_from_slice(data);
    assert(input@ =~= subkey@ + data@);
    let digest = sha3_256_digest(input.as_slice());
    fit_digest(digest.as_slice(), data.len())
}

} // verus!

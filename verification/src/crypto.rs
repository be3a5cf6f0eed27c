//! Hashing, credential text, and constant-time comparison.
//!
//! The two outside calls of this module are named, not written out: what
//! SHA-256 or base64 of given bytes is can only be established by running
//! them, so their results are opaque functions of their input and nothing
//! else.  The constant-time equality check is the library's own code and
//! fully verified.

use vstd::prelude::*;

verus! {

/// The SHA-256 digest of a byte string: a function of the bytes alone.
pub uninterp spec fn sha256_of(b: Seq<u8>) -> Seq<u8>;

/// The standard padded base64 text of a byte string: a function of the
/// bytes alone.
pub uninterp spec fn b64_of(b: Seq<u8>) -> Seq<char>;

/// Relies on `secret_toolkit_crypto::sha_256`: the SHA-256 digest of the
/// input, always exactly 32 bytes.
#[verifier::external_body]
pub(crate) fn sha256(b: &Vec<u8>) -> (r: Vec<u8>)
    ensures
        r@ == sha256_of(b@),
        r@.len() == 32,
{
    secret_toolkit_crypto::sha_256(b.as_slice()).to_vec()
}

/// Relies on `base64::encode`: the standard padded base64 rendering of the
/// input, four characters for every three bytes begun.
#[verifier::external_body]
pub(crate) fn b64_encode(b: &Vec<u8>) -> (r: String)
    ensures
        r@ == b64_of(b@),
        r@.len() == 4 * ((b@.len() + 2) / 3),
{
    base64::encode(b.as_slice())
}

/// Equality of two equal-length byte strings, decided in constant time:
/// the loop always walks the whole length, accumulating the difference,
/// with no data-dependent exit.  Removing this in favour of a
/// short-circuiting comparison would reopen a timing side channel.
pub fn ct_bytes_eq(a: &Vec<u8>, b: &Vec<u8>) -> (r: bool)
    requires
        a@.len() == b@.len(),
    ensures
        r == (a@ == b@),
{
    let mut diff: u8 = 0;
    let mut i: usize = 0;
    proof {
        assert(a@.subrange(0, 0) =~= b@.subrange(0, 0));
    }
    while i < a.len()
        invariant
            a@.len() == b@.len(),
            0 <= i <= a@.len(),
            (diff == 0) == (a@.subrange(0, i as int) == b@.subrange(0, i as int)),
        decreases a@.len() - i,
    {
        let x = a[i] ^ b[i];
        let ghost old_diff = diff;
        proof {
            let ai = a@[i as int];
            let bi = b@[i as int];
            assert(((ai ^ bi) == 0) == (ai == bi)) by (bit_vector);
            assert(((old_diff | (ai ^ bi)) == 0) == (old_diff == 0 && (ai ^ bi) == 0))
                by (bit_vector);
            assert(a@.subrange(0, i + 1).subrange(0, i as int) =~= a@.subrange(0, i as int));
            assert(b@.subrange(0, i + 1).subrange(0, i as int) =~= b@.subrange(0, i as int));
            assert(a@.subrange(0, i + 1)[i as int] == ai);
            assert(b@.subrange(0, i + 1)[i as int] == bi);
            if old_diff == 0 && ai == bi {
                assert(a@.subrange(0, i + 1) =~= a@.subrange(0, i as int).push(ai));
                assert(b@.subrange(0, i + 1) =~= b@.subrange(0, i as int).push(bi));
            }
        }
        diff = diff | x;
        i = i + 1;
    }
    proof {
        assert(a@.subrange(0, a@.len() as int) =~= a@);
        assert(b@.subrange(0, b@.len() as int) =~= b@);
    }
    diff == 0
}

} // verus!

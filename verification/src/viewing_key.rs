//! Viewing keys: the bearer credentials that gate reading a collection.
//!
//! A key is derived once from the deployment seed, the per-call entropy
//! and the invocation context, handed to the caller in plaintext exactly
//! once, and persisted only as its SHA-256 hash.  Verification hashes the
//! supplied key and compares in constant time; when no credential was
//! ever stored the caller compares against an all-zero buffer of the same
//! size instead of returning early, so absence and mismatch take the same
//! path.

use vstd::prelude::*;
use vstd::string::StrSliceExecFns;
use vstd::utf8::encode_utf8;

use crate::crypto::sha256_of;
use crate::crypto::b64_of;
use crate::crypto::sha256;
use crate::crypto::b64_encode;
use crate::crypto::ct_bytes_eq;
use crate::encoding::spec_chunk;
use crate::encoding::spec_be64;
use crate::encoding::spec_fits_u32;
use crate::encoding::push_chunk;
use crate::encoding::be64_encode;
use crate::state::Env;
use crate::state::spec_id_ok;

verus! {

/// Stored credential hashes are exactly this many bytes.
pub const VIEWING_KEY_SIZE: usize = 32;

/// The persisted form of a key: the SHA-256 hash of its UTF-8 bytes.
pub open spec fn spec_hashed_key(k: Seq<char>) -> Seq<u8> {
    sha256_of(encode_utf8(k))
}

/// The bytes hashed to derive a fresh key: seed, block context, caller
/// and entropy, each delimited so the combination is unambiguous.
pub open spec fn spec_derive_input(
    seed: Seq<u8>,
    height: u64,
    time: u64,
    sender: Seq<char>,
    entropy: Seq<u8>,
) -> Seq<u8> {
    spec_chunk(seed) + spec_be64(height) + spec_be64(time) + spec_chunk(encode_utf8(sender))
        + spec_chunk(entropy)
}

/// The plaintext of a freshly derived key: base64 of the derivation hash.
pub open spec fn spec_new_key(
    seed: Seq<u8>,
    height: u64,
    time: u64,
    sender: Seq<char>,
    entropy: Seq<u8>,
) -> Seq<char> {
    b64_of(sha256_of(spec_derive_input(seed, height, time, sender, entropy)))
}

/// A plaintext viewing key.
#[derive(Clone, Debug)]
pub struct ViewingKey(pub String);

impl ViewingKey {
    /// Derive a fresh key from the deployment seed, the invocation
    /// context and the caller-supplied entropy.
    pub fn new(env: &Env, seed: &Vec<u8>, entropy: &Vec<u8>) -> (r: Self)
        requires
            spec_fits_u32(seed@),
            spec_fits_u32(entropy@),
            spec_id_ok(env.sender@),
        ensures
            r.0@ == spec_new_key(seed@, env.block_height, env.block_time, env.sender@, entropy@),
    {
        let mut input: Vec<u8> = Vec::new();
        push_chunk(&mut input, seed);
        let hb = be64_encode(env.block_height);
        let tb = be64_encode(env.block_time);
        let mut i: usize = 0;
        while i < hb.len()
            invariant
                hb@ == spec_be64(env.block_height),
                0 <= i <= hb@.len(),
                input@ == spec_chunk(seed@) + hb@.subrange(0, i as int),
            decreases hb@.len() - i,
        {
            input.push(hb[i]);
            proof {
                assert(spec_chunk(seed@) + hb@.subrange(0, i + 1) =~= (spec_chunk(seed@)
                    + hb@.subrange(0, i as int)).push(hb@[i as int]));
            }
            i = i + 1;
        }
        proof {
            assert(hb@.subrange(0, hb@.len() as int) =~= hb@);
        }
        let mut j: usize = 0;
        while j < tb.len()
            invariant
                hb@ == spec_be64(env.block_height),
                tb@ == spec_be64(env.block_time),
                0 <= j <= tb@.len(),
                input@ == spec_chunk(seed@) + hb@ + tb@.subrange(0, j as int),
            decreases tb@.len() - j,
        {
            input.push(tb[j]);
            proof {
                assert(spec_chunk(seed@) + hb@ + tb@.subrange(0, j + 1) =~= (spec_chunk(seed@)
                    + hb@ + tb@.subrange(0, j as int)).push(tb@[j as int]));
            }
            j = j + 1;
        }
        proof {
            assert(tb@.subrange(0, tb@.len() as int) =~= tb@);
        }
        let sb = env.sender.as_str().as_bytes_vec();
        push_chunk(&mut input, &sb);
        push_chunk(&mut input, entropy);
        proof {
            assert(input@ =~= spec_derive_input(
                seed@,
                env.block_height,
                env.block_time,
                env.sender@,
                entropy@,
            ));
        }
        let h = sha256(&input);
        ViewingKey(b64_encode(&h))
    }

    /// The persisted form: the SHA-256 hash of this key's bytes.
    pub fn to_hashed(&self) -> (r: Vec<u8>)
        ensures
            r@ == spec_hashed_key(self.0@),
            r@.len() == 32,
    {
        let b = self.0.as_str().as_bytes_vec();
        sha256(&b)
    }

    /// Does this key hash to `hashed`?  Decided in constant time over the
    /// full hash length, whether `hashed` is a stored credential or the
    /// all-zero buffer used when none exists.
    pub fn check_viewing_key(&self, hashed: &Vec<u8>) -> (r: bool)
        requires
            hashed@.len() == 32,
        ensures
            r == (spec_hashed_key(self.0@) == hashed@),
    {
        let mine = self.to_hashed();
        ct_bytes_eq(&mine, hashed)
    }

    /// The plaintext of this key.
    pub fn to_string(&self) -> (r: String)
        ensures
            r@ == self.0@,
    {
        self.0.clone()
    }
}

} // verus!

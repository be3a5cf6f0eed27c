//! The system-wide laws, stated once over the store model.
//!
//! Most guarantees live in the operations' own contracts: every mutating
//! operation states that an existing collection keeps existing, which
//! identity's collection changed and how, and that everything else is
//! untouched.  The lemmas here state the remaining laws that relate
//! several parts: where a collection can come from, and how issued
//! credentials behave under verification.

use vstd::prelude::*;

use crate::collection::spec_exists_coll;
use crate::collection::spec_coll_seq;
use crate::collection::spec_collection;
use crate::state::spec_cred;
use crate::state::MessageView;
use crate::backend::spec_payload;
use crate::backend::spec_verify;
use crate::viewing_key::spec_hashed_key;

verus! {

/// In a freshly created store no identity's collection exists yet: a
/// collection can only come into being through identity initialization
/// or a first deposit, each of which states `spec_exists_coll` of its
/// result, and every operation keeps an existing collection existing.
pub proof fn lemma_fresh_store_has_no_collections(idb: Seq<u8>)
    ensures
        !spec_exists_coll(Map::<Seq<u8>, Seq<u8>>::empty(), idb),
{
}

/// Verification can never succeed for an identity that never stored a
/// credential, whatever key is supplied: there is nothing the supplied
/// key's hash could match.
pub proof fn lemma_verify_absent(m: Map<Seq<u8>, Seq<u8>>, idb: Seq<u8>, supplied: Seq<char>)
    requires
        spec_cred(m, idb) is None,
    ensures
        !spec_verify(m, idb, supplied),
{
}

/// Round trip of an issued credential: once the store holds the hash of
/// an issued key — as initialization and rotation both ensure — the
/// issued key verifies, and any key whose hash differs is rejected.
pub proof fn lemma_credential_roundtrip(
    m: Map<Seq<u8>, Seq<u8>>,
    idb: Seq<u8>,
    issued: Seq<char>,
    wrong: Seq<char>,
)
    requires
        spec_cred(m, idb) == Some(spec_hashed_key(issued)),
        spec_hashed_key(wrong) != spec_hashed_key(issued),
    ensures
        spec_verify(m, idb, issued),
        !spec_verify(m, idb, wrong),
{
}

/// Each deposit into an existing collection extends what listing
/// returns by exactly the deposited record, at the end: records come
/// back in insertion order, and after N deposits the listing holds N
/// records, the sentinel never counted.
pub proof fn lemma_deposit_extends_listing(
    m1: Map<Seq<u8>, Seq<u8>>,
    m2: Map<Seq<u8>, Seq<u8>>,
    idb: Seq<u8>,
    x: MessageView,
)
    requires
        spec_exists_coll(m1, idb),
        spec_collection(m2, idb) == Some(spec_coll_seq(m1, idb).push(x)),
    ensures
        spec_payload(m2, idb) == spec_payload(m1, idb).push(x),
        spec_payload(m2, idb).len() == spec_payload(m1, idb).len() + 1,
{
    assert(spec_payload(m2, idb) =~= spec_payload(m1, idb).push(x));
}

} // verus!

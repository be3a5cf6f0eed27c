//! Key layout over the flat byte store.
//!
//! Every key is `chunk(tag) + chunk(identity_bytes) + suffix`: a
//! length-prefixed purpose tag, a length-prefixed identity, and a suffix
//! that is either the one-byte length-counter marker, a 4-byte big-endian
//! record index, or empty (for viewing keys).  Length-prefixing makes the
//! construction unambiguous, which is proved here and is what isolates one
//! identity's data from everyone else's.

use vstd::prelude::*;

use crate::encoding::spec_be32;
use crate::encoding::spec_chunk;
use crate::encoding::spec_fits_u32;
use crate::encoding::lemma_be32_injective;
use crate::encoding::be32_encode;
use crate::encoding::push_chunk;

verus! {

/// Tag of the per-recipient record collections: the bytes of
/// `messages_received`.
pub open spec fn spec_msg_tag() -> Seq<u8> {
    seq![109u8, 101u8, 115u8, 115u8, 97u8, 103u8, 101u8, 115u8, 95u8, 114u8, 101u8, 99u8, 101u8, 105u8, 118u8, 101u8, 100u8]
}

/// Tag of the stored viewing-key hashes: the bytes of `viewingkey`.
pub open spec fn spec_vk_tag() -> Seq<u8> {
    seq![118u8, 105u8, 101u8, 119u8, 105u8, 110u8, 103u8, 107u8, 101u8, 121u8]
}

/// The fixed key of the global configuration: the bytes of `config`.
pub open spec fn spec_config_key() -> Seq<u8> {
    seq![99u8, 111u8, 110u8, 102u8, 105u8, 103u8]
}

/// The one-byte suffix marking a collection's length counter.
pub open spec fn spec_len_suffix() -> Seq<u8> {
    seq![108u8]
}

/// A composite key: length-prefixed tag, length-prefixed identity, suffix.
pub open spec fn spec_store_key(tag: Seq<u8>, id: Seq<u8>, suffix: Seq<u8>) -> Seq<u8>
    recommends
        spec_fits_u32(tag),
        spec_fits_u32(id),
{
    spec_chunk(tag) + spec_chunk(id) + suffix
}

/// Key of the length counter of `id`'s collection.
pub open spec fn spec_len_key(id: Seq<u8>) -> Seq<u8> {
    spec_store_key(spec_msg_tag(), id, spec_len_suffix())
}

/// Key of record `i` of `id`'s collection.
pub open spec fn spec_rec_key(id: Seq<u8>, i: int) -> Seq<u8>
    recommends
        0 <= i < 0x1_0000_0000,
{
    spec_store_key(spec_msg_tag(), id, spec_be32(i as u32))
}

/// Key of `id`'s stored viewing-key hash.
pub open spec fn spec_vk_key(id: Seq<u8>) -> Seq<u8> {
    spec_store_key(spec_vk_tag(), id, Seq::<u8>::empty())
}

/// A chunk followed by arbitrary bytes determines both parts.
pub proof fn lemma_chunk_prefix_injective(a1: Seq<u8>, rest1: Seq<u8>, a2: Seq<u8>, rest2: Seq<u8>)
    requires
        spec_fits_u32(a1),
        spec_fits_u32(a2),
        spec_chunk(a1) + rest1 == spec_chunk(a2) + rest2,
    ensures
        a1 == a2,
        rest1 == rest2,
{
    let b1 = spec_chunk(a1) + rest1;
    let b2 = spec_chunk(a2) + rest2;
    assert(b1.subrange(0, 4) =~= spec_be32(a1.len() as u32));
    assert(b2.subrange(0, 4) =~= spec_be32(a2.len() as u32));
    lemma_be32_injective(a1.len() as u32, a2.len() as u32);
    assert(a1 =~= b1.subrange(4, 4 + a1.len() as int));
    assert(a2 =~= b2.subrange(4, 4 + a2.len() as int));
    assert(rest1 =~= b1.subrange(4 + a1.len() as int, b1.len() as int));
    assert(rest2 =~= b2.subrange(4 + a2.len() as int, b2.len() as int));
}

/// Composite keys are unambiguous: equal keys mean equal parts.
pub proof fn lemma_store_key_injective(
    t1: Seq<u8>,
    i1: Seq<u8>,
    s1: Seq<u8>,
    t2: Seq<u8>,
    i2: Seq<u8>,
    s2: Seq<u8>,
)
    requires
        spec_fits_u32(t1),
        spec_fits_u32(i1),
        spec_fits_u32(t2),
        spec_fits_u32(i2),
        spec_store_key(t1, i1, s1) == spec_store_key(t2, i2, s2),
    ensures
        t1 == t2,
        i1 == i2,
        s1 == s2,
{
    assert(spec_chunk(t1) + (spec_chunk(i1) + s1) =~= spec_store_key(t1, i1, s1));
    assert(spec_chunk(t2) + (spec_chunk(i2) + s2) =~= spec_store_key(t2, i2, s2));
    lemma_chunk_prefix_injective(t1, spec_chunk(i1) + s1, t2, spec_chunk(i2) + s2);
    lemma_chunk_prefix_injective(i1, s1, i2, s2);
}

/// All the key-distinctness facts the higher layers lean on: keys of the
/// record store, the viewing-key store and the configuration never alias
/// unless identity, purpose and position all agree.
pub proof fn lemma_keys_distinct(id1: Seq<u8>, id2: Seq<u8>)
    requires
        spec_fits_u32(id1),
        spec_fits_u32(id2),
    ensures
        id1 != id2 ==> spec_len_key(id1) != spec_len_key(id2),
        id1 != id2 ==> spec_vk_key(id1) != spec_vk_key(id2),
        forall|i: int, j: int|
            0 <= i < 0x1_0000_0000 && 0 <= j < 0x1_0000_0000 && (id1 != id2 || i != j)
                ==> spec_rec_key(id1, i) != spec_rec_key(id2, j),
        forall|i: int| 0 <= i < 0x1_0000_0000 ==> spec_len_key(id1) != spec_rec_key(id2, i),
        spec_vk_key(id1) != spec_len_key(id2),
        forall|i: int| 0 <= i < 0x1_0000_0000 ==> spec_vk_key(id1) != spec_rec_key(id2, i),
        spec_config_key() != spec_len_key(id2),
        spec_config_key() != spec_vk_key(id2),
        forall|i: int| 0 <= i < 0x1_0000_0000 ==> spec_config_key() != spec_rec_key(id2, i),
{
    assert(spec_msg_tag().len() == 17);
    assert(spec_vk_tag().len() == 10);
    if id1 != id2 && spec_len_key(id1) == spec_len_key(id2) {
        lemma_store_key_injective(
            spec_msg_tag(),
            id1,
            spec_len_suffix(),
            spec_msg_tag(),
            id2,
            spec_len_suffix(),
        );
    }
    if id1 != id2 && spec_vk_key(id1) == spec_vk_key(id2) {
        lemma_store_key_injective(
            spec_vk_tag(),
            id1,
            Seq::<u8>::empty(),
            spec_vk_tag(),
            id2,
            Seq::<u8>::empty(),
        );
    }
    assert forall|i: int, j: int|
        0 <= i < 0x1_0000_0000 && 0 <= j < 0x1_0000_0000 && (id1 != id2 || i != j) implies
        spec_rec_key(id1, i) != spec_rec_key(id2, j) by {
        if spec_rec_key(id1, i) == spec_rec_key(id2, j) {
            lemma_store_key_injective(
                spec_msg_tag(),
                id1,
                spec_be32(i as u32),
                spec_msg_tag(),
                id2,
                spec_be32(j as u32),
            );
            lemma_be32_injective(i as u32, j as u32);
        }
    }
    assert forall|i: int| 0 <= i < 0x1_0000_0000 implies spec_len_key(id1) != spec_rec_key(
        id2,
        i,
    ) by {
        if spec_len_key(id1) == spec_rec_key(id2, i) {
            lemma_store_key_injective(
                spec_msg_tag(),
                id1,
                spec_len_suffix(),
                spec_msg_tag(),
                id2,
                spec_be32(i as u32),
            );
        }
    }
    if spec_vk_key(id1) == spec_len_key(id2) {
        lemma_store_key_injective(
            spec_vk_tag(),
            id1,
            Seq::<u8>::empty(),
            spec_msg_tag(),
            id2,
            spec_len_suffix(),
        );
    }
    assert forall|i: int| 0 <= i < 0x1_0000_0000 implies spec_vk_key(id1) != spec_rec_key(
        id2,
        i,
    ) by {
        if spec_vk_key(id1) == spec_rec_key(id2, i) {
            lemma_store_key_injective(
                spec_vk_tag(),
                id1,
                Seq::<u8>::empty(),
                spec_msg_tag(),
                id2,
                spec_be32(i as u32),
            );
        }
    }
    assert(spec_len_key(id2).len() >= 8);
    assert(spec_vk_key(id2).len() >= 8);
    assert(spec_config_key().len() == 6);
    assert forall|i: int| 0 <= i < 0x1_0000_0000 implies spec_config_key() != spec_rec_key(
        id2,
        i,
    ) by {
        assert(spec_rec_key(id2, i).len() >= 8);
    }
}

/// Build the composite key `chunk(tag) + chunk(id) + suffix`.
pub fn store_key(tag: &Vec<u8>, id: &Vec<u8>, suffix: &Vec<u8>) -> (r: Vec<u8>)
    requires
        spec_fits_u32(tag@),
        spec_fits_u32(id@),
    ensures
        r@ == spec_store_key(tag@, id@, suffix@),
{
    let mut r: Vec<u8> = Vec::new();
    push_chunk(&mut r, tag);
    push_chunk(&mut r, id);
    let mut i: usize = 0;
    while i < suffix.len()
        invariant
            r@ == spec_chunk(tag@) + spec_chunk(id@) + suffix@.subrange(0, i as int),
            0 <= i <= suffix@.len(),
        decreases suffix@.len() - i,
    {
        r.push(suffix[i]);
        proof {
            assert(spec_chunk(tag@) + spec_chunk(id@) + suffix@.subrange(0, i + 1) =~= (spec_chunk(
                tag@,
            ) + spec_chunk(id@) + suffix@.subrange(0, i as int)).push(suffix@[i as int]));
        }
        i = i + 1;
    }
    proof {
        assert(Seq::<u8>::empty() + spec_chunk(tag@) =~= spec_chunk(tag@));
        assert(suffix@.subrange(0, suffix@.len() as int) =~= suffix@);
    }
    r
}

/// The record-collection tag as bytes.
pub fn msg_tag() -> (r: Vec<u8>)
    ensures
        r@ == spec_msg_tag(),
{
    let mut r: Vec<u8> = Vec::new();
    r.push(109);
    r.push(101);
    r.push(115);
    r.push(115);
    r.push(97);
    r.push(103);
    r.push(101);
    r.push(115);
    r.push(95);
    r.push(114);
    r.push(101);
    r.push(99);
    r.push(101);
    r.push(105);
    r.push(118);
    r.push(101);
    r.push(100);
    proof {
        assert(r@ =~= spec_msg_tag());
    }
    r
}

/// The viewing-key tag as bytes.
pub fn vk_tag() -> (r: Vec<u8>)
    ensures
        r@ == spec_vk_tag(),
{
    let mut r: Vec<u8> = Vec::new();
    r.push(118);
    r.push(105);
    r.push(101);
    r.push(119);
    r.push(105);
    r.push(110);
    r.push(103);
    r.push(107);
    r.push(101);
    r.push(121);
    proof {
        assert(r@ =~= spec_vk_tag());
    }
    r
}

/// The fixed configuration key as bytes.
pub fn config_key() -> (r: Vec<u8>)
    ensures
        r@ == spec_config_key(),
{
    let mut r: Vec<u8> = Vec::new();
    r.push(99);
    r.push(111);
    r.push(110);
    r.push(102);
    r.push(105);
    r.push(103);
    proof {
        assert(r@ =~= spec_config_key());
    }
    r
}

/// The length-counter key of `id`'s collection, as bytes.
pub fn len_key(id: &Vec<u8>) -> (r: Vec<u8>)
    requires
        spec_fits_u32(id@),
    ensures
        r@ == spec_len_key(id@),
{
    let tag = msg_tag();
    let mut suffix: Vec<u8> = Vec::new();
    suffix.push(108);
    proof {
        assert(suffix@ =~= spec_len_suffix());
    }
    store_key(&tag, id, &suffix)
}

/// The key of record `i` of `id`'s collection, as bytes.
pub fn rec_key(id: &Vec<u8>, i: u32) -> (r: Vec<u8>)
    requires
        spec_fits_u32(id@),
    ensures
        r@ == spec_rec_key(id@, i as int),
{
    let tag = msg_tag();
    let suffix = be32_encode(i);
    store_key(&tag, id, &suffix)
}

/// The viewing-key-hash key of `id`, as bytes.
pub fn vk_key(id: &Vec<u8>) -> (r: Vec<u8>)
    requires
        spec_fits_u32(id@),
    ensures
        r@ == spec_vk_key(id@),
{
    let tag = vk_tag();
    let suffix: Vec<u8> = Vec::new();
    proof {
        assert(suffix@ =~= Seq::<u8>::empty());
    }
    store_key(&tag, id, &suffix)
}

} // verus!

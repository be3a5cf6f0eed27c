//! Per-identity append-only record collections over the flat byte store.
//!
//! One collection per identity: each record sits under its own key
//! (`rec_key(id, i)`), and a separate one-cell length counter
//! (`len_key(id)`) gates all reads, so appending is O(1) and truncation
//! only moves the counter — stale bytes past the counter are unreachable.
//! A namespace that has never been written has no length key at all,
//! which is how "absent" is told apart from "empty".

use vstd::prelude::*;

use crate::store::Store;
use crate::encoding::spec_be32;
use crate::encoding::spec_be32_val;
use crate::encoding::spec_fits_u32;
use crate::encoding::be32_encode;
use crate::encoding::be32_decode_at;
use crate::encoding::lemma_be32_roundtrip;
use crate::layout::spec_len_key;
use crate::layout::spec_rec_key;
use crate::layout::len_key;
use crate::layout::rec_key;
use crate::layout::lemma_keys_distinct;
use crate::state::Message;
use crate::state::MessageView;
use crate::state::spec_encode_message;
use crate::state::spec_decode_message;
use crate::state::spec_message_wf;
use crate::state::encode_message;
use crate::state::decode_message;
use crate::state::lemma_message_roundtrip;
use crate::error::Error;

verus! {

/// Does the byte store hold a collection (even an empty one) for `id`?
/// Absence of the length counter is absence of the collection.
pub open spec fn spec_has_coll(m: Map<Seq<u8>, Seq<u8>>, id: Seq<u8>) -> bool {
    m.dom().contains(spec_len_key(id))
}

/// The number of records the counter admits.
pub open spec fn spec_coll_len(m: Map<Seq<u8>, Seq<u8>>, id: Seq<u8>) -> nat
    recommends
        spec_has_coll(m, id),
{
    spec_be32_val(m[spec_len_key(id)]) as nat
}

/// Record `i` is present and decodes to a storable record.
pub open spec fn spec_rec_ok(m: Map<Seq<u8>, Seq<u8>>, id: Seq<u8>, i: int) -> bool {
    &&& m.dom().contains(spec_rec_key(id, i))
    &&& spec_decode_message(m[spec_rec_key(id, i)]) is Some
    &&& spec_message_wf(spec_decode_message(m[spec_rec_key(id, i)])->0)
}

/// Well-formedness of `id`'s namespace: if the collection is there, the
/// counter is a canonical 4-byte value and every record below it decodes.
pub open spec fn spec_ns_wf(m: Map<Seq<u8>, Seq<u8>>, id: Seq<u8>) -> bool {
    spec_has_coll(m, id) ==> {
        &&& m[spec_len_key(id)].len() == 4
        &&& forall|i: int| 0 <= i < spec_coll_len(m, id) ==> #[trigger] spec_rec_ok(m, id, i)
    }
}

/// The record stored at index `i`.
pub open spec fn spec_rec_at(m: Map<Seq<u8>, Seq<u8>>, id: Seq<u8>, i: int) -> MessageView
    recommends
        spec_rec_ok(m, id, i),
{
    spec_decode_message(m[spec_rec_key(id, i)])->0
}

/// The whole stored sequence of `id`'s records, sentinel included.
pub open spec fn spec_coll_seq(m: Map<Seq<u8>, Seq<u8>>, id: Seq<u8>) -> Seq<MessageView>
    recommends
        spec_has_coll(m, id),
        spec_ns_wf(m, id),
{
    Seq::new(spec_coll_len(m, id), |i: int| spec_rec_at(m, id, i))
}

/// `id`'s collection as the rest of the system sees it: `None` when the
/// namespace was never written.
pub open spec fn spec_collection(m: Map<Seq<u8>, Seq<u8>>, id: Seq<u8>) -> Option<
    Seq<MessageView>,
> {
    if spec_has_coll(m, id) {
        Some(spec_coll_seq(m, id))
    } else {
        None
    }
}

/// The structural existence probe: reading record 0 through the counter
/// succeeds and the bytes decode as a record.  A decode failure counts as
/// "not this kind of collection", never as an error.
pub open spec fn spec_exists_coll(m: Map<Seq<u8>, Seq<u8>>, id: Seq<u8>) -> bool {
    &&& spec_has_coll(m, id)
    &&& m[spec_len_key(id)].len() == 4
    &&& spec_coll_len(m, id) >= 1
    &&& m.dom().contains(spec_rec_key(id, 0))
    &&& spec_decode_message(m[spec_rec_key(id, 0)]) is Some
}

/// Under a well-formed namespace the structural probe is exactly "the
/// collection is there and non-empty".
pub proof fn lemma_exists_iff(m: Map<Seq<u8>, Seq<u8>>, id: Seq<u8>)
    requires
        spec_ns_wf(m, id),
    ensures
        spec_exists_coll(m, id) == (spec_has_coll(m, id) && spec_coll_len(m, id) >= 1),
{
    if spec_has_coll(m, id) && spec_coll_len(m, id) >= 1 {
        assert(spec_rec_ok(m, id, 0));
    }
}

/// Inserting under a key that is neither `id`'s counter nor one of its
/// record cells leaves `id`'s collection untouched.
pub proof fn lemma_coll_insert_other(
    m: Map<Seq<u8>, Seq<u8>>,
    id: Seq<u8>,
    k: Seq<u8>,
    v: Seq<u8>,
)
    requires
        k != spec_len_key(id),
        forall|i: int| 0 <= i < 0x1_0000_0000 ==> k != spec_rec_key(id, i),
    ensures
        spec_has_coll(m.insert(k, v), id) == spec_has_coll(m, id),
        spec_collection(m.insert(k, v), id) == spec_collection(m, id),
        spec_ns_wf(m, id) ==> spec_ns_wf(m.insert(k, v), id),
        spec_exists_coll(m.insert(k, v), id) == spec_exists_coll(m, id),
{
    let m2 = m.insert(k, v);
    if spec_has_coll(m, id) {
        assert(m2[spec_len_key(id)] == m[spec_len_key(id)]);
        assert(spec_coll_len(m2, id) == spec_coll_len(m, id));
        assert forall|i: int| 0 <= i < 0x1_0000_0000 implies (spec_rec_ok(m2, id, i)
            == spec_rec_ok(m, id, i) && m2.dom().contains(spec_rec_key(id, i))
            == m.dom().contains(spec_rec_key(id, i))) by {
            assert(k != spec_rec_key(id, i));
        }
        if spec_ns_wf(m, id) {
            assert forall|i: int| 0 <= i < spec_coll_len(m2, id) implies #[trigger] spec_rec_ok(
                m2,
                id,
                i,
            ) by {
                assert(spec_rec_ok(m, id, i));
            }
            assert(spec_coll_seq(m2, id) =~= spec_coll_seq(m, id));
        } else {
            assert(spec_coll_seq(m2, id) =~= spec_coll_seq(m, id));
        }
    }
}

/// Make sure `id` has a collection, creating an empty one if the
/// namespace was never written.  A no-op on an existing collection.
pub fn create_collection(store: &mut Store, id: &Vec<u8>)
    requires
        spec_fits_u32(id@),
        spec_ns_wf(old(store)@, id@),
    ensures
        spec_has_coll(old(store)@, id@) ==> final(store)@ == old(store)@,
        !spec_has_coll(old(store)@, id@) ==> final(store)@ == old(store)@.insert(
            spec_len_key(id@),
            spec_be32(0),
        ),
        spec_ns_wf(final(store)@, id@),
        spec_has_coll(final(store)@, id@),
        spec_collection(final(store)@, id@) == if spec_has_coll(old(store)@, id@) {
            spec_collection(old(store)@, id@)
        } else {
            Some(Seq::<MessageView>::empty())
        },
{
    let lk = len_key(id);
    let present = match store.get(&lk) {
        Some(_) => true,
        None => false,
    };
    if !present {
        store.set(lk, be32_encode(0));
        proof {
            let m2 = store@;
            lemma_be32_roundtrip(0);
            assert(spec_coll_len(m2, id@) == 0);
            assert(spec_coll_seq(m2, id@) =~= Seq::<MessageView>::empty());
        }
    }
}

/// Append one record to `id`'s existing collection, returning its index.
/// Fails with `NotACollection` when the namespace was never written, and
/// with `OutOfRange` when the counter is full.
pub fn append_record(store: &mut Store, id: &Vec<u8>, msg: &Message) -> (r: Result<u32, Error>)
    requires
        spec_fits_u32(id@),
        spec_ns_wf(old(store)@, id@),
        spec_message_wf(msg@),
    ensures
        r is Ok <==> (spec_has_coll(old(store)@, id@) && spec_coll_len(old(store)@, id@)
            < 0xFFFF_FFFF),
        r matches Ok(n) ==> {
            &&& n as nat == spec_coll_len(old(store)@, id@)
            &&& final(store)@ == old(store)@.insert(
                spec_rec_key(id@, n as int),
                spec_encode_message(msg@),
            ).insert(spec_len_key(id@), spec_be32((n + 1) as u32))
            &&& spec_ns_wf(final(store)@, id@)
            &&& spec_collection(final(store)@, id@) == Some(
                spec_coll_seq(old(store)@, id@).push(msg@),
            )
        },
        r matches Err(e) ==> {
            &&& final(store)@ == old(store)@
            &&& e == (if !spec_has_coll(old(store)@, id@) {
                Error::NotACollection
            } else {
                Error::OutOfRange
            })
        },
{
    let lk = len_key(id);
    let n: u32 = match store.get(&lk) {
        Some(v) => be32_decode_at(v, 0),
        None => {
            return Err(Error::NotACollection);
        },
    };
    proof {
        assert(old(store)@[spec_len_key(id@)].subrange(0, 4) =~= old(store)@[spec_len_key(id@)]);
        assert(n as nat == spec_coll_len(old(store)@, id@));
    }
    if n == 0xFFFF_FFFF {
        return Err(Error::OutOfRange);
    }
    let rk = rec_key(id, n);
    let enc = encode_message(msg);
    store.set(rk, enc);
    let lk2 = len_key(id);
    store.set(lk2, be32_encode(n + 1));
    proof {
        let m0 = old(store)@;
        let m2 = store@;
        let rkk = spec_rec_key(id@, n as int);
        let lkk = spec_len_key(id@);
        lemma_keys_distinct(id@, id@);
        assert(rkk != lkk);
        assert(m2[lkk] == spec_be32((n + 1) as u32));
        lemma_be32_roundtrip((n + 1) as u32);
        assert(spec_coll_len(m2, id@) == n + 1);
        assert(m2[rkk] == spec_encode_message(msg@));
        lemma_message_roundtrip(msg@);
        assert(spec_rec_ok(m2, id@, n as int));
        assert forall|i: int| 0 <= i < spec_coll_len(m2, id@) implies #[trigger] spec_rec_ok(
            m2,
            id@,
            i,
        ) by {
            if i < n as int {
                assert(spec_rec_ok(m0, id@, i));
                assert(spec_rec_key(id@, i) != rkk);
                assert(spec_rec_key(id@, i) != lkk);
                assert(m2[spec_rec_key(id@, i)] == m0[spec_rec_key(id@, i)]);
            }
        }
        assert(spec_coll_seq(m2, id@) =~= spec_coll_seq(m0, id@).push(msg@)) by {
            assert forall|i: int| 0 <= i < n as int implies spec_rec_at(m2, id@, i) == spec_rec_at(
                m0,
                id@,
                i,
            ) by {
                assert(spec_rec_key(id@, i) != rkk);
                assert(spec_rec_key(id@, i) != lkk);
                assert(m2[spec_rec_key(id@, i)] == m0[spec_rec_key(id@, i)]);
            }
            assert(spec_rec_at(m2, id@, n as int) == msg@);
        }
    }
    Ok(n)
}

/// The number of records `id`'s collection holds, `0` when the namespace
/// was never written.
pub fn collection_length(store: &Store, id: &Vec<u8>) -> (r: u32)
    requires
        spec_fits_u32(id@),
        spec_ns_wf(store@, id@),
    ensures
        r as nat == if spec_has_coll(store@, id@) {
            spec_coll_len(store@, id@)
        } else {
            0
        },
{
    let lk = len_key(id);
    match store.get(&lk) {
        Some(v) => {
            let n = be32_decode_at(v, 0);
            proof {
                assert(store@[spec_len_key(id@)].subrange(0, 4) =~= store@[spec_len_key(id@)]);
            }
            n
        },
        None => 0,
    }
}

/// Read the record at `pos` of `id`'s collection.
pub fn get_record(store: &Store, id: &Vec<u8>, pos: u32) -> (r: Result<Message, Error>)
    requires
        spec_fits_u32(id@),
        spec_ns_wf(store@, id@),
    ensures
        r is Ok <==> (spec_has_coll(store@, id@) && (pos as nat) < spec_coll_len(store@, id@)),
        r matches Ok(m) ==> m@ == spec_coll_seq(store@, id@)[pos as int],
        r matches Err(e) ==> e == (if !spec_has_coll(store@, id@) {
            Error::NotACollection
        } else {
            Error::OutOfRange
        }),
{
    let lk = len_key(id);
    let n: u32 = match store.get(&lk) {
        Some(v) => be32_decode_at(v, 0),
        None => {
            return Err(Error::NotACollection);
        },
    };
    proof {
        assert(store@[spec_len_key(id@)].subrange(0, 4) =~= store@[spec_len_key(id@)]);
        assert(n as nat == spec_coll_len(store@, id@));
    }
    if pos >= n {
        return Err(Error::OutOfRange);
    }
    proof {
        assert(spec_rec_ok(store@, id@, pos as int));
    }
    let rk = rec_key(id, pos);
    let bytes = match store.get(&rk) {
        Some(v) => v,
        None => {
            proof {
                assert(false);
            }
            return Err(Error::OutOfRange);
        },
    };
    match decode_message(bytes) {
        Some(m) => Ok(m),
        None => {
            proof {
                assert(false);
            }
            Err(Error::OutOfRange)
        },
    }
}

/// Cut `id`'s collection back to its first `new_len` records by moving
/// the counter; bytes past it become unreachable but are not erased.
pub fn truncate_collection(store: &mut Store, id: &Vec<u8>, new_len: u32) -> (r: Result<
    (),
    Error,
>)
    requires
        spec_fits_u32(id@),
        spec_ns_wf(old(store)@, id@),
    ensures
        r is Ok <==> (spec_has_coll(old(store)@, id@) && (new_len as nat) <= spec_coll_len(
            old(store)@,
            id@,
        )),
        r is Ok ==> {
            &&& final(store)@ == old(store)@.insert(spec_len_key(id@), spec_be32(new_len))
            &&& spec_ns_wf(final(store)@, id@)
            &&& spec_collection(final(store)@, id@) == Some(
                spec_coll_seq(old(store)@, id@).take(new_len as int),
            )
        },
        r matches Err(e) ==> {
            &&& final(store)@ == old(store)@
            &&& e == (if !spec_has_coll(old(store)@, id@) {
                Error::NotACollection
            } else {
                Error::OutOfRange
            })
        },
{
    let lk = len_key(id);
    let n: u32 = match store.get(&lk) {
        Some(v) => be32_decode_at(v, 0),
        None => {
            return Err(Error::NotACollection);
        },
    };
    proof {
        assert(old(store)@[spec_len_key(id@)].subrange(0, 4) =~= old(store)@[spec_len_key(id@)]);
        assert(n as nat == spec_coll_len(old(store)@, id@));
    }
    if new_len > n {
        return Err(Error::OutOfRange);
    }
    let lk2 = len_key(id);
    store.set(lk2, be32_encode(new_len));
    proof {
        let m0 = old(store)@;
        let m2 = store@;
        let lkk = spec_len_key(id@);
        lemma_keys_distinct(id@, id@);
        lemma_be32_roundtrip(new_len);
        assert(spec_coll_len(m2, id@) == new_len);
        assert forall|i: int| 0 <= i < spec_coll_len(m2, id@) implies #[trigger] spec_rec_ok(
            m2,
            id@,
            i,
        ) by {
            assert(spec_rec_ok(m0, id@, i));
            assert(spec_rec_key(id@, i) != lkk);
            assert(m2[spec_rec_key(id@, i)] == m0[spec_rec_key(id@, i)]);
        }
        assert(spec_coll_seq(m2, id@) =~= spec_coll_seq(m0, id@).take(new_len as int)) by {
            assert forall|i: int| 0 <= i < new_len as int implies spec_rec_at(m2, id@, i)
                == spec_rec_at(m0, id@, i) by {
                assert(spec_rec_key(id@, i) != lkk);
                assert(m2[spec_rec_key(id@, i)] == m0[spec_rec_key(id@, i)]);
            }
        }
    }
    Ok(())
}

/// Read records `from..to` of `id`'s collection, in insertion order.
pub fn read_range(store: &Store, id: &Vec<u8>, from: u32, to: u32) -> (r: Vec<Message>)
    requires
        spec_fits_u32(id@),
        spec_ns_wf(store@, id@),
        spec_has_coll(store@, id@),
        from <= to,
        to as nat <= spec_coll_len(store@, id@),
    ensures
        r.deep_view() == spec_coll_seq(store@, id@).subrange(from as int, to as int),
{
    let mut r: Vec<Message> = Vec::new();
    let mut i: u32 = from;
    proof {
        assert(r.deep_view() =~= spec_coll_seq(store@, id@).subrange(from as int, from as int));
    }
    while i < to
        invariant
            spec_fits_u32(id@),
            spec_ns_wf(store@, id@),
            spec_has_coll(store@, id@),
            from <= i <= to,
            to as nat <= spec_coll_len(store@, id@),
            r.deep_view() == spec_coll_seq(store@, id@).subrange(from as int, i as int),
        decreases to - i,
    {
        let m = match get_record(store, id, i) {
            Ok(m) => m,
            Err(_) => {
                proof {
                    assert(false);
                }
                return r;
            },
        };
        let ghost dv = r.deep_view();
        let ghost mdv = m@;
        r.push(m);
        proof {
            assert(r.deep_view().len() == dv.len() + 1);
            assert forall|k: int| 0 <= k < dv.len() implies r.deep_view()[k] == dv[k] by {}
            assert(r.deep_view()[dv.len() as int] == mdv);
            assert(r.deep_view() =~= spec_coll_seq(store@, id@).subrange(from as int, i + 1));
        }
        i = i + 1;
    }
    r
}

} // verus!

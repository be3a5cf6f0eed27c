//! The ledger's operations: initialize an identity, issue viewing keys,
//! probe and read collections, and purge.
//!
//! Every operation states exactly which store it leaves behind, when it
//! succeeds, which error it returns otherwise, and that everything it did
//! not touch — other identities' collections, other credentials, the
//! configuration — is unchanged.  All of them preserve the store-wide
//! invariant, and none of them makes an existing collection stop
//! existing.

use vstd::prelude::*;
use vstd::string::StrSliceExecFns;
use vstd::string::StringExecFns;
use vstd::utf8::encode_utf8;

use crate::store::Store;
use crate::encoding::spec_be32;
use crate::encoding::spec_fits_u32;
use crate::encoding::be32_decode_at;
use crate::encoding::lemma_encode_utf8_len;
use crate::layout::spec_len_key;
use crate::layout::spec_rec_key;
use crate::layout::len_key;
use crate::collection::spec_has_coll;
use crate::collection::spec_coll_len;
use crate::collection::spec_coll_seq;
use crate::collection::spec_collection;
use crate::collection::spec_exists_coll;
use crate::collection::spec_ns_wf;
use crate::collection::spec_rec_ok;
use crate::collection::lemma_exists_iff;
use crate::collection::get_record;
use crate::collection::read_range;
use crate::collection::truncate_collection;
use crate::state::Message;
use crate::state::MessageView;
use crate::state::Env;
use crate::state::spec_id_ok;
use crate::state::spec_config;
use crate::state::spec_cred;
use crate::state::spec_store_inv;
use crate::state::lemma_inv_insert_vk;
use crate::state::lemma_inv_coll_op;
use crate::state::load;
use crate::state::write_viewing_key;
use crate::state::append_message;
use crate::state::create_empty_collection;
use crate::state::decode_message;
use crate::viewing_key::ViewingKey;
use crate::viewing_key::spec_hashed_key;
use crate::viewing_key::spec_new_key;
use crate::msg::HandleAnswer;
use crate::msg::ResponseStatus;
use crate::error::Error;
use crate::layout::rec_key;

verus! {

/// What `list` hands out: the stored records with the sentinel at index 0
/// removed.  Empty when the collection is absent or sentinel-only.
pub open spec fn spec_payload(m: Map<Seq<u8>, Seq<u8>>, idb: Seq<u8>) -> Seq<MessageView> {
    match spec_collection(m, idb) {
        Option::None => Seq::<MessageView>::empty(),
        Option::Some(s) => if s.len() >= 1 {
            s.subrange(1, s.len() as int)
        } else {
            Seq::<MessageView>::empty()
        },
    }
}

/// The sentinel written by identity initialization: its `owner` field
/// marks the collection's owner.
pub open spec fn spec_init_sentinel(owner: Seq<char>) -> MessageView {
    MessageView { contents: "Placeholder/homefolder/dummy.jpg"@, owner }
}

/// The sentinel written when a deposit auto-creates the recipient's
/// collection.
pub open spec fn spec_deposit_sentinel(owner: Seq<char>) -> MessageView {
    MessageView { contents: "Dummy_contents.jpg"@, owner }
}

/// Does `supplied` authenticate as `idb`'s credential?  False whenever no
/// credential was ever stored.
pub open spec fn spec_verify(m: Map<Seq<u8>, Seq<u8>>, idb: Seq<u8>, supplied: Seq<char>) -> bool {
    match spec_cred(m, idb) {
        Option::None => false,
        Option::Some(h) => spec_hashed_key(supplied) == h,
    }
}

/// The structural existence probe: does `for_address`'s namespace hold a
/// collection whose first record reads back?  Malformed bytes count as
/// "no collection of ours", never as an error.
pub fn collection_exist(store: &Store, for_address: &String) -> (r: bool)
    requires
        spec_id_ok(for_address@),
    ensures
        r == spec_exists_coll(store@, encode_utf8(for_address@)),
{
    let idb = for_address.as_str().as_bytes_vec();
    let lk = len_key(&idb);
    let v = match store.get(&lk) {
        Some(v) => v,
        None => {
            return false;
        },
    };
    if v.len() != 4 {
        return false;
    }
    let n = be32_decode_at(v, 0);
    proof {
        assert(store@[spec_len_key(idb@)].subrange(0, 4) =~= store@[spec_len_key(idb@)]);
    }
    if n == 0 {
        return false;
    }
    let rk = rec_key(&idb, 0);
    let bytes = match store.get(&rk) {
        Some(b) => b,
        None => {
            return false;
        },
    };
    match decode_message(bytes) {
        Some(_) => true,
        None => false,
    }
}

/// Recover the owner of `behalf`'s collection from the sentinel's
/// re-purposed sender field; there is no separate owner record.
pub fn get_collection_owner(store: &Store, behalf: &String) -> (r: Result<String, Error>)
    requires
        spec_store_inv(store@),
        spec_id_ok(behalf@),
    ensures
        r is Ok <==> spec_exists_coll(store@, encode_utf8(behalf@)),
        r matches Ok(o) ==> o@ == spec_coll_seq(store@, encode_utf8(behalf@))[0].owner,
        r matches Err(e) ==> e == (if !spec_has_coll(store@, encode_utf8(behalf@)) {
            Error::NotACollection
        } else {
            Error::OutOfRange
        }),
{
    let idb = behalf.as_str().as_bytes_vec();
    proof {
        assert(spec_ns_wf(store@, idb@));
        lemma_exists_iff(store@, idb@);
    }
    match get_record(store, &idb, 0) {
        Ok(m) => Ok(String::from_str(m.get_owner())),
        Err(e) => Err(e),
    }
}

/// All records deposited for `behalf`, in insertion order, the sentinel
/// excluded; an absent or sentinel-only collection lists as empty.
pub fn get_messages(store: &Store, behalf: &String) -> (r: Result<Vec<Message>, Error>)
    requires
        spec_store_inv(store@),
        spec_id_ok(behalf@),
    ensures
        r is Ok,
        r matches Ok(v) ==> v.deep_view() == spec_payload(store@, encode_utf8(behalf@)),
{
    let idb = behalf.as_str().as_bytes_vec();
    proof {
        assert(spec_ns_wf(store@, idb@));
    }
    let lk = len_key(&idb);
    let v = match store.get(&lk) {
        Some(v) => v,
        None => {
            let empty: Vec<Message> = Vec::new();
            proof {
                assert(empty.deep_view() =~= spec_payload(store@, idb@));
            }
            return Ok(empty);
        },
    };
    let n = be32_decode_at(v, 0);
    proof {
        assert(store@[spec_len_key(idb@)].subrange(0, 4) =~= store@[spec_len_key(idb@)]);
        assert(n as nat == spec_coll_len(store@, idb@));
    }
    if n == 0 {
        let empty: Vec<Message> = Vec::new();
        proof {
            assert(empty.deep_view() =~= spec_payload(store@, idb@));
        }
        return Ok(empty);
    }
    let out = read_range(store, &idb, 1, n);
    proof {
        assert(out.deep_view() =~= spec_payload(store@, idb@));
    }
    Ok(out)
}

/// One page of `spec_payload`, read in insertion order or reversed,
/// after dropping `skip` records and keeping at most `take_n`.
pub open spec fn spec_page(
    s: Seq<MessageView>,
    reverse: bool,
    skip: int,
    take_n: int,
) -> Seq<MessageView>
    recommends
        skip >= 0,
        take_n >= 0,
{
    let t = if reverse {
        Seq::new(s.len(), |i: int| s[s.len() - 1 - i])
    } else {
        s
    };
    if skip >= t.len() {
        Seq::<MessageView>::empty()
    } else {
        let end = if skip + take_n <= t.len() {
            skip + take_n
        } else {
            t.len() as int
        };
        t.subrange(skip, end)
    }
}

/// Page through the records deposited for `behalf` (sentinel excluded):
/// insertion order or newest-first, `skip` records dropped, at most
/// `take_n` returned.  Re-running the same page re-reads the store; no
/// cursor state is kept.
pub fn get_messages_paged(
    store: &Store,
    behalf: &String,
    reverse: bool,
    skip: u32,
    take_n: u32,
) -> (r: Result<Vec<Message>, Error>)
    requires
        spec_store_inv(store@),
        spec_id_ok(behalf@),
    ensures
        r is Ok,
        r matches Ok(v) ==> v.deep_view() == spec_page(
            spec_payload(store@, encode_utf8(behalf@)),
            reverse,
            skip as int,
            take_n as int,
        ),
{
    let ghost payload = spec_payload(store@, encode_utf8(behalf@));
    let mut base = match get_messages(store, behalf) {
        Ok(v) => v,
        Err(e) => {
            return Err(e);
        },
    };
    let ghost orig = base.deep_view();
    if reverse {
        let ghost rev = Seq::new(orig.len(), |i: int| orig[orig.len() - 1 - i]);
        let mut rev_v: Vec<Message> = Vec::new();
        proof {
            assert(rev_v.deep_view() =~= rev.take(0));
            assert(base.deep_view() =~= orig.take(base@.len() as int));
        }
        while base.len() > 0
            invariant
                base@.len() <= orig.len(),
                base.deep_view() == orig.take(base@.len() as int),
                rev_v.deep_view() == rev.take(orig.len() - base@.len()),
                rev == Seq::new(orig.len(), |i: int| orig[orig.len() - 1 - i]),
            decreases base@.len(),
        {
            let ghost k = orig.len() - base@.len();
            let ghost pre = base@;
            let ghost predv = base.deep_view();
            let m = match base.pop() {
                Some(m) => m,
                None => {
                    proof {
                        assert(false);
                    }
                    return Err(Error::OutOfRange);
                },
            };
            proof {
                assert(m == pre[pre.len() - 1]);
                assert(predv[pre.len() - 1] == m@);
                assert(m@ == orig[pre.len() - 1]);
                assert(m@ == orig[orig.len() - 1 - k]);
                assert forall|t: int| 0 <= t < base@.len() implies base.deep_view()[t] == predv[t] by {}
                assert(base.deep_view() =~= orig.take(base@.len() as int));
            }
            let ghost dv = rev_v.deep_view();
            rev_v.push(m);
            proof {
                assert(rev_v.deep_view().len() == dv.len() + 1);
                assert forall|t: int| 0 <= t < dv.len() implies rev_v.deep_view()[t] == dv[t] by {}
                assert(rev_v.deep_view()[dv.len() as int] == m@);
                assert(rev_v.deep_view() =~= rev.take(k + 1));
            }
        }
        proof {
            assert(rev.take(orig.len() as int) =~= rev);
        }
        base = rev_v;
    }
    let ghost paged_src = base.deep_view();
    let len: usize = base.len();
    if (skip as u64) >= (len as u64) {
        let empty: Vec<Message> = Vec::new();
        proof {
            assert(empty.deep_view() =~= spec_page(payload, reverse, skip as int, take_n as int));
        }
        return Ok(empty);
    }
    let end64: u64 = (skip as u64) + (take_n as u64);
    let end: usize = if end64 > (len as u64) {
        len
    } else {
        end64 as usize
    };
    base.truncate(end);
    proof {
        assert(base.deep_view() =~= paged_src.take(end as int));
    }
    let mut j: usize = 0;
    while j < (skip as usize)
        invariant
            0 <= j <= skip as usize,
            (skip as usize) <= end <= paged_src.len(),
            base.deep_view() == paged_src.subrange(j as int, end as int),
        decreases (skip as usize) - j,
    {
        let ghost dv = base.deep_view();
        proof {
            assert(base.deep_view().len() == base@.len());
            assert(base@.len() == end - j);
        }
        base.remove(0);
        proof {
            assert(base.deep_view().len() == dv.len() - 1);
            assert forall|t: int| 0 <= t < base@.len() implies base.deep_view()[t] == dv[t + 1] by {}
            assert(base.deep_view() =~= paged_src.subrange(j + 1, end as int));
        }
        j = j + 1;
    }
    proof {
        assert(base.deep_view() =~= spec_page(payload, reverse, skip as int, take_n as int));
    }
    Ok(base)
}

/// The record at `position` of `for_address`'s collection (the sentinel
/// sits at position 0).  A never-written namespace fails
/// `NotACollection`; a position at or past the length fails
/// `OutOfRange`, since the length counter gates every read.
pub fn get_message(store: &Store, for_address: &String, position: u32) -> (r: Result<
    Message,
    Error,
>)
    requires
        spec_store_inv(store@),
        spec_id_ok(for_address@),
    ensures
        r is Ok <==> (spec_has_coll(store@, encode_utf8(for_address@)) && (position as nat)
            < spec_coll_len(store@, encode_utf8(for_address@))),
        r matches Ok(m) ==> m@ == spec_coll_seq(store@, encode_utf8(for_address@))[
            position as int
        ],
        r matches Err(e) ==> e == (if !spec_has_coll(store@, encode_utf8(for_address@)) {
            Error::NotACollection
        } else {
            Error::OutOfRange
        }),
{
    let idb = for_address.as_str().as_bytes_vec();
    proof {
        assert(spec_ns_wf(store@, idb@));
    }
    get_record(store, &idb, position)
}

/// Drop every record of the caller's collection except the sentinel, by
/// moving the length counter back to 1.  The collection keeps existing
/// and keeps its owner.
pub fn delete_all_messages(store: &mut Store, env: &Env) -> (r: Result<HandleAnswer, Error>)
    requires
        spec_store_inv(old(store)@),
        spec_id_ok(env.sender@),
    ensures
        spec_store_inv(final(store)@),
        r is Ok <==> (spec_has_coll(old(store)@, encode_utf8(env.sender@)) && spec_coll_len(
            old(store)@,
            encode_utf8(env.sender@),
        ) >= 1),
        r matches Err(e) ==> final(store)@ == old(store)@ && e == (if !spec_has_coll(
            old(store)@,
            encode_utf8(env.sender@),
        ) {
            Error::NotACollection
        } else {
            Error::OutOfRange
        }),
        r matches Ok(a) ==> a == (HandleAnswer::DefaultAnswer { status: ResponseStatus::Success }),
        r is Ok ==> {
            let idb = encode_utf8(env.sender@);
            &&& spec_collection(final(store)@, idb) == Some(
                spec_coll_seq(old(store)@, idb).take(1),
            )
            &&& spec_payload(final(store)@, idb) == Seq::<MessageView>::empty()
            &&& spec_exists_coll(final(store)@, idb)
            &&& spec_coll_seq(final(store)@, idb)[0] == spec_coll_seq(old(store)@, idb)[0]
        },
        forall|id2: Seq<u8>|
            spec_fits_u32(id2) && id2 != encode_utf8(env.sender@) ==> #[trigger] spec_collection(
                final(store)@,
                id2,
            ) == spec_collection(old(store)@, id2),
        forall|id2: Seq<u8>|
            spec_fits_u32(id2) ==> #[trigger] spec_cred(final(store)@, id2) == spec_cred(
                old(store)@,
                id2,
            ),
        spec_config(final(store)@) == spec_config(old(store)@),
        forall|id2: Seq<u8>|
            spec_fits_u32(id2) && spec_exists_coll(old(store)@, id2)
                ==> #[trigger] spec_exists_coll(final(store)@, id2),
{
    let idb = env.sender.as_str().as_bytes_vec();
    let ghost m0 = store@;
    proof {
        assert(spec_ns_wf(m0, idb@));
    }
    match truncate_collection(store, &idb, 1) {
        Ok(_) => {
            proof {
                let m2 = store@;
                let lkk = spec_len_key(idb@);
                assert(m2 == m0.insert(lkk, spec_be32(1)));
                assert(m0.insert(lkk, spec_be32(1)).insert(lkk, spec_be32(1)) =~= m0.insert(
                    lkk,
                    spec_be32(1),
                ));
                lemma_inv_coll_op(m0, m2, idb@, lkk, spec_be32(1), lkk, spec_be32(1));
                crate::encoding::lemma_be32_roundtrip(1);
                assert(spec_coll_len(m2, idb@) == 1);
                assert(spec_rec_ok(m2, idb@, 0));
                assert(spec_exists_coll(m2, idb@));
                let s2 = spec_coll_seq(m2, idb@);
                assert(spec_payload(m2, idb@) =~= Seq::<MessageView>::empty());
                assert forall|id2: Seq<u8>|
                    spec_fits_u32(id2) && spec_exists_coll(m0, id2) implies #[trigger] spec_exists_coll(
                    m2,
                    id2,
                ) by {
                    if id2 != idb@ {
                        assert(spec_exists_coll(m2, id2) == spec_exists_coll(m0, id2));
                    }
                }
            }
            Ok(HandleAnswer::DefaultAnswer { status: ResponseStatus::Success })
        },
        Err(e) => Err(e),
    }
}

/// Derive, store and return a fresh viewing key for the caller.  Always
/// allowed, whether or not a collection exists: this is both first-time
/// issuance and re-keying, and it overwrites any prior credential.
pub fn try_create_viewing_key(store: &mut Store, env: &Env, entropy: String) -> (r: Result<
    HandleAnswer,
    Error,
>)
    requires
        spec_store_inv(old(store)@),
        spec_id_ok(env.sender@),
        spec_id_ok(entropy@),
    ensures
        spec_store_inv(final(store)@),
        r is Ok <==> spec_config(old(store)@) is Some,
        r matches Err(e) ==> e == Error::NotFound && final(store)@ == old(store)@,
        r matches Ok(a) ==> a is CreateViewingKey,
        r matches Ok(a) ==> (a matches HandleAnswer::CreateViewingKey { key } ==> {
            let idb = encode_utf8(env.sender@);
            &&& key.0@ == spec_new_key(
                spec_config(old(store)@)->0.prng_seed,
                env.block_height,
                env.block_time,
                env.sender@,
                encode_utf8(entropy@),
            )
            &&& final(store)@ == old(store)@.insert(
                crate::layout::spec_vk_key(idb),
                spec_hashed_key(key.0@),
            )
            &&& spec_cred(final(store)@, idb) == Some(spec_hashed_key(key.0@))
            &&& spec_verify(final(store)@, idb, key.0@)
            &&& forall|id2: Seq<u8>|
                spec_fits_u32(id2) && id2 != idb ==> #[trigger] spec_cred(final(store)@, id2)
                    == spec_cred(old(store)@, id2)
        }),
        forall|id2: Seq<u8>|
            spec_fits_u32(id2) ==> #[trigger] spec_collection(final(store)@, id2)
                == spec_collection(old(store)@, id2),
        forall|id2: Seq<u8>|
            spec_fits_u32(id2) ==> #[trigger] spec_exists_coll(final(store)@, id2)
                == spec_exists_coll(old(store)@, id2),
        spec_config(final(store)@) == spec_config(old(store)@),
{
    let ghost m0 = store@;
    let cfg = match load(store) {
        Ok(c) => c,
        Err(_) => {
            return Err(Error::NotFound);
        },
    };
    let entropy_b = entropy.as_str().as_bytes_vec();
    let key = ViewingKey::new(env, &cfg.prng_seed, &entropy_b);
    write_viewing_key(store, &env.sender, &key);
    proof {
        lemma_inv_insert_vk(m0, encode_utf8(env.sender@), spec_hashed_key(key.0@));
    }
    Ok(HandleAnswer::CreateViewingKey { key })
}

/// Create `owner`'s collection together with its ownership sentinel: the
/// record at index 0 whose sender field names the owner.  Fails
/// `AlreadyInitialized` — writing nothing — when the collection already
/// exists.
pub fn create_with_sentinel(store: &mut Store, owner: &String) -> (r: Result<(), Error>)
    requires
        spec_store_inv(old(store)@),
        spec_id_ok(owner@),
    ensures
        spec_store_inv(final(store)@),
        r is Ok <==> !spec_exists_coll(old(store)@, encode_utf8(owner@)),
        r matches Err(e) ==> e == Error::AlreadyInitialized && final(store)@ == old(store)@,
        r is Ok ==> {
            let idb = encode_utf8(owner@);
            &&& spec_collection(final(store)@, idb) == Some(seq![spec_init_sentinel(owner@)])
            &&& spec_exists_coll(final(store)@, idb)
            &&& spec_payload(final(store)@, idb) == Seq::<MessageView>::empty()
        },
        forall|id2: Seq<u8>|
            spec_fits_u32(id2) && id2 != encode_utf8(owner@) ==> #[trigger] spec_collection(
                final(store)@,
                id2,
            ) == spec_collection(old(store)@, id2),
        forall|id2: Seq<u8>|
            spec_fits_u32(id2) && id2 != encode_utf8(owner@) ==> #[trigger] spec_exists_coll(
                final(store)@,
                id2,
            ) == spec_exists_coll(old(store)@, id2),
        forall|id2: Seq<u8>|
            spec_fits_u32(id2) ==> #[trigger] spec_cred(final(store)@, id2) == spec_cred(
                old(store)@,
                id2,
            ),
        spec_config(final(store)@) == spec_config(old(store)@),
        forall|id2: Seq<u8>|
            spec_fits_u32(id2) && spec_exists_coll(old(store)@, id2)
                ==> #[trigger] spec_exists_coll(final(store)@, id2),
{
    let ghost m0 = store@;
    let ghost idb = encode_utf8(owner@);
    proof {
        assert(spec_ns_wf(m0, idb));
        lemma_exists_iff(m0, idb);
    }
    let already = collection_exist(store, owner);
    if already {
        return Err(Error::AlreadyInitialized);
    }
    create_empty_collection(store, owner);
    let ghost m1 = store@;
    proof {
        let lkk = spec_len_key(idb);
        if !spec_has_coll(m0, idb) {
            assert(m0.insert(lkk, spec_be32(0)).insert(lkk, spec_be32(0)) =~= m0.insert(
                lkk,
                spec_be32(0),
            ));
            lemma_inv_coll_op(m0, m1, idb, lkk, spec_be32(0), lkk, spec_be32(0));
        }
        assert(spec_coll_len(m1, idb) == 0) by {
            if spec_has_coll(m0, idb) {
                assert(m1 == m0);
            } else {
                crate::encoding::lemma_be32_roundtrip(0);
            }
        }
        assert(spec_collection(m1, idb)->0 =~= Seq::<MessageView>::empty());
    }
    let sentinel = Message::new(
        String::from_str("Placeholder/homefolder/dummy.jpg"),
        owner.clone(),
    );
    proof {
        reveal_strlit("Placeholder/homefolder/dummy.jpg");
        lemma_encode_utf8_len("Placeholder/homefolder/dummy.jpg"@);
    }
    let ar = append_message(store, &sentinel, owner);
    let ghost m2 = store@;
    proof {
        assert(ar is Ok);
        let lkk = spec_len_key(idb);
        let rkk = spec_rec_key(idb, 0);
        assert(0 <= 0 < 0x1_0000_0000 && rkk == spec_rec_key(idb, 0));
        lemma_inv_coll_op(
            m1,
            m2,
            idb,
            rkk,
            crate::state::spec_encode_message(sentinel@),
            lkk,
            spec_be32(1),
        );
        assert(spec_collection(m2, idb)->0 =~= seq![spec_init_sentinel(owner@)]);
        assert(spec_rec_ok(m2, idb, 0));
        assert(spec_exists_coll(m2, idb));
        assert(spec_payload(m2, idb) =~= Seq::<MessageView>::empty());
        assert forall|id2: Seq<u8>|
            spec_fits_u32(id2) && spec_exists_coll(m0, id2) implies #[trigger] spec_exists_coll(
            m2,
            id2,
        ) by {
            if id2 != idb {
                assert(spec_exists_coll(m2, id2) == spec_exists_coll(m0, id2));
            }
        }
    }
    Ok(())
}

/// Initialize the caller's identity: create its collection with the
/// ownership sentinel and issue its first viewing key, in one operation.
/// Fails with `AlreadyInitialized` when the collection already exists —
/// whether from an earlier initialization or from a deposit — and with
/// `NotFound` when the instance was never deployed; neither failure
/// writes anything.
pub fn try_init(store: &mut Store, env: &Env, entropy: String) -> (r: Result<HandleAnswer, Error>)
    requires
        spec_store_inv(old(store)@),
        spec_id_ok(env.sender@),
        spec_id_ok(entropy@),
    ensures
        spec_store_inv(final(store)@),
        r is Ok <==> (!spec_exists_coll(old(store)@, encode_utf8(env.sender@)) && spec_config(
            old(store)@,
        ) is Some),
        spec_exists_coll(old(store)@, encode_utf8(env.sender@)) ==> (r matches Err(e) && e
            == Error::AlreadyInitialized && final(store)@ == old(store)@),
        !spec_exists_coll(old(store)@, encode_utf8(env.sender@)) && spec_config(old(store)@)
            is None ==> (r matches Err(e) && e == Error::NotFound && final(store)@ == old(
            store,
        )@),
        r matches Ok(a) ==> a is CreateViewingKey,
        r matches Ok(a) ==> (a matches HandleAnswer::CreateViewingKey { key } ==> {
            let idb = encode_utf8(env.sender@);
            &&& key.0@ == spec_new_key(
                spec_config(old(store)@)->0.prng_seed,
                env.block_height,
                env.block_time,
                env.sender@,
                encode_utf8(entropy@),
            )
            &&& spec_collection(final(store)@, idb) == Some(
                seq![spec_init_sentinel(env.sender@)],
            )
            &&& spec_exists_coll(final(store)@, idb)
            &&& spec_payload(final(store)@, idb) == Seq::<MessageView>::empty()
            &&& spec_cred(final(store)@, idb) == Some(spec_hashed_key(key.0@))
            &&& spec_verify(final(store)@, idb, key.0@)
            &&& forall|id2: Seq<u8>|
                spec_fits_u32(id2) && id2 != idb ==> #[trigger] spec_cred(final(store)@, id2)
                    == spec_cred(old(store)@, id2)
        }),
        forall|id2: Seq<u8>|
            spec_fits_u32(id2) && id2 != encode_utf8(env.sender@) ==> #[trigger] spec_collection(
                final(store)@,
                id2,
            ) == spec_collection(old(store)@, id2),
        forall|id2: Seq<u8>|
            spec_fits_u32(id2) && id2 != encode_utf8(env.sender@) ==> #[trigger] spec_exists_coll(
                final(store)@,
                id2,
            ) == spec_exists_coll(old(store)@, id2),
        spec_config(final(store)@) == spec_config(old(store)@),
        forall|id2: Seq<u8>|
            spec_fits_u32(id2) && spec_exists_coll(old(store)@, id2)
                ==> #[trigger] spec_exists_coll(final(store)@, id2),
{
    let ghost m0 = store@;
    let ghost idb = encode_utf8(env.sender@);
    proof {
        assert(spec_ns_wf(m0, idb));
        lemma_exists_iff(m0, idb);
    }
    let already = collection_exist(store, &env.sender);
    if already {
        return Err(Error::AlreadyInitialized);
    }
    let cfg = match load(store) {
        Ok(c) => c,
        Err(_) => {
            return Err(Error::NotFound);
        },
    };
    let cr = create_with_sentinel(store, &env.sender);
    let ghost m2 = store@;
    proof {
        assert(cr is Ok);
    }
    let entropy_b = entropy.as_str().as_bytes_vec();
    let key = ViewingKey::new(env, &cfg.prng_seed, &entropy_b);
    write_viewing_key(store, &env.sender, &key);
    proof {
        let m3 = store@;
        lemma_inv_insert_vk(m2, idb, spec_hashed_key(key.0@));
        assert forall|id2: Seq<u8>| spec_fits_u32(id2) && id2 != idb implies #[trigger] spec_collection(
            m3,
            id2,
        ) == spec_collection(m0, id2) && #[trigger] spec_exists_coll(m3, id2)
            == spec_exists_coll(m0, id2) && #[trigger] spec_cred(m3, id2) == spec_cred(
            m0,
            id2,
        ) by {}
        assert(spec_collection(m3, idb) == spec_collection(m2, idb));
        assert(spec_exists_coll(m3, idb));
        assert(spec_payload(m3, idb) =~= Seq::<MessageView>::empty());
        assert forall|id2: Seq<u8>|
            spec_fits_u32(id2) && spec_exists_coll(m0, id2) implies #[trigger] spec_exists_coll(
            m3,
            id2,
        ) by {}
    }
    Ok(HandleAnswer::CreateViewingKey { key })
}

} // verus!

//! The operation surface: one entry point for deployment, one for
//! state-changing requests, one for authenticated reads.
//!
//! Authentication never reveals whether a credential exists: when none is
//! stored the supplied key is still hashed and compared against an
//! all-zero buffer of hash size, so the "no key" and "wrong key" paths do
//! the same work and both end in `Unauthorized`.

use vstd::prelude::*;
use vstd::string::StrSliceExecFns;
use vstd::string::StringExecFns;
use vstd::utf8::encode_utf8;

use crate::store::Store;
use crate::encoding::spec_be32;
use crate::encoding::spec_fits_u32;
use crate::encoding::lemma_encode_utf8_len;
use crate::layout::spec_len_key;
use crate::layout::spec_rec_key;
use crate::layout::spec_config_key;
use crate::collection::spec_has_coll;
use crate::collection::spec_coll_len;
use crate::collection::spec_coll_seq;
use crate::collection::spec_collection;
use crate::collection::spec_exists_coll;
use crate::collection::spec_ns_wf;
use crate::collection::spec_rec_ok;
use crate::collection::lemma_exists_iff;
use crate::crypto::sha256_of;
use crate::crypto::b64_of;
use crate::crypto::sha256;
use crate::crypto::b64_encode;
use crate::state::Message;
use crate::state::MessageView;
use crate::state::State;
use crate::state::StateView;
use crate::state::Env;
use crate::state::spec_id_ok;
use crate::state::spec_config;
use crate::state::spec_cred;
use crate::state::spec_store_inv;
use crate::state::spec_encode_state;
use crate::state::lemma_inv_insert_config;
use crate::state::lemma_inv_coll_op;
use crate::state::save;
use crate::state::read_viewing_key;
use crate::state::append_message;
use crate::state::create_empty_collection;
use crate::backend::try_init;
use crate::backend::try_create_viewing_key;
use crate::backend::delete_all_messages;
use crate::backend::collection_exist;
use crate::backend::get_collection_owner;
use crate::backend::get_messages;
use crate::backend::spec_payload;
use crate::backend::spec_deposit_sentinel;
use crate::backend::spec_init_sentinel;
use crate::backend::spec_verify;
use crate::viewing_key::ViewingKey;
use crate::viewing_key::spec_hashed_key;
use crate::viewing_key::spec_new_key;
use crate::viewing_key::VIEWING_KEY_SIZE;
use crate::msg::InitMsg;
use crate::msg::HandleMsg;
use crate::msg::QueryMsg;
use crate::msg::HandleAnswer;
use crate::msg::ResponseStatus;
use crate::msg::MessageResponse;
use crate::error::Error;

verus! {

/// The seed the deployment input is stretched into: the hash of the
/// base64 text of the input's bytes.
pub open spec fn spec_seed_of(prng_seed: Seq<char>) -> Seq<u8> {
    sha256_of(encode_utf8(b64_of(encode_utf8(prng_seed))))
}

/// Deploy the instance: derive the secret seed from the given entropy
/// and persist the configuration under its fixed key.  Writes nothing
/// else.
pub fn init(store: &mut Store, env: &Env, msg: InitMsg) -> (r: Result<(), Error>)
    requires
        spec_store_inv(old(store)@),
        spec_id_ok(env.sender@),
        spec_id_ok(env.contract@),
    ensures
        r is Ok,
        spec_store_inv(final(store)@),
        spec_config(final(store)@) == Some(
            StateView {
                owner: env.sender@,
                contract: env.contract@,
                prng_seed: spec_seed_of(msg.prng_seed@),
            },
        ),
        forall|id2: Seq<u8>|
            spec_fits_u32(id2) ==> #[trigger] spec_collection(final(store)@, id2)
                == spec_collection(old(store)@, id2),
        forall|id2: Seq<u8>|
            spec_fits_u32(id2) ==> #[trigger] spec_exists_coll(final(store)@, id2)
                == spec_exists_coll(old(store)@, id2),
        forall|id2: Seq<u8>|
            spec_fits_u32(id2) ==> #[trigger] spec_cred(final(store)@, id2) == spec_cred(
                old(store)@,
                id2,
            ),
{
    let ghost m0 = store@;
    let seed_b = msg.prng_seed.as_str().as_bytes_vec();
    let b64 = b64_encode(&seed_b);
    let b64b = b64.as_str().as_bytes_vec();
    let hashed = sha256(&b64b);
    let config = State {
        owner: env.sender.clone(),
        contract: env.contract.clone(),
        prng_seed: hashed,
    };
    save(store, &config);
    proof {
        lemma_inv_insert_config(m0, spec_encode_state(config@));
        crate::state::lemma_state_roundtrip(config@);
    }
    Ok(())
}

/// Deposit a record into `to`'s collection on behalf of the caller.  A
/// recipient never seen before gets a collection auto-created, sentinel
/// and record in one operation; no credential is needed to deposit.
pub fn send_message(store: &mut Store, env: &Env, to: String, contents: String) -> (r: Result<
    HandleAnswer,
    Error,
>)
    requires
        spec_store_inv(old(store)@),
        spec_id_ok(env.sender@),
        spec_id_ok(to@),
        spec_id_ok(contents@),
    ensures
        spec_store_inv(final(store)@),
        r is Ok <==> (!spec_exists_coll(old(store)@, encode_utf8(to@)) || spec_coll_len(
            old(store)@,
            encode_utf8(to@),
        ) < 0xFFFF_FFFF),
        r matches Ok(a) ==> a == (HandleAnswer::DefaultAnswer { status: ResponseStatus::Success }),
        !spec_exists_coll(old(store)@, encode_utf8(to@)) ==> {
            let idb = encode_utf8(to@);
            let msgv = MessageView { contents: contents@, owner: env.sender@ };
            &&& spec_collection(final(store)@, idb) == Some(
                seq![spec_deposit_sentinel(to@), msgv],
            )
            &&& spec_payload(final(store)@, idb) == seq![msgv]
            &&& spec_exists_coll(final(store)@, idb)
            &&& spec_coll_seq(final(store)@, idb)[0].owner == to@
        },
        spec_exists_coll(old(store)@, encode_utf8(to@)) && spec_coll_len(
            old(store)@,
            encode_utf8(to@),
        ) < 0xFFFF_FFFF ==> {
            let idb = encode_utf8(to@);
            let msgv = MessageView { contents: contents@, owner: env.sender@ };
            &&& spec_collection(final(store)@, idb) == Some(
                spec_coll_seq(old(store)@, idb).push(msgv),
            )
            &&& spec_payload(final(store)@, idb) == spec_payload(old(store)@, idb).push(msgv)
            &&& spec_exists_coll(final(store)@, idb)
        },
        r matches Err(e) ==> final(store)@ == old(store)@ && e == Error::OutOfRange,
        forall|id2: Seq<u8>|
            spec_fits_u32(id2) && id2 != encode_utf8(to@) ==> #[trigger] spec_collection(
                final(store)@,
                id2,
            ) == spec_collection(old(store)@, id2),
        forall|id2: Seq<u8>|
            spec_fits_u32(id2) && id2 != encode_utf8(to@) ==> #[trigger] spec_exists_coll(
                final(store)@,
                id2,
            ) == spec_exists_coll(old(store)@, id2),
        forall|id2: Seq<u8>|
            spec_fits_u32(id2) ==> #[trigger] spec_cred(final(store)@, id2) == spec_cred(
                old(store)@,
                id2,
            ),
        spec_config(final(store)@) == spec_config(old(store)@),
        forall|id2: Seq<u8>|
            spec_fits_u32(id2) && spec_exists_coll(old(store)@, id2)
                ==> #[trigger] spec_exists_coll(final(store)@, id2),
{
    let ghost m0 = store@;
    let ghost idb = encode_utf8(to@);
    let ghost msgv = MessageView { contents: contents@, owner: env.sender@ };
    proof {
        assert(spec_ns_wf(m0, idb));
        lemma_exists_iff(m0, idb);
    }
    let message = Message::new(contents, env.sender.clone());
    let already = collection_exist(store, &to);
    if !already {
        create_empty_collection(store, &to);
        let ghost m1 = store@;
        proof {
            let lkk = spec_len_key(idb);
            if !spec_has_coll(m0, idb) {
                assert(m0.insert(lkk, spec_be32(0)).insert(lkk, spec_be32(0)) =~= m0.insert(
                    lkk,
                    spec_be32(0),
                ));
                lemma_inv_coll_op(m0, m1, idb, lkk, spec_be32(0), lkk, spec_be32(0));
            }
            assert(spec_coll_len(m1, idb) == 0) by {
                if spec_has_coll(m0, idb) {
                    assert(m1 == m0);
                } else {
                    crate::encoding::lemma_be32_roundtrip(0);
                }
            }
            assert(spec_collection(m1, idb)->0 =~= Seq::<MessageView>::empty());
        }
        let dummy = Message::new(String::from_str("Dummy_contents.jpg"), to.clone());
        proof {
            reveal_strlit("Dummy_contents.jpg");
            lemma_encode_utf8_len("Dummy_contents.jpg"@);
        }
        let r1 = append_message(store, &dummy, &to);
        let ghost m2 = store@;
        proof {
            assert(r1 is Ok);
            lemma_inv_coll_op(
                m1,
                m2,
                idb,
                spec_rec_key(idb, 0),
                crate::state::spec_encode_message(dummy@),
                spec_len_key(idb),
                spec_be32(1),
            );
            assert(spec_collection(m2, idb)->0 =~= seq![spec_deposit_sentinel(to@)]);
            assert(spec_coll_len(m2, idb) == 1);
        }
        let r2 = append_message(store, &message, &to);
        let ghost m3 = store@;
        proof {
            assert(r2 is Ok);
            lemma_inv_coll_op(
                m2,
                m3,
                idb,
                spec_rec_key(idb, 1),
                crate::state::spec_encode_message(message@),
                spec_len_key(idb),
                spec_be32(2),
            );
            assert(spec_collection(m3, idb)->0 =~= seq![spec_deposit_sentinel(to@), msgv]);
            assert(spec_rec_ok(m3, idb, 0));
            assert(spec_exists_coll(m3, idb));
            assert(spec_payload(m3, idb) =~= seq![msgv]);
            assert forall|id2: Seq<u8>|
                spec_fits_u32(id2) && spec_exists_coll(m0, id2) implies #[trigger] spec_exists_coll(
                m3,
                id2,
            ) by {
                if id2 != idb {
                    assert(spec_exists_coll(m3, id2) == spec_exists_coll(m0, id2));
                }
            }
        }
        Ok(HandleAnswer::DefaultAnswer { status: ResponseStatus::Success })
    } else {
        let res = message.store_message(store, &to);
        match res {
            Ok(_) => {
                let ghost m3 = store@;
                proof {
                    let n = spec_coll_len(m0, idb);
                    lemma_inv_coll_op(
                        m0,
                        m3,
                        idb,
                        spec_rec_key(idb, n as int),
                        crate::state::spec_encode_message(message@),
                        spec_len_key(idb),
                        spec_be32((n + 1) as u32),
                    );
                    assert(spec_collection(m3, idb) == Some(spec_coll_seq(m0, idb).push(msgv)));
                    crate::encoding::lemma_be32_roundtrip((n + 1) as u32);
                    assert(spec_coll_len(m3, idb) == n + 1);
                    assert(spec_rec_ok(m3, idb, 0));
                    assert(spec_exists_coll(m3, idb));
                    assert(spec_payload(m3, idb) =~= spec_payload(m0, idb).push(msgv));
                    assert forall|id2: Seq<u8>|
                        spec_fits_u32(id2) && spec_exists_coll(m0, id2) implies #[trigger] spec_exists_coll(
                        m3,
                        id2,
                    ) by {
                        if id2 != idb {
                            assert(spec_exists_coll(m3, id2) == spec_exists_coll(m0, id2));
                        }
                    }
                }
                Ok(HandleAnswer::DefaultAnswer { status: ResponseStatus::Success })
            },
            Err(e) => Err(e),
        }
    }
}

/// Dispatch one state-changing request to its operation.
pub fn handle(store: &mut Store, env: &Env, msg: HandleMsg) -> (r: Result<HandleAnswer, Error>)
    requires
        spec_store_inv(old(store)@),
        spec_id_ok(env.sender@),
        msg matches HandleMsg::InitAddress { entropy } ==> spec_id_ok(entropy@),
        msg matches HandleMsg::CreateViewingKey { entropy, padding } ==> spec_id_ok(entropy@),
        msg matches HandleMsg::SendMessage { to, contents } ==> spec_id_ok(to@) && spec_id_ok(
            contents@,
        ),
    ensures
        spec_store_inv(final(store)@),
        spec_config(final(store)@) == spec_config(old(store)@),
        forall|id2: Seq<u8>|
            spec_fits_u32(id2) && spec_exists_coll(old(store)@, id2)
                ==> #[trigger] spec_exists_coll(final(store)@, id2),
        msg matches HandleMsg::InitAddress { entropy } ==> {
            let idb = encode_utf8(env.sender@);
            &&& (r is Ok <==> (!spec_exists_coll(old(store)@, idb) && spec_config(old(store)@)
                is Some))
            &&& (r matches Ok(a) ==> a is CreateViewingKey)
            &&& (spec_exists_coll(old(store)@, idb) ==> (r matches Err(e) && e
                == Error::AlreadyInitialized && final(store)@ == old(store)@))
            &&& (r matches Ok(a) ==> (a matches HandleAnswer::CreateViewingKey { key } ==> {
                &&& key.0@ == spec_new_key(
                    spec_config(old(store)@)->0.prng_seed,
                    env.block_height,
                    env.block_time,
                    env.sender@,
                    encode_utf8(entropy@),
                )
                &&& spec_collection(final(store)@, idb) == Some(
                    seq![spec_init_sentinel(env.sender@)],
                )
                &&& spec_exists_coll(final(store)@, idb)
                &&& spec_cred(final(store)@, idb) == Some(spec_hashed_key(key.0@))
                &&& spec_verify(final(store)@, idb, key.0@)
            }))
        },
        msg matches HandleMsg::CreateViewingKey { entropy, padding } ==> {
            let idb = encode_utf8(env.sender@);
            &&& (r is Ok <==> spec_config(old(store)@) is Some)
            &&& (r matches Ok(a) ==> a is CreateViewingKey)
            &&& (r matches Ok(a) ==> (a matches HandleAnswer::CreateViewingKey { key } ==> {
                &&& key.0@ == spec_new_key(
                    spec_config(old(store)@)->0.prng_seed,
                    env.block_height,
                    env.block_time,
                    env.sender@,
                    encode_utf8(entropy@),
                )
                &&& spec_cred(final(store)@, idb) == Some(spec_hashed_key(key.0@))
                &&& spec_verify(final(store)@, idb, key.0@)
            }))
            &&& forall|id2: Seq<u8>|
                spec_fits_u32(id2) ==> #[trigger] spec_collection(final(store)@, id2)
                    == spec_collection(old(store)@, id2)
        },
        msg matches HandleMsg::SendMessage { to, contents } ==> {
            let idb = encode_utf8(to@);
            let msgv = MessageView { contents: contents@, owner: env.sender@ };
            &&& (r matches Ok(a) ==> a == (HandleAnswer::DefaultAnswer {
                status: ResponseStatus::Success,
            }))
            &&& (!spec_exists_coll(old(store)@, idb) ==> r is Ok && spec_collection(
                final(store)@,
                idb,
            ) == Some(seq![spec_deposit_sentinel(to@), msgv]) && spec_payload(final(store)@, idb)
                == seq![msgv])
            &&& (spec_exists_coll(old(store)@, idb) && spec_coll_len(old(store)@, idb)
                < 0xFFFF_FFFF ==> r is Ok && spec_collection(final(store)@, idb) == Some(
                spec_coll_seq(old(store)@, idb).push(msgv),
            ) && spec_payload(final(store)@, idb) == spec_payload(old(store)@, idb).push(msgv))
            &&& forall|id2: Seq<u8>|
                spec_fits_u32(id2) ==> #[trigger] spec_cred(final(store)@, id2) == spec_cred(
                    old(store)@,
                    id2,
                )
        },
        msg is DeleteAllMessages ==> {
            let idb = encode_utf8(env.sender@);
            &&& (r is Ok <==> (spec_has_coll(old(store)@, idb) && spec_coll_len(old(store)@, idb)
                >= 1))
            &&& (r matches Ok(a) ==> a == (HandleAnswer::DefaultAnswer {
                status: ResponseStatus::Success,
            }))
            &&& (r is Ok ==> spec_payload(final(store)@, idb) == Seq::<MessageView>::empty()
                && spec_exists_coll(final(store)@, idb) && spec_coll_seq(final(store)@, idb)[0]
                == spec_coll_seq(old(store)@, idb)[0])
            &&& (r is Err ==> final(store)@ == old(store)@)
            &&& forall|id2: Seq<u8>|
                spec_fits_u32(id2) ==> #[trigger] spec_cred(final(store)@, id2) == spec_cred(
                    old(store)@,
                    id2,
                )
        },
{
    match msg {
        HandleMsg::InitAddress { entropy } => try_init(store, env, entropy),
        HandleMsg::CreateViewingKey { entropy, padding } => try_create_viewing_key(
            store,
            env,
            entropy,
        ),
        HandleMsg::SendMessage { to, contents } => send_message(store, env, to, contents),
        HandleMsg::DeleteAllMessages {  } => delete_all_messages(store, env),
    }
}

/// List the records deposited for `behalf`, sentinel excluded, after the
/// collection's sentinel confirms `behalf` as its owner.
fn query_messages(store: &Store, behalf: &String) -> (r: Result<MessageResponse, Error>)
    requires
        spec_store_inv(store@),
        spec_id_ok(behalf@),
    ensures
        r is Ok <==> (spec_exists_coll(store@, encode_utf8(behalf@)) && spec_coll_seq(
            store@,
            encode_utf8(behalf@),
        )[0].owner == behalf@),
        r matches Ok(resp) ==> resp.messages.deep_view() == spec_payload(
            store@,
            encode_utf8(behalf@),
        ),
        !spec_exists_coll(store@, encode_utf8(behalf@)) ==> (r matches Err(e) && e == (
        if !spec_has_coll(store@, encode_utf8(behalf@)) {
            Error::NotACollection
        } else {
            Error::OutOfRange
        })),
        spec_exists_coll(store@, encode_utf8(behalf@)) && spec_coll_seq(
            store@,
            encode_utf8(behalf@),
        )[0].owner != behalf@ ==> (r matches Err(e) && e == Error::Unauthorized),
{
    let owner = match get_collection_owner(store, behalf) {
        Ok(o) => o,
        Err(e) => {
            return Err(e);
        },
    };
    if owner == *behalf {
        match get_messages(store, behalf) {
            Ok(v) => Ok(MessageResponse { messages: v }),
            Err(e) => Err(e),
        }
    } else {
        Err(Error::Unauthorized)
    }
}

/// Run one authenticated read.  When no credential is stored for the
/// target, the supplied key is still hashed and checked against an
/// all-zero buffer before the request is rejected, so absence and
/// mismatch are not distinguishable by the work done.
fn authenticated_queries(store: &Store, msg: &QueryMsg) -> (r: Result<MessageResponse, Error>)
    requires
        spec_store_inv(store@),
        msg matches QueryMsg::GetMessages { behalf, key } ==> spec_id_ok(behalf@),
    ensures
        msg matches QueryMsg::GetMessages { behalf, key } ==> {
            let idb = encode_utf8(behalf@);
            &&& (!spec_verify(store@, idb, key@) ==> (r matches Err(e) && e
                == Error::Unauthorized))
            &&& (spec_verify(store@, idb, key@) ==> {
                &&& (r is Ok <==> (spec_exists_coll(store@, idb) && spec_coll_seq(store@, idb)[0].owner
                    == behalf@))
                &&& (r matches Ok(resp) ==> resp.messages.deep_view() == spec_payload(store@, idb))
                &&& (spec_exists_coll(store@, idb) && spec_coll_seq(store@, idb)[0].owner != behalf@
                    ==> (r matches Err(e) && e == Error::Unauthorized))
                &&& (!spec_exists_coll(store@, idb) ==> (r matches Err(e) && e == (
                if !spec_has_coll(store@, idb) {
                    Error::NotACollection
                } else {
                    Error::OutOfRange
                })))
            })
            &&& ((spec_exists_coll(store@, idb) ==> spec_coll_seq(store@, idb)[0].owner
                == behalf@) ==> ((r == Err::<MessageResponse, Error>(Error::Unauthorized)) <==> !spec_verify(
                store@,
                idb,
                key@,
            )))
        },
{
    match msg {
        QueryMsg::GetMessages { behalf, key } => {
            let vk = ViewingKey(key.clone());
            let ghost idb = encode_utf8(behalf@);
            match read_viewing_key(store, behalf) {
                None => {
                    // No credential was ever stored: burn the same hashing
                    // work against a zero buffer instead of returning at
                    // once, then reject.
                    let zeros: Vec<u8> = vec![0u8; VIEWING_KEY_SIZE];
                    let _ = vk.check_viewing_key(&zeros);
                    Err(Error::Unauthorized)
                },
                Some(h) => {
                    proof {
                        assert(store@[crate::layout::spec_vk_key(idb)].len() == 32);
                    }
                    if vk.check_viewing_key(&h) {
                        query_messages(store, behalf)
                    } else {
                        Err(Error::Unauthorized)
                    }
                },
            }
        },
    }
}

/// Dispatch one read request.
pub fn query(store: &Store, msg: QueryMsg) -> (r: Result<MessageResponse, Error>)
    requires
        spec_store_inv(store@),
        msg matches QueryMsg::GetMessages { behalf, key } ==> spec_id_ok(behalf@),
    ensures
        msg matches QueryMsg::GetMessages { behalf, key } ==> {
            let idb = encode_utf8(behalf@);
            &&& (!spec_verify(store@, idb, key@) ==> (r matches Err(e) && e
                == Error::Unauthorized))
            &&& (spec_verify(store@, idb, key@) ==> {
                &&& (r is Ok <==> (spec_exists_coll(store@, idb) && spec_coll_seq(store@, idb)[0].owner
                    == behalf@))
                &&& (r matches Ok(resp) ==> resp.messages.deep_view() == spec_payload(store@, idb))
                &&& (spec_exists_coll(store@, idb) && spec_coll_seq(store@, idb)[0].owner != behalf@
                    ==> (r matches Err(e) && e == Error::Unauthorized))
                &&& (!spec_exists_coll(store@, idb) ==> (r matches Err(e) && e == (
                if !spec_has_coll(store@, idb) {
                    Error::NotACollection
                } else {
                    Error::OutOfRange
                })))
            })
            &&& ((spec_exists_coll(store@, idb) ==> spec_coll_seq(store@, idb)[0].owner
                == behalf@) ==> ((r == Err::<MessageResponse, Error>(Error::Unauthorized)) <==> !spec_verify(
                store@,
                idb,
                key@,
            )))
        },
{
    authenticated_queries(store, &msg)
}

} // verus!

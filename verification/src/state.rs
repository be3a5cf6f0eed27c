//! The data the ledger persists: records, the global configuration, and
//! their binary codecs.
//!
//! A record (`Message`) carries a content reference and the sender's
//! identity; the global configuration (`State`) holds the deployer, the
//! service's own identity and the secret seed.  Both are stored as
//! length-prefixed chunks, and decoding is proved to invert encoding.

use vstd::prelude::*;
use vstd::string::StrSliceExecFns;
use vstd::utf8::encode_utf8;
use vstd::utf8::decode_utf8;
use vstd::utf8::valid_utf8;
use vstd::utf8::encode_utf8_valid_utf8;
use vstd::utf8::encode_utf8_decode_utf8;

use crate::store::Store;
use crate::layout::spec_config_key;
use crate::layout::spec_vk_key;
use crate::layout::spec_len_key;
use crate::layout::spec_rec_key;
use crate::layout::config_key;
use crate::layout::vk_key;
use crate::layout::lemma_keys_distinct;
use crate::collection::spec_ns_wf;
use crate::collection::spec_has_coll;
use crate::collection::spec_coll_len;
use crate::collection::spec_exists_coll;
use crate::collection::spec_collection;
use crate::collection::lemma_coll_insert_other;
use crate::collection::create_collection;
use crate::collection::append_record;
use crate::collection::collection_length;
use crate::error::Error;
use crate::viewing_key::ViewingKey;
use crate::viewing_key::spec_hashed_key;
use crate::encoding::spec_be32;
use crate::encoding::spec_chunk;
use crate::encoding::spec_fits_u32;
use crate::encoding::spec_read_chunk;
use crate::encoding::lemma_read_chunk_of_chunk;
use crate::encoding::lemma_triple_chunks;
use crate::encoding::push_chunk;
use crate::encoding::read_chunk;
use crate::encoding::string_from_utf8;

verus! {

/// One deposited record: a content reference and the sender's identity.
/// Immutable once appended.  At index 0 of a collection the `owner` field
/// is re-purposed as the collection's ownership marker.
#[derive(Clone, Debug)]
pub struct Message {
    contents: String,
    owner: String,
}

/// The mathematical value of a [`Message`].
pub ghost struct MessageView {
    pub contents: Seq<char>,
    pub owner: Seq<char>,
}

impl View for Message {
    type V = MessageView;

    closed spec fn view(&self) -> MessageView {
        MessageView { contents: self.contents@, owner: self.owner@ }
    }
}

impl DeepView for Message {
    type V = MessageView;

    open spec fn deep_view(&self) -> MessageView {
        self@
    }
}

/// A record is storable when each field's UTF-8 form fits behind a 4-byte
/// length prefix.
pub open spec fn spec_message_wf(m: MessageView) -> bool {
    spec_fits_u32(encode_utf8(m.contents)) && spec_fits_u32(encode_utf8(m.owner))
}

/// The stored bytes of a record: two length-prefixed UTF-8 chunks.
pub open spec fn spec_encode_message(m: MessageView) -> Seq<u8>
    recommends
        spec_message_wf(m),
{
    spec_chunk(encode_utf8(m.contents)) + spec_chunk(encode_utf8(m.owner))
}

/// Parse stored bytes back into a record; `None` on any malformed input.
pub open spec fn spec_decode_message(b: Seq<u8>) -> Option<MessageView> {
    match spec_read_chunk(b, 0) {
        Option::None => Option::None,
        Option::Some(c) => match spec_read_chunk(b, c.1) {
            Option::None => Option::None,
            Option::Some(o) => if o.1 == b.len() && valid_utf8(c.0) && valid_utf8(o.0) {
                Option::Some(MessageView { contents: decode_utf8(c.0), owner: decode_utf8(o.0) })
            } else {
                Option::None
            },
        },
    }
}

/// Decoding inverts encoding.
#[verifier::rlimit(50)]
pub proof fn lemma_message_roundtrip(m: MessageView)
    requires
        spec_message_wf(m),
    ensures
        spec_decode_message(spec_encode_message(m)) == Some(m),
{
    let cb = encode_utf8(m.contents);
    let ob = encode_utf8(m.owner);
    let b = spec_encode_message(m);
    assert(b.len() == spec_chunk(cb).len() + spec_chunk(ob).len());
    assert(b.subrange(0, spec_chunk(cb).len() as int) =~= spec_chunk(cb));
    lemma_read_chunk_of_chunk(b, 0, cb);
    assert(spec_read_chunk(b, 0) == Some((cb, 4 + cb.len() as int)));
    assert(b.subrange(
        spec_chunk(cb).len() as int,
        spec_chunk(cb).len() + spec_chunk(ob).len() as int,
    ) =~= spec_chunk(ob));
    lemma_read_chunk_of_chunk(b, spec_chunk(cb).len() as int, ob);
    assert(spec_read_chunk(b, 4 + cb.len() as int) == Some((ob, b.len() as int)));
    encode_utf8_valid_utf8(m.contents);
    encode_utf8_valid_utf8(m.owner);
    encode_utf8_decode_utf8(m.contents);
    encode_utf8_decode_utf8(m.owner);
    assert(spec_decode_message(b) == Some(MessageView { contents: decode_utf8(cb), owner: decode_utf8(ob) }));
}

impl Message {
    /// A fresh record from its two fields.
    pub fn new(contents: String, owner: String) -> (r: Self)
        ensures
            r@ == (MessageView { contents: contents@, owner: owner@ }),
    {
        Self { contents, owner }
    }

    /// The content reference carried by this record.
    pub fn get_contents(&self) -> (r: &str)
        ensures
            r@ == self@.contents,
    {
        self.contents.as_str()
    }

    /// The sender identity carried by this record (the collection's owner,
    /// at index 0).
    pub fn get_owner(&self) -> (r: &str)
        ensures
            r@ == self@.owner,
    {
        self.owner.as_str()
    }
}

/// Serialize a record into its stored bytes.
pub fn encode_message(m: &Message) -> (r: Vec<u8>)
    requires
        spec_message_wf(m@),
    ensures
        r@ == spec_encode_message(m@),
{
    let mut r: Vec<u8> = Vec::new();
    let cb = m.contents.as_str().as_bytes_vec();
    push_chunk(&mut r, &cb);
    let ob = m.owner.as_str().as_bytes_vec();
    push_chunk(&mut r, &ob);
    proof {
        assert(Seq::<u8>::empty() + spec_chunk(cb@) =~= spec_chunk(cb@));
    }
    r
}

/// Parse stored bytes into a record; `None` exactly where the spec-level
/// decoder fails.
pub fn decode_message(b: &Vec<u8>) -> (r: Option<Message>)
    ensures
        match r {
            Some(m) => spec_decode_message(b@) == Some(m@) && spec_message_wf(m@),
            None => spec_decode_message(b@) is None,
        },
{
    let c = match read_chunk(b, 0) {
        Some(c) => c,
        None => {
            return None;
        },
    };
    let o = match read_chunk(b, c.1) {
        Some(o) => o,
        None => {
            return None;
        },
    };
    if o.1 != b.len() {
        return None;
    }
    let ghost cb = c.0@;
    let ghost ob = o.0@;
    let cs = match string_from_utf8(c.0) {
        Some(s) => s,
        None => {
            return None;
        },
    };
    let os = match string_from_utf8(o.0) {
        Some(s) => s,
        None => {
            return None;
        },
    };
    proof {
        encode_utf8_decode_utf8(cs@);
        encode_utf8_decode_utf8(os@);
    }
    Some(Message { contents: cs, owner: os })
}

/// The global configuration: the deployer's identity, the service's own
/// identity, and the secret seed set once at deployment.
#[derive(Clone, Debug)]
pub struct State {
    pub owner: String,
    pub contract: String,
    pub prng_seed: Vec<u8>,
}

/// The mathematical value of a [`State`].
pub ghost struct StateView {
    pub owner: Seq<char>,
    pub contract: Seq<char>,
    pub prng_seed: Seq<u8>,
}

impl View for State {
    type V = StateView;

    open spec fn view(&self) -> StateView {
        StateView { owner: self.owner@, contract: self.contract@, prng_seed: self.prng_seed@ }
    }
}

/// A configuration is storable when each field fits behind a 4-byte
/// length prefix.
pub open spec fn spec_state_wf(s: StateView) -> bool {
    spec_fits_u32(encode_utf8(s.owner)) && spec_fits_u32(encode_utf8(s.contract))
        && spec_fits_u32(s.prng_seed)
}

/// The stored bytes of the configuration: three length-prefixed chunks.
pub open spec fn spec_encode_state(s: StateView) -> Seq<u8>
    recommends
        spec_state_wf(s),
{
    spec_chunk(encode_utf8(s.owner)) + spec_chunk(encode_utf8(s.contract)) + spec_chunk(
        s.prng_seed,
    )
}

/// Parse stored bytes back into a configuration.
pub open spec fn spec_decode_state(b: Seq<u8>) -> Option<StateView> {
    match spec_read_chunk(b, 0) {
        Option::None => Option::None,
        Option::Some(w) => match spec_read_chunk(b, w.1) {
            Option::None => Option::None,
            Option::Some(c) => match spec_read_chunk(b, c.1) {
                Option::None => Option::None,
                Option::Some(p) => if p.1 == b.len() && valid_utf8(w.0) && valid_utf8(c.0) {
                    Option::Some(
                        StateView {
                            owner: decode_utf8(w.0),
                            contract: decode_utf8(c.0),
                            prng_seed: p.0,
                        },
                    )
                } else {
                    Option::None
                },
            },
        },
    }
}

/// Decoding inverts encoding.
#[verifier::rlimit(100)]
pub proof fn lemma_state_roundtrip(s: StateView)
    requires
        spec_state_wf(s),
    ensures
        spec_decode_state(spec_encode_state(s)) == Some(s),
{
    let wb = encode_utf8(s.owner);
    let cb = encode_utf8(s.contract);
    let b = spec_encode_state(s);
    lemma_triple_chunks(wb, cb, s.prng_seed);
    encode_utf8_valid_utf8(s.owner);
    encode_utf8_valid_utf8(s.contract);
    encode_utf8_decode_utf8(s.owner);
    encode_utf8_decode_utf8(s.contract);
    assert(spec_decode_state(b) == Some(
        StateView { owner: decode_utf8(wb), contract: decode_utf8(cb), prng_seed: s.prng_seed },
    ));
}

/// Serialize the configuration into its stored bytes.
pub fn encode_state(s: &State) -> (r: Vec<u8>)
    requires
        spec_state_wf(s@),
    ensures
        r@ == spec_encode_state(s@),
{
    let mut r: Vec<u8> = Vec::new();
    let wb = s.owner.as_str().as_bytes_vec();
    push_chunk(&mut r, &wb);
    let cb = s.contract.as_str().as_bytes_vec();
    push_chunk(&mut r, &cb);
    push_chunk(&mut r, &s.prng_seed);
    proof {
        assert(Seq::<u8>::empty() + spec_chunk(wb@) =~= spec_chunk(wb@));
    }
    r
}

/// Parse stored bytes into a configuration; `None` exactly where the
/// spec-level decoder fails.
pub fn decode_state(b: &Vec<u8>) -> (r: Option<State>)
    ensures
        match r {
            Some(s) => spec_decode_state(b@) == Some(s@) && spec_state_wf(s@),
            None => spec_decode_state(b@) is None,
        },
{
    let w = match read_chunk(b, 0) {
        Some(w) => w,
        None => {
            return None;
        },
    };
    let c = match read_chunk(b, w.1) {
        Some(c) => c,
        None => {
            return None;
        },
    };
    let p = match read_chunk(b, c.1) {
        Some(p) => p,
        None => {
            return None;
        },
    };
    if p.1 != b.len() {
        return None;
    }
    let ws = match string_from_utf8(w.0) {
        Some(s) => s,
        None => {
            return None;
        },
    };
    let cs = match string_from_utf8(c.0) {
        Some(s) => s,
        None => {
            return None;
        },
    };
    proof {
        encode_utf8_decode_utf8(ws@);
        encode_utf8_decode_utf8(cs@);
    }
    Some(State { owner: ws, contract: cs, prng_seed: p.0 })
}

/// What the host hands the service about one invocation: the block
/// context and the caller.
pub struct Env {
    pub block_height: u64,
    pub block_time: u64,
    pub sender: String,
    pub contract: String,
}

/// An identity is usable when its UTF-8 bytes fit behind a 4-byte length
/// prefix.
pub open spec fn spec_id_ok(s: Seq<char>) -> bool {
    spec_fits_u32(encode_utf8(s))
}

/// The configuration the store holds, if a decodable one was saved.
pub open spec fn spec_config(m: Map<Seq<u8>, Seq<u8>>) -> Option<StateView> {
    if m.dom().contains(spec_config_key()) {
        spec_decode_state(m[spec_config_key()])
    } else {
        None
    }
}

/// The hashed credential the store holds for the identity with UTF-8
/// bytes `idb`, if any.
pub open spec fn spec_cred(m: Map<Seq<u8>, Seq<u8>>, idb: Seq<u8>) -> Option<Seq<u8>> {
    if m.dom().contains(spec_vk_key(idb)) {
        Some(m[spec_vk_key(idb)])
    } else {
        None
    }
}

/// The store-wide invariant every operation preserves: every identity's
/// namespace is well formed, and every stored credential hash is exactly
/// 32 bytes.
pub open spec fn spec_store_inv(m: Map<Seq<u8>, Seq<u8>>) -> bool {
    &&& forall|idb: Seq<u8>| spec_fits_u32(idb) ==> #[trigger] spec_ns_wf(m, idb)
    &&& forall|idb: Seq<u8>|
        spec_fits_u32(idb) && m.dom().contains(#[trigger] spec_vk_key(idb)) ==> m[spec_vk_key(
            idb,
        )].len() == 32
}

/// The empty store satisfies the invariant.
pub proof fn lemma_inv_empty()
    ensures
        spec_store_inv(Map::<Seq<u8>, Seq<u8>>::empty()),
{
}

/// Writing a 32-byte credential hash preserves the invariant and touches
/// no collection.
pub proof fn lemma_inv_insert_vk(m: Map<Seq<u8>, Seq<u8>>, idb: Seq<u8>, h: Seq<u8>)
    requires
        spec_store_inv(m),
        spec_fits_u32(idb),
        h.len() == 32,
    ensures
        spec_store_inv(m.insert(spec_vk_key(idb), h)),
        forall|id2: Seq<u8>|
            spec_fits_u32(id2) ==> #[trigger] spec_collection(m.insert(spec_vk_key(idb), h), id2)
                == spec_collection(m, id2),
        forall|id2: Seq<u8>|
            spec_fits_u32(id2) ==> #[trigger] spec_exists_coll(m.insert(spec_vk_key(idb), h), id2)
                == spec_exists_coll(m, id2),
        spec_cred(m.insert(spec_vk_key(idb), h), idb) == Some(h),
        forall|id2: Seq<u8>|
            spec_fits_u32(id2) && id2 != idb ==> #[trigger] spec_cred(
                m.insert(spec_vk_key(idb), h),
                id2,
            ) == spec_cred(m, id2),
        spec_config(m.insert(spec_vk_key(idb), h)) == spec_config(m),
{
    let k = spec_vk_key(idb);
    let m2 = m.insert(k, h);
    assert forall|id2: Seq<u8>| spec_fits_u32(id2) && id2 != idb implies #[trigger] spec_cred(
        m2,
        id2,
    ) == spec_cred(m, id2) by {
        lemma_keys_distinct(idb, id2);
    }
    assert forall|id2: Seq<u8>| spec_fits_u32(id2) implies #[trigger] spec_ns_wf(m2, id2) by {
        lemma_keys_distinct(id2, idb);
        lemma_keys_distinct(idb, id2);
        lemma_coll_insert_other(m, id2, k, h);
    }
    assert forall|id2: Seq<u8>| spec_fits_u32(id2) implies #[trigger] spec_collection(m2, id2)
        == spec_collection(m, id2) by {
        lemma_keys_distinct(id2, idb);
        lemma_keys_distinct(idb, id2);
        lemma_coll_insert_other(m, id2, k, h);
    }
    assert forall|id2: Seq<u8>| spec_fits_u32(id2) implies #[trigger] spec_exists_coll(m2, id2)
        == spec_exists_coll(m, id2) by {
        lemma_keys_distinct(id2, idb);
        lemma_keys_distinct(idb, id2);
        lemma_coll_insert_other(m, id2, k, h);
    }
    assert forall|id2: Seq<u8>|
        spec_fits_u32(id2) && m2.dom().contains(#[trigger] spec_vk_key(id2)) implies m2[spec_vk_key(
        id2,
    )].len() == 32 by {
        lemma_keys_distinct(idb, id2);
    }
    lemma_keys_distinct(idb, idb);
}

/// Writing the configuration preserves the invariant and touches no
/// collection and no credential.
pub proof fn lemma_inv_insert_config(m: Map<Seq<u8>, Seq<u8>>, v: Seq<u8>)
    requires
        spec_store_inv(m),
    ensures
        spec_store_inv(m.insert(spec_config_key(), v)),
        forall|id2: Seq<u8>|
            spec_fits_u32(id2) ==> #[trigger] spec_collection(m.insert(spec_config_key(), v), id2)
                == spec_collection(m, id2),
        forall|id2: Seq<u8>|
            spec_fits_u32(id2) ==> #[trigger] spec_exists_coll(m.insert(spec_config_key(), v), id2)
                == spec_exists_coll(m, id2),
        forall|id2: Seq<u8>|
            spec_fits_u32(id2) ==> #[trigger] spec_cred(m.insert(spec_config_key(), v), id2)
                == spec_cred(m, id2),
{
    let k = spec_config_key();
    let m2 = m.insert(k, v);
    assert forall|id2: Seq<u8>| spec_fits_u32(id2) implies #[trigger] spec_ns_wf(m2, id2) by {
        lemma_keys_distinct(id2, id2);
        lemma_coll_insert_other(m, id2, k, v);
    }
    assert forall|id2: Seq<u8>| spec_fits_u32(id2) implies #[trigger] spec_collection(m2, id2)
        == spec_collection(m, id2) by {
        lemma_keys_distinct(id2, id2);
        lemma_coll_insert_other(m, id2, k, v);
    }
    assert forall|id2: Seq<u8>| spec_fits_u32(id2) implies #[trigger] spec_exists_coll(m2, id2)
        == spec_exists_coll(m, id2) by {
        lemma_keys_distinct(id2, id2);
        lemma_coll_insert_other(m, id2, k, v);
    }
    assert forall|id2: Seq<u8>| spec_fits_u32(id2) implies #[trigger] spec_cred(m2, id2)
        == spec_cred(m, id2) by {
        lemma_keys_distinct(id2, id2);
    }
    assert forall|id2: Seq<u8>|
        spec_fits_u32(id2) && m2.dom().contains(#[trigger] spec_vk_key(id2)) implies m2[spec_vk_key(
        id2,
    )].len() == 32 by {
        lemma_keys_distinct(id2, id2);
    }
}

/// A collection operation on `idb` (any mix of writes to its counter and
/// record cells) leaves every other identity's collection, every
/// credential, and the configuration untouched, and preserves the
/// invariant provided `idb`'s own namespace stayed well formed.
pub proof fn lemma_inv_coll_op(
    m: Map<Seq<u8>, Seq<u8>>,
    m2: Map<Seq<u8>, Seq<u8>>,
    idb: Seq<u8>,
    k1: Seq<u8>,
    v1: Seq<u8>,
    k2: Seq<u8>,
    v2: Seq<u8>,
)
    requires
        spec_store_inv(m),
        spec_fits_u32(idb),
        spec_ns_wf(m2, idb),
        m2 == m.insert(k1, v1).insert(k2, v2),
        k1 == spec_len_key(idb) || exists|i: int|
            0 <= i < 0x1_0000_0000 && k1 == spec_rec_key(idb, i),
        k2 == spec_len_key(idb) || exists|i: int|
            0 <= i < 0x1_0000_0000 && k2 == spec_rec_key(idb, i),
    ensures
        spec_store_inv(m2),
        forall|id2: Seq<u8>|
            spec_fits_u32(id2) && id2 != idb ==> #[trigger] spec_collection(m2, id2)
                == spec_collection(m, id2),
        forall|id2: Seq<u8>|
            spec_fits_u32(id2) && id2 != idb ==> #[trigger] spec_exists_coll(m2, id2)
                == spec_exists_coll(m, id2),
        forall|id2: Seq<u8>| spec_fits_u32(id2) ==> #[trigger] spec_cred(m2, id2) == spec_cred(m, id2),
        spec_config(m2) == spec_config(m),
{
    let mm = m.insert(k1, v1);
    assert forall|id2: Seq<u8>|
        spec_fits_u32(id2) && id2 != idb implies #[trigger] spec_ns_wf(m2, id2)
        && spec_collection(m2, id2) == spec_collection(m, id2) && spec_exists_coll(m2, id2)
        == spec_exists_coll(m, id2) by {
        lemma_keys_distinct(idb, id2);
        lemma_keys_distinct(id2, idb);
        if k1 != spec_len_key(idb) {
            let i1 = choose|i: int| 0 <= i < 0x1_0000_0000 && k1 == spec_rec_key(idb, i);
            assert(0 <= i1 < 0x1_0000_0000 && k1 == spec_rec_key(idb, i1));
        }
        if k2 != spec_len_key(idb) {
            let i2 = choose|i: int| 0 <= i < 0x1_0000_0000 && k2 == spec_rec_key(idb, i);
            assert(0 <= i2 < 0x1_0000_0000 && k2 == spec_rec_key(idb, i2));
        }
        lemma_coll_insert_other(m, id2, k1, v1);
        lemma_coll_insert_other(mm, id2, k2, v2);
    }
    assert forall|id2: Seq<u8>|
        spec_fits_u32(id2) && id2 != idb implies #[trigger] spec_collection(m2, id2)
        == spec_collection(m, id2) by {
        assert(spec_ns_wf(m2, id2) && spec_collection(m2, id2) == spec_collection(m, id2));
    }
    assert forall|id2: Seq<u8>|
        spec_fits_u32(id2) && id2 != idb implies #[trigger] spec_exists_coll(m2, id2)
        == spec_exists_coll(m, id2) by {
        assert(spec_ns_wf(m2, id2) && spec_exists_coll(m2, id2) == spec_exists_coll(m, id2));
    }
    assert forall|id2: Seq<u8>| spec_fits_u32(id2) implies #[trigger] spec_cred(m2, id2)
        == spec_cred(m, id2) by {
        lemma_keys_distinct(idb, id2);
        lemma_keys_distinct(id2, idb);
        if k1 != spec_len_key(idb) {
            let i1 = choose|i: int| 0 <= i < 0x1_0000_0000 && k1 == spec_rec_key(idb, i);
            assert(0 <= i1 < 0x1_0000_0000 && k1 == spec_rec_key(idb, i1));
        }
        if k2 != spec_len_key(idb) {
            let i2 = choose|i: int| 0 <= i < 0x1_0000_0000 && k2 == spec_rec_key(idb, i);
            assert(0 <= i2 < 0x1_0000_0000 && k2 == spec_rec_key(idb, i2));
        }
    }
    assert forall|id2: Seq<u8>|
        spec_fits_u32(id2) && m2.dom().contains(#[trigger] spec_vk_key(id2)) implies m2[spec_vk_key(
        id2,
    )].len() == 32 by {
        assert(spec_cred(m2, id2) == spec_cred(m, id2));
    }
    lemma_keys_distinct(idb, idb);
    assert(spec_config(m2) == spec_config(m)) by {
        if k1 != spec_len_key(idb) {
            let i1 = choose|i: int| 0 <= i < 0x1_0000_0000 && k1 == spec_rec_key(idb, i);
            assert(0 <= i1 < 0x1_0000_0000 && k1 == spec_rec_key(idb, i1));
        }
        if k2 != spec_len_key(idb) {
            let i2 = choose|i: int| 0 <= i < 0x1_0000_0000 && k2 == spec_rec_key(idb, i);
            assert(0 <= i2 < 0x1_0000_0000 && k2 == spec_rec_key(idb, i2));
        }
    }
}

/// Persist the configuration under its fixed key, overwriting any prior
/// value.
pub fn save(store: &mut Store, value: &State)
    requires
        spec_state_wf(value@),
    ensures
        final(store)@ == old(store)@.insert(spec_config_key(), spec_encode_state(value@)),
        spec_config(final(store)@) == Some(value@),
{
    let k = config_key();
    let v = encode_state(value);
    store.set(k, v);
    proof {
        lemma_state_roundtrip(value@);
    }
}

/// Load the configuration; `NotFound` when none was saved (a mis-deployed
/// instance) or the stored bytes do not decode.
pub fn load(store: &Store) -> (r: Result<State, Error>)
    ensures
        r is Ok <==> spec_config(store@) is Some,
        r matches Ok(s) ==> Some(s@) == spec_config(store@) && spec_state_wf(s@),
        r matches Err(e) ==> e == Error::NotFound,
{
    let k = config_key();
    match store.get(&k) {
        None => Err(Error::NotFound),
        Some(v) => match decode_state(v) {
            Some(s) => Ok(s),
            None => Err(Error::NotFound),
        },
    }
}

/// Store the hashed form of `key` as `owner`'s credential, overwriting
/// any prior credential.  The plaintext never reaches the store.
pub fn write_viewing_key(store: &mut Store, owner: &String, key: &ViewingKey)
    requires
        spec_id_ok(owner@),
    ensures
        final(store)@ == old(store)@.insert(
            spec_vk_key(encode_utf8(owner@)),
            spec_hashed_key(key.0@),
        ),
        spec_cred(final(store)@, encode_utf8(owner@)) == Some(spec_hashed_key(key.0@)),
        spec_hashed_key(key.0@).len() == 32,
{
    let idb = owner.as_str().as_bytes_vec();
    let k = vk_key(&idb);
    let h = key.to_hashed();
    store.set(k, h);
}

/// Read `owner`'s stored credential hash, if one was ever written.
pub fn read_viewing_key(store: &Store, owner: &String) -> (r: Option<Vec<u8>>)
    requires
        spec_id_ok(owner@),
    ensures
        match r {
            Some(v) => spec_cred(store@, encode_utf8(owner@)) == Some(v@),
            None => spec_cred(store@, encode_utf8(owner@)) is None,
        },
{
    let idb = owner.as_str().as_bytes_vec();
    let k = vk_key(&idb);
    match store.get(&k) {
        Some(v) => Some(v.clone()),
        None => None,
    }
}

/// Append `message` to `for_address`'s collection; the namespace must
/// already hold one, else `NotACollection`.
pub fn append_message(store: &mut Store, message: &Message, for_address: &String) -> (r: Result<
    (),
    Error,
>)
    requires
        spec_id_ok(for_address@),
        spec_ns_wf(old(store)@, encode_utf8(for_address@)),
        spec_message_wf(message@),
    ensures
        r is Ok <==> (spec_has_coll(old(store)@, encode_utf8(for_address@)) && spec_coll_len(
            old(store)@,
            encode_utf8(for_address@),
        ) < 0xFFFF_FFFF),
        r is Ok ==> {
            let idb = encode_utf8(for_address@);
            let n = spec_coll_len(old(store)@, idb);
            &&& final(store)@ == old(store)@.insert(
                spec_rec_key(idb, n as int),
                spec_encode_message(message@),
            ).insert(spec_len_key(idb), spec_be32((n + 1) as u32))
            &&& spec_ns_wf(final(store)@, idb)
            &&& spec_collection(final(store)@, idb) == Some(
                spec_collection(old(store)@, idb)->0.push(message@),
            )
        },
        r matches Err(e) ==> final(store)@ == old(store)@ && e == (if !spec_has_coll(
            old(store)@,
            encode_utf8(for_address@),
        ) {
            Error::NotACollection
        } else {
            Error::OutOfRange
        }),
{
    let idb = for_address.as_str().as_bytes_vec();
    match append_record(store, &idb, message) {
        Ok(_) => Ok(()),
        Err(e) => Err(e),
    }
}

/// Make sure `for_address` has a collection, creating an empty one if the
/// namespace was never written.
pub fn create_empty_collection(store: &mut Store, for_address: &String)
    requires
        spec_id_ok(for_address@),
        spec_ns_wf(old(store)@, encode_utf8(for_address@)),
    ensures
        spec_has_coll(old(store)@, encode_utf8(for_address@)) ==> final(store)@ == old(store)@,
        !spec_has_coll(old(store)@, encode_utf8(for_address@)) ==> final(store)@ == old(
            store,
        )@.insert(spec_len_key(encode_utf8(for_address@)), spec_be32(0)),
        spec_ns_wf(final(store)@, encode_utf8(for_address@)),
        spec_has_coll(final(store)@, encode_utf8(for_address@)),
        spec_collection(final(store)@, encode_utf8(for_address@)) == if spec_has_coll(
            old(store)@,
            encode_utf8(for_address@),
        ) {
            spec_collection(old(store)@, encode_utf8(for_address@))
        } else {
            Some(Seq::<MessageView>::empty())
        },
{
    let idb = for_address.as_str().as_bytes_vec();
    create_collection(store, &idb);
}

impl Message {
    /// Deposit this record into `to`'s existing collection.
    pub fn store_message(&self, store: &mut Store, to: &String) -> (r: Result<(), Error>)
        requires
            spec_id_ok(to@),
            spec_ns_wf(old(store)@, encode_utf8(to@)),
            spec_message_wf(self@),
        ensures
            r is Ok <==> (spec_has_coll(old(store)@, encode_utf8(to@)) && spec_coll_len(
                old(store)@,
                encode_utf8(to@),
            ) < 0xFFFF_FFFF),
            r is Ok ==> spec_collection(final(store)@, encode_utf8(to@)) == Some(
                spec_collection(old(store)@, encode_utf8(to@))->0.push(self@),
            ) && spec_ns_wf(final(store)@, encode_utf8(to@)) && final(store)@ == old(
                store,
            )@.insert(
                spec_rec_key(
                    encode_utf8(to@),
                    spec_coll_len(old(store)@, encode_utf8(to@)) as int,
                ),
                spec_encode_message(self@),
            ).insert(
                spec_len_key(encode_utf8(to@)),
                spec_be32((spec_coll_len(old(store)@, encode_utf8(to@)) + 1) as u32),
            ),
            r matches Err(e) ==> final(store)@ == old(store)@ && e == (if !spec_has_coll(
                old(store)@,
                encode_utf8(to@),
            ) {
                Error::NotACollection
            } else {
                Error::OutOfRange
            }),
    {
        append_message(store, self, to)
    }

    /// How many records `for_address`'s collection holds (the sentinel
    /// included), `0` when the namespace was never written.
    pub fn len(store: &Store, for_address: &String) -> (r: u32)
        requires
            spec_id_ok(for_address@),
            spec_ns_wf(store@, encode_utf8(for_address@)),
        ensures
            r as nat == if spec_has_coll(store@, encode_utf8(for_address@)) {
                spec_coll_len(store@, encode_utf8(for_address@))
            } else {
                0
            },
    {
        let idb = for_address.as_str().as_bytes_vec();
        collection_length(store, &idb)
    }
}

} // verus!

//! Scenario tests for the system's laws: existence lifecycle,
//! auto-provisioning, ordering, authentication, purging and the error
//! surface.

use jackal_notifications::backend::{collection_exist, create_with_sentinel, get_collection_owner, get_message, get_messages_paged};
use jackal_notifications::contract::{handle, init, query};
use jackal_notifications::error::Error;
use jackal_notifications::msg::{HandleAnswer, HandleMsg, InitMsg, QueryMsg};
use jackal_notifications::state::{create_empty_collection, Env, Message};
use jackal_notifications::store::Store;
use jackal_notifications::viewing_key::ViewingKey;

fn mock_env(sender: &str) -> Env {
    Env {
        block_height: 12_345,
        block_time: 1_571_797_419,
        sender: sender.to_string(),
        contract: "cosmos2contract".to_string(),
    }
}

fn deploy(store: &mut Store) {
    let msg = InitMsg { prng_seed: String::from("lets init bro") };
    let env = mock_env("creator");
    init(store, &env, msg).unwrap();
}

fn issue_key(store: &mut Store, address: &str, entropy: &str) -> ViewingKey {
    let env = mock_env(address);
    let msg = HandleMsg::CreateViewingKey { entropy: entropy.to_string(), padding: None };
    match handle(store, &env, msg).unwrap() {
        HandleAnswer::CreateViewingKey { key } => key,
        _ => panic!("Unexpected result from handle"),
    }
}

fn init_address(store: &mut Store, address: &str) -> ViewingKey {
    let env = mock_env(address);
    let msg = HandleMsg::InitAddress { entropy: String::from("e1") };
    match handle(store, &env, msg).unwrap() {
        HandleAnswer::CreateViewingKey { key } => key,
        _ => panic!("Unexpected result from handle"),
    }
}

fn deposit(store: &mut Store, from: &str, to: &str, contents: &str) {
    let env = mock_env(from);
    let msg = HandleMsg::SendMessage { to: to.to_string(), contents: contents.to_string() };
    handle(store, &env, msg).unwrap();
}

/// A collection does not exist until initialization or a first deposit,
/// and exists forever after.
#[test]
fn existence_lifecycle() {
    let mut store = Store::new();
    deploy(&mut store);

    assert!(!collection_exist(&store, &"ida".to_string()));
    assert!(!collection_exist(&store, &"idb".to_string()));

    // Initialization creates ida's collection.
    init_address(&mut store, "ida");
    assert!(collection_exist(&store, &"ida".to_string()));

    // A first deposit creates idb's collection.
    deposit(&mut store, "someone", "idb", "a/b.txt");
    assert!(collection_exist(&store, &"idb".to_string()));

    // No later operation makes either stop existing.
    deposit(&mut store, "someone", "ida", "c/d.txt");
    let env = mock_env("ida");
    handle(&mut store, &env, HandleMsg::DeleteAllMessages {}).unwrap();
    issue_key(&mut store, "ida", "fresh");
    assert!(collection_exist(&store, &"ida".to_string()));
    assert!(collection_exist(&store, &"idb".to_string()));
}

/// Depositing into a never-initialized recipient auto-creates a
/// collection owned by the recipient, holding exactly that record.
#[test]
fn deposit_auto_provisions() {
    let mut store = Store::new();
    deploy(&mut store);

    deposit(&mut store, "carol", "dave", "shared/photo.png");

    let owner = get_collection_owner(&store, &"dave".to_string()).unwrap();
    assert_eq!(owner, "dave");

    let key = issue_key(&mut store, "dave", "supbro");
    let res = query(
        &store,
        QueryMsg::GetMessages { behalf: "dave".to_string(), key: key.to_string() },
    )
    .unwrap();
    assert_eq!(res.messages.len(), 1);
    assert_eq!(res.messages[0].get_contents(), "shared/photo.png");
    assert_eq!(res.messages[0].get_owner(), "carol");
}

/// Listing returns every deposit in insertion order; N deposits list as
/// exactly N records, the sentinel never counted.
#[test]
fn three_records_in_order() {
    let mut store = Store::new();
    deploy(&mut store);
    let key = init_address(&mut store, "reader");

    deposit(&mut store, "s1", "reader", "first");
    deposit(&mut store, "s2", "reader", "second");
    deposit(&mut store, "s3", "reader", "third");

    let res = query(
        &store,
        QueryMsg::GetMessages { behalf: "reader".to_string(), key: key.to_string() },
    )
    .unwrap();
    assert_eq!(res.messages.len(), 3);
    assert_eq!(res.messages[0].get_contents(), "first");
    assert_eq!(res.messages[0].get_owner(), "s1");
    assert_eq!(res.messages[1].get_contents(), "second");
    assert_eq!(res.messages[2].get_contents(), "third");
    assert_eq!(Message::len(&store, &"reader".to_string()), 4);
}

/// Verification returns false both for an identity that never stored a
/// credential and for a wrong credential, through the same comparison
/// path: an all-zero buffer stands in when no hash is stored.
#[test]
fn verify_absent_and_wrong() {
    let mut store = Store::new();
    deploy(&mut store);

    // Identity with no credential ever stored: rejected.
    let res = query(
        &store,
        QueryMsg::GetMessages { behalf: "ghost".to_string(), key: "whatever".to_string() },
    );
    assert_eq!(res.unwrap_err(), Error::Unauthorized);

    // Identity with a credential, wrong key supplied: same rejection.
    let _right = init_address(&mut store, "holder");
    let res = query(
        &store,
        QueryMsg::GetMessages { behalf: "holder".to_string(), key: "wrong".to_string() },
    );
    assert_eq!(res.unwrap_err(), Error::Unauthorized);

    // The zero-buffer comparison itself never accepts.
    let vk = ViewingKey("anything".to_string());
    assert!(!vk.check_viewing_key(&vec![0u8; 32]));
}

/// Round trip: the key initialization returns authenticates listing,
/// and a wrong key is rejected.
#[test]
fn credential_round_trip() {
    let mut store = Store::new();
    deploy(&mut store);
    let key = init_address(&mut store, "ida");

    let ok = query(
        &store,
        QueryMsg::GetMessages { behalf: "ida".to_string(), key: key.to_string() },
    );
    assert!(ok.is_ok());

    let bad = query(
        &store,
        QueryMsg::GetMessages { behalf: "ida".to_string(), key: "wrong".to_string() },
    );
    assert_eq!(bad.unwrap_err(), Error::Unauthorized);
}

/// Purging after three deposits leaves the sentinel-only state: listing
/// is empty, but the collection still exists and keeps its owner.
#[test]
fn purge_keeps_collection() {
    let mut store = Store::new();
    deploy(&mut store);
    let key = init_address(&mut store, "ida");

    deposit(&mut store, "s", "ida", "one");
    deposit(&mut store, "s", "ida", "two");
    deposit(&mut store, "s", "ida", "three");
    assert_eq!(Message::len(&store, &"ida".to_string()), 4);

    let env = mock_env("ida");
    handle(&mut store, &env, HandleMsg::DeleteAllMessages {}).unwrap();

    let res = query(
        &store,
        QueryMsg::GetMessages { behalf: "ida".to_string(), key: key.to_string() },
    )
    .unwrap();
    assert_eq!(res.messages.len(), 0);
    assert_eq!(Message::len(&store, &"ida".to_string()), 1);
    assert!(collection_exist(&store, &"ida".to_string()));
    assert_eq!(get_collection_owner(&store, &"ida".to_string()).unwrap(), "ida");
}

/// Stale record bytes past the truncated length stay unreachable: reads
/// there fail even though the cells were never erased.
#[test]
fn reads_past_length_fail_after_purge() {
    let mut store = Store::new();
    deploy(&mut store);
    let _key = init_address(&mut store, "ida");
    deposit(&mut store, "s", "ida", "one");
    deposit(&mut store, "s", "ida", "two");

    let env = mock_env("ida");
    handle(&mut store, &env, HandleMsg::DeleteAllMessages {}).unwrap();

    // Position 0 (the sentinel) still reads; positions 1 and 2 are gone.
    assert!(get_message(&store, &"ida".to_string(), 0).is_ok());
    assert_eq!(get_message(&store, &"ida".to_string(), 1).unwrap_err(), Error::OutOfRange);
    assert_eq!(get_message(&store, &"ida".to_string(), 2).unwrap_err(), Error::OutOfRange);

    // A namespace that was never written fails as missing, not as a read
    // past the end.
    assert_eq!(
        get_message(&store, &"nobody".to_string(), 0).unwrap_err(),
        Error::NotACollection
    );
}

/// A second initialization fails and changes nothing; the first
/// credential keeps working.
#[test]
fn double_init_rejected() {
    let mut store = Store::new();
    deploy(&mut store);
    let first = init_address(&mut store, "ida");

    let env = mock_env("ida");
    let again = handle(
        &mut store,
        &env,
        HandleMsg::InitAddress { entropy: String::from("e2") },
    );
    assert_eq!(again.unwrap_err(), Error::AlreadyInitialized);

    let res = query(
        &store,
        QueryMsg::GetMessages { behalf: "ida".to_string(), key: first.to_string() },
    );
    assert!(res.is_ok());
}

/// The deposit-first scenario: a deposit reaches a never-initialized
/// "alice", so her later initialization fails `AlreadyInitialized`, but
/// rotating a credential still works and yields a usable key.
#[test]
fn deposit_then_init_then_rotate() {
    let mut store = Store::new();
    deploy(&mut store);

    deposit(&mut store, "bob", "alice", "notes/report.pdf");

    let env = mock_env("alice");
    let res = handle(
        &mut store,
        &env,
        HandleMsg::InitAddress { entropy: String::from("e1") },
    );
    assert_eq!(res.unwrap_err(), Error::AlreadyInitialized);

    let key = issue_key(&mut store, "alice", "e1");
    let res = query(
        &store,
        QueryMsg::GetMessages { behalf: "alice".to_string(), key: key.to_string() },
    )
    .unwrap();
    assert_eq!(res.messages.len(), 1);
    assert_eq!(res.messages[0].get_contents(), "notes/report.pdf");
    assert_eq!(res.messages[0].get_owner(), "bob");
}

/// Rotating the credential invalidates the old key and the new one
/// works; rotation is allowed whether or not a collection exists.
#[test]
fn rotate_credential() {
    let mut store = Store::new();
    deploy(&mut store);
    let old_key = init_address(&mut store, "ida");
    let new_key = issue_key(&mut store, "ida", "round-two");

    let res = query(
        &store,
        QueryMsg::GetMessages { behalf: "ida".to_string(), key: new_key.to_string() },
    );
    assert!(res.is_ok());

    let res = query(
        &store,
        QueryMsg::GetMessages { behalf: "ida".to_string(), key: old_key.to_string() },
    );
    assert_eq!(res.unwrap_err(), Error::Unauthorized);
}

/// Operating before deployment fails `NotFound`; key material and hashes
/// have the sizes the derivation promises.
#[test]
fn error_surface_and_key_shape() {
    let mut store = Store::new();

    // No configuration saved yet: initialization cannot issue a key.
    let env = mock_env("ida");
    let res = handle(
        &mut store,
        &env,
        HandleMsg::InitAddress { entropy: String::from("e1") },
    );
    assert_eq!(res.unwrap_err(), Error::NotFound);

    deploy(&mut store);
    let key = init_address(&mut store, "ida");

    // base64 of a 32-byte hash is 44 characters; the stored form is a
    // 32-byte hash of those characters.
    assert_eq!(key.to_string().len(), 44);
    assert_eq!(key.to_hashed().len(), 32);
    assert_ne!(key.to_hashed().as_slice(), key.to_string().as_bytes());

    // Deleting with no collection at all reports the missing structure;
    // deleting an existing but still-empty namespace cannot pop the
    // sentinel it does not have.
    let env = mock_env("nobody");
    let res = handle(&mut store, &env, HandleMsg::DeleteAllMessages {});
    assert_eq!(res.unwrap_err(), Error::NotACollection);

    create_empty_collection(&mut store, &"hollow".to_string());
    let env = mock_env("hollow");
    let res = handle(&mut store, &env, HandleMsg::DeleteAllMessages {});
    assert_eq!(res.unwrap_err(), Error::OutOfRange);
}

/// Deposits with empty contents and listings for identities that equal
/// their own sender still behave: equality of identities is exact.
#[test]
fn edge_values() {
    let mut store = Store::new();
    deploy(&mut store);
    let key = init_address(&mut store, "self");

    // An empty reference is a legal record.
    deposit(&mut store, "self", "self", "");
    let res = query(
        &store,
        QueryMsg::GetMessages { behalf: "self".to_string(), key: key.to_string() },
    )
    .unwrap();
    assert_eq!(res.messages.len(), 1);
    assert_eq!(res.messages[0].get_contents(), "");
    assert_eq!(res.messages[0].get_owner(), "self");

    // Identities differing only by case are distinct.
    assert!(!collection_exist(&store, &"Self".to_string()));
}

/// Paged reads honour order, reversal, skip and take, and re-running a
/// page re-reads the store with the same result.
#[test]
fn paged_listing() {
    let mut store = Store::new();
    deploy(&mut store);
    let _key = init_address(&mut store, "reader");
    for c in ["a", "b", "c", "d", "e"] {
        deposit(&mut store, "s", "reader", c);
    }

    let page = get_messages_paged(&store, &"reader".to_string(), false, 1, 2).unwrap();
    assert_eq!(page.len(), 2);
    assert_eq!(page[0].get_contents(), "b");
    assert_eq!(page[1].get_contents(), "c");

    let newest = get_messages_paged(&store, &"reader".to_string(), true, 0, 2).unwrap();
    assert_eq!(newest.len(), 2);
    assert_eq!(newest[0].get_contents(), "e");
    assert_eq!(newest[1].get_contents(), "d");

    // Restartable: the same page again, from scratch.
    let again = get_messages_paged(&store, &"reader".to_string(), true, 0, 2).unwrap();
    assert_eq!(again.len(), 2);
    assert_eq!(again[0].get_contents(), "e");

    let past_end = get_messages_paged(&store, &"reader".to_string(), false, 9, 3).unwrap();
    assert_eq!(past_end.len(), 0);

    let tail = get_messages_paged(&store, &"reader".to_string(), false, 3, 99).unwrap();
    assert_eq!(tail.len(), 2);
    assert_eq!(tail[0].get_contents(), "d");
    assert_eq!(tail[1].get_contents(), "e");
}

/// The registry primitive itself: creating with a sentinel claims the
/// namespace exactly once, and the sentinel records the owner.
#[test]
fn sentinel_creation_is_once_only() {
    let mut store = Store::new();
    deploy(&mut store);

    assert!(create_with_sentinel(&mut store, &"erin".to_string()).is_ok());
    assert!(collection_exist(&store, &"erin".to_string()));
    assert_eq!(get_collection_owner(&store, &"erin".to_string()).unwrap(), "erin");
    assert_eq!(Message::len(&store, &"erin".to_string()), 1);

    let again = create_with_sentinel(&mut store, &"erin".to_string());
    assert_eq!(again.unwrap_err(), Error::AlreadyInitialized);
    assert_eq!(Message::len(&store, &"erin".to_string()), 1);
}

/// A query names the identity it speaks for and carries its credential.
#[test]
fn validation_params() {
    let msg = QueryMsg::GetMessages { behalf: "ida".to_string(), key: "k1".to_string() };
    let (addresses, key) = msg.get_validation_params();
    assert_eq!(addresses.len(), 1);
    assert_eq!(addresses[0], "ida");
    assert_eq!(key.to_string(), "k1");
}

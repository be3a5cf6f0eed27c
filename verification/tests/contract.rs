//! The contract-level flows: deployment, key issuance, deposits,
//! authenticated listing, purging and owner recovery.

use jackal_notifications::backend::get_collection_owner;
use jackal_notifications::contract::{handle, init, query};
use jackal_notifications::msg::{HandleAnswer, HandleMsg, InitMsg, QueryMsg};
use jackal_notifications::state::{Env, Message};
use jackal_notifications::store::Store;
use jackal_notifications::viewing_key::ViewingKey;

fn mock_env(sender: &str) -> Env {
    Env {
        block_height: 12_345,
        block_time: 1_571_797_419,
        sender: sender.to_string(),
        contract: "cosmos2contract".to_string(),
    }
}

fn init_for_test(store: &mut Store, address: &str) -> ViewingKey {
    // Deploy the instance.
    let msg = InitMsg { prng_seed: String::from("lets init bro") };
    let env = mock_env("creator");
    let _res = init(store, &env, msg).unwrap();

    // Initialize the address and create its viewing key.
    let env = mock_env(address);
    let msg = HandleMsg::InitAddress { entropy: String::from("Entropygoeshereboi") };
    let handle_response = handle(store, &env, msg).unwrap();

    match handle_response {
        HandleAnswer::CreateViewingKey { key } => key,
        _ => panic!("Unexpected result from handle"),
    }
}

#[test]
fn test_create_viewing_key() {
    let mut store = Store::new();

    // init
    let msg = InitMsg { prng_seed: String::from("lets init bro") };
    let env = mock_env("anyone");
    let _res = init(&mut store, &env, msg).unwrap();

    // create viewingkey
    let env = mock_env("anyone");
    let create_vk_msg = HandleMsg::CreateViewingKey {
        entropy: "supbro".to_string(),
        padding: None,
    };
    let handle_response = handle(&mut store, &env, create_vk_msg).unwrap();

    let _vk = match handle_response {
        HandleAnswer::CreateViewingKey { key } => key,
        _ => panic!("Unexpected result from handle"),
    };
}

#[test]
fn send_messages_and_query() {
    let mut store = Store::new();
    let vk_anyone = init_for_test(&mut store, "anyone");

    // Initializing 'anyone' again would fail: the collection exists.
    let vk_nuggie = {
        let env = mock_env("nuggie");
        let msg = HandleMsg::InitAddress { entropy: String::from("Entropygoeshereboi") };
        match handle(&mut store, &env, msg).unwrap() {
            HandleAnswer::CreateViewingKey { key } => key,
            _ => panic!("Unexpected result from handle"),
        }
    };

    // sending a message to anyone's address
    let env = mock_env("sender");
    let msg = HandleMsg::SendMessage {
        to: "anyone".to_string(),
        contents: "Hello: sender has shared Pepe.jpg with you".to_string(),
    };
    let res = handle(&mut store, &env, msg);
    assert!(res.is_ok());

    // sending another message to anyone's address
    let env = mock_env("sender");
    let msg = HandleMsg::SendMessage {
        to: "anyone".to_string(),
        contents: "Hello: sender has shared Hasbullah.jpg with you".to_string(),
    };
    let res = handle(&mut store, &env, msg);
    assert!(res.is_ok());

    // Query anyone's messages: both deposits, in order, sentinel excluded.
    let query_res = query(
        &store,
        QueryMsg::GetMessages { behalf: "anyone".to_string(), key: vk_anyone.to_string() },
    )
    .unwrap();
    assert_eq!(query_res.messages.len(), 2);
    assert_eq!(
        query_res.messages[0].get_contents(),
        "Hello: sender has shared Pepe.jpg with you"
    );
    assert_eq!(
        query_res.messages[1].get_contents(),
        "Hello: sender has shared Hasbullah.jpg with you"
    );

    // Sentinel plus two deposits.
    let length = Message::len(&store, &"anyone".to_string());
    assert_eq!(length, 3);

    // Query with a different viewing key will fail.
    let query_res = query(
        &store,
        QueryMsg::GetMessages { behalf: "anyone".to_string(), key: vk_nuggie.to_string() },
    );
    assert!(query_res.is_err());

    // sending a message to nuggie's address
    let env = mock_env("sender");
    let msg = HandleMsg::SendMessage {
        to: "nuggie".to_string(),
        contents: "Sender/pepe.jpg".to_string(),
    };
    let res = handle(&mut store, &env, msg);
    assert!(res.is_ok());

    // Query nuggie's messages.
    let query_res = query(
        &store,
        QueryMsg::GetMessages { behalf: "nuggie".to_string(), key: vk_nuggie.to_string() },
    )
    .unwrap();
    assert_eq!(query_res.messages.len(), 1);
    assert_eq!(query_res.messages[0].get_contents(), "Sender/pepe.jpg");
    assert_eq!(query_res.messages[0].get_owner(), "sender");

    let length = Message::len(&store, &"nuggie".to_string());
    assert_eq!(length, 2);

    // Using anyone's viewing key to query nuggie's messages will fail.
    let query_res = query(
        &store,
        QueryMsg::GetMessages { behalf: "nuggie".to_string(), key: vk_anyone.to_string() },
    );
    assert!(query_res.is_err());
}

#[test]
fn send_to_uninitiated_address() {
    let mut store = Store::new();

    // Init contract
    let msg = InitMsg { prng_seed: String::from("lets init bro") };
    let env = mock_env("creator");
    let _res = init(&mut store, &env, msg).unwrap();

    // sending a message to anyone's address - anyone has NOT initiated a
    // collection for their address
    let env = mock_env("sender");
    let msg = HandleMsg::SendMessage {
        to: "anyone".to_string(),
        contents: "Hello: sender has shared Pepe.jpg with you".to_string(),
    };
    let res = handle(&mut store, &env, msg);
    assert!(res.is_ok());

    // The deposit auto-created anyone's collection, sentinel first.

    // sending another message to anyone's address
    let env = mock_env("sender");
    let msg = HandleMsg::SendMessage {
        to: "anyone".to_string(),
        contents: "Hello: sender has shared Hasbullah.jpg with you".to_string(),
    };
    let res = handle(&mut store, &env, msg);
    assert!(res.is_ok());

    // anyone has a collection already, so only a viewing key is needed.
    let env = mock_env("anyone");
    let create_vk_msg = HandleMsg::CreateViewingKey {
        entropy: "supbro".to_string(),
        padding: None,
    };
    let handle_response = handle(&mut store, &env, create_vk_msg).unwrap();

    let vk_anyone = match handle_response {
        HandleAnswer::CreateViewingKey { key } => key,
        _ => panic!("Unexpected result from handle"),
    };

    // Query anyone's messages.
    let query_res = query(
        &store,
        QueryMsg::GetMessages { behalf: "anyone".to_string(), key: vk_anyone.to_string() },
    )
    .unwrap();
    assert_eq!(query_res.messages.len(), 2);
    assert_eq!(
        query_res.messages[0].get_contents(),
        "Hello: sender has shared Pepe.jpg with you"
    );

    let length = Message::len(&store, &"anyone".to_string());
    assert_eq!(length, 3);
}

#[test]
fn delete_all_messages() {
    let mut store = Store::new();
    let vk = init_for_test(&mut store, "anyone");

    // sending a file to anyone's address
    let env = mock_env("sender");
    let msg = HandleMsg::SendMessage {
        to: "anyone".to_string(),
        contents: "Sender/pepe.jpg".to_string(),
    };
    let res = handle(&mut store, &env, msg);
    assert!(res.is_ok());

    // Query messages
    let query_res = query(
        &store,
        QueryMsg::GetMessages { behalf: "anyone".to_string(), key: vk.to_string() },
    )
    .unwrap();
    assert_eq!(query_res.messages.len(), 1);

    let length = Message::len(&store, &"anyone".to_string());
    assert_eq!(length, 2);

    // delete all messages
    let env = mock_env("anyone");
    let msg = HandleMsg::DeleteAllMessages {};
    let res = handle(&mut store, &env, msg);
    assert!(res.is_ok());

    // Queries now only find the empty payload behind the sentinel.
    let query_res = query(
        &store,
        QueryMsg::GetMessages { behalf: "anyone".to_string(), key: vk.to_string() },
    )
    .unwrap();
    assert_eq!(query_res.messages.len(), 0);

    let length = Message::len(&store, &"anyone".to_string());
    assert_eq!(length, 1);
}

#[test]
fn get_owner() {
    let mut store = Store::new();
    let _vk = init_for_test(&mut store, "anyone");

    // sending a file to anyone's address
    let env = mock_env("sender");
    let msg = HandleMsg::SendMessage {
        to: "anyone".to_string(),
        contents: "Sender/pepe.jpg".to_string(),
    };
    let res = handle(&mut store, &env, msg);
    assert!(res.is_ok());

    let env = mock_env("anyone");
    let owner = get_collection_owner(&store, &env.sender).unwrap();
    assert_eq!(owner, "anyone");
}

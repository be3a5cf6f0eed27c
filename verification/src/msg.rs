//! The inbound operation surface and its answers.

use vstd::prelude::*;

use crate::state::Message;
use crate::viewing_key::ViewingKey;

verus! {

/// Deployment input: the entropy the secret seed is derived from.
#[derive(Clone, Debug)]
pub struct InitMsg {
    pub prng_seed: String,
}

/// A state-changing request.
#[derive(Clone, Debug)]
pub enum HandleMsg {
    /// Initialize the caller's collection and issue a first viewing key.
    InitAddress { entropy: String },
    /// Issue (or rotate to) a fresh viewing key for the caller.
    CreateViewingKey { entropy: String, padding: Option<String> },
    /// Deposit a record into `to`'s collection.
    SendMessage { to: String, contents: String },
    /// Drop every record of the caller's collection except the sentinel.
    DeleteAllMessages {},
}

/// A read request.
#[derive(Clone, Debug)]
pub enum QueryMsg {
    /// List the records deposited for `behalf`, authenticated by `key`.
    GetMessages { behalf: String, key: String },
}

impl QueryMsg {
    /// The identities this query speaks for and the credential it
    /// carries.
    pub fn get_validation_params(&self) -> (r: (Vec<&String>, ViewingKey))
        ensures
            self matches QueryMsg::GetMessages { behalf, key } ==> r.0@.len() == 1 && r.0@[0]@
                == behalf@ && r.1.0@ == key@,
    {
        match self {
            QueryMsg::GetMessages { behalf, key } => {
                let mut addrs: Vec<&String> = Vec::new();
                addrs.push(behalf);
                (addrs, ViewingKey(key.clone()))
            },
        }
    }
}

/// What a state-changing request returns.
#[derive(Clone, Debug)]
pub enum HandleAnswer {
    DefaultAnswer { status: ResponseStatus },
    CreateViewingKey { key: ViewingKey },
}

/// What a read request returns: the records, sentinel excluded.
#[derive(Clone, Debug)]
pub struct MessageResponse {
    pub messages: Vec<Message>,
}

/// Outcome marker carried by default answers.
#[derive(Clone, Copy, Debug, PartialEq, Eq, Structural)]
pub enum ResponseStatus {
    Success,
    Failure,
}

} // verus!

//! A per-recipient, append-only notification ledger.
//!
//! Any sender can deposit a small record (a content reference plus the
//! sender's identity) into a recipient's personal collection; the recipient
//! alone can enumerate what was deposited for them, authenticated by a
//! private viewing key rather than by transaction origin.
//!
//! The core is built bottom-up: a flat byte key-value store ([`store`]),
//! an unambiguous key layout over it ([`layout`]), length-prefixed binary
//! codecs ([`encoding`], [`state`]), per-identity append-only collections
//! with their ownership sentinel ([`collection`]), hashed viewing keys
//! with constant-time verification ([`crypto`], [`viewing_key`]), the
//! operations tying them together ([`backend`], [`contract`]), and the
//! laws that hold across operations ([`laws`]).

pub mod store;

pub mod encoding;

pub mod layout;

pub mod crypto;

pub mod error;

pub mod state;

pub mod collection;

pub mod viewing_key;

pub mod msg;

pub mod backend;

pub mod contract;

pub mod laws;

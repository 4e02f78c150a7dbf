//! An in-memory pub/sub and keyed value store with per-entry expiry.
//!
//! The crate holds the verified core of a small message server: the JSON
//! wire codec for its commands and replies, the expiring key-value table,
//! the subscription registry, the broadcast delivery rules, and the
//! per-connection command engine. Transport, tasks and timers live outside.

pub mod assoc;
pub mod bus;
pub mod clock;
pub mod codec;
pub mod command;
pub mod db;
pub mod json;
pub mod jsontext;
pub mod message;
pub mod numbers;
pub mod registry;
pub mod strutil;
pub mod table;
pub mod ws;

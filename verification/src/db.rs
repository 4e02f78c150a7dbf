//! The values the store holds and the envelopes the bus carries.
//!
//! Instants are counted in whole seconds since the Unix epoch, as signed
//! 64-bit numbers; an absent expiry means the entry lives until overwritten.

use vstd::prelude::*;
use crate::json::{JsonValue, JsonV};

verus! {

/// The payload of a stored value: a plain string, a JSON document, or a
/// signed 64-bit integer.
#[derive(Debug)]
pub enum Data {
    String(String),
    Json(JsonValue),
    Int(i64),
}

/// The shape of a [`Data`].
pub enum DataV {
    String(Seq<char>),
    Json(JsonV),
    Int(i64),
}

impl View for Data {
    type V = DataV;

    open spec fn view(&self) -> DataV {
        match self {
            Data::String(s) => DataV::String(s@),
            Data::Json(j) => DataV::Json(j@),
            Data::Int(i) => DataV::Int(*i),
        }
    }
}

impl Clone for Data {
    /// A clone keeps the payload: the views agree.
    fn clone(&self) -> (res: Self)
        ensures
            res@ == self@,
    {
        match self {
            Data::String(s) => Data::String(s.clone()),
            Data::Json(j) => Data::Json(j.clone()),
            Data::Int(i) => Data::Int(*i),
        }
    }
}

/// A stored value: a payload and an optional absolute expiry instant,
/// in seconds since the Unix epoch.
#[derive(Debug)]
pub struct Value {
    pub data: Data,
    pub expiry: Option<i64>,
}

/// The shape of a stored [`Value`].
pub struct ValueV {
    pub data: DataV,
    pub expiry: Option<i64>,
}

impl View for Value {
    type V = ValueV;

    open spec fn view(&self) -> ValueV {
        ValueV { data: self.data@, expiry: self.expiry }
    }
}

impl Clone for Value {
    /// A clone keeps payload and expiry: the views agree.
    fn clone(&self) -> (res: Self)
        ensures
            res@ == self@,
    {
        Value { data: self.data.clone(), expiry: self.expiry }
    }
}

/// The absolute expiry a time to live stands for at `now`: `now` plus the
/// seconds, or none when the sum leaves the representable range, so that
/// an overflowing expiry means "never expires" rather than wrapping.
pub open spec fn abs_expiry(now: i64, ttl: Option<u32>) -> Option<i64> {
    match ttl {
        None => None,
        Some(s) => if now + s <= i64::MAX {
            Some((now + s) as i64)
        } else {
            None
        },
    }
}

impl Value {
    /// The stored value a client's write stands for at `now`: the payload
    /// kept, the time to live made absolute.
    pub fn from_command(value: crate::command::Value, now: i64) -> (r: Value)
        ensures
            r@.data == value@.data,
            r@.expiry == abs_expiry(now, value@.expiry),
    {
        let expiry = match value.expiry {
            Some(s) => now.checked_add(s as i64),
            None => None,
        };
        Value { data: value.data, expiry }
    }
}

/// One broadcast envelope: who sent it, on which channel, and the payload.
#[derive(Debug)]
pub struct BroadcastMessage {
    pub client_id: String,
    pub channel: String,
    pub message: String,
}

/// The shape of a [`BroadcastMessage`].
pub struct BroadcastMessageV {
    pub client_id: Seq<char>,
    pub channel: Seq<char>,
    pub message: Seq<char>,
}

impl View for BroadcastMessage {
    type V = BroadcastMessageV;

    open spec fn view(&self) -> BroadcastMessageV {
        BroadcastMessageV {
            client_id: self.client_id@,
            channel: self.channel@,
            message: self.message@,
        }
    }
}

impl Clone for BroadcastMessage {
    /// A clone keeps all three fields: the views agree.
    fn clone(&self) -> (res: Self)
        ensures
            res@ == self@,
    {
        BroadcastMessage {
            client_id: self.client_id.clone(),
            channel: self.channel.clone(),
            message: self.message.clone(),
        }
    }
}

} // verus!

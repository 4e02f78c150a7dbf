//! Commands sent from a client to the server.

use vstd::prelude::*;
use crate::db::{Data, DataV};

verus! {

/// A command, as decoded from one inbound frame.
#[derive(Debug)]
pub enum Command {
    /// Subscribe the client to the given channel.
    ///
    /// With `subscribe_to_self` the client also receives envelopes it
    /// sent itself on that channel.
    SubscribeBroadcast { channel: String, subscribe_to_self: bool },
    /// Unsubscribe the client from the given channel.
    UnsubscribeBroadcast(String),
    /// Publish a message on the given channel.
    SendBroadcast { channel: String, message: String },
    /// Store a value under a key.
    SetValue { key: String, value: Value },
    /// Read the value under a key.
    Get { key: String },
}

/// A value as a client writes it: a payload and an optional time to live,
/// in whole seconds from now.
#[derive(Debug)]
pub struct Value {
    pub data: Data,
    pub expiry: Option<u32>,
}

/// The shape of a [`Value`].
pub struct ValueV {
    pub data: DataV,
    pub expiry: Option<u32>,
}

impl View for Value {
    type V = ValueV;

    open spec fn view(&self) -> ValueV {
        ValueV { data: self.data@, expiry: self.expiry }
    }
}

impl Clone for Value {
    /// A clone keeps payload and time to live: the views agree.
    fn clone(&self) -> (res: Self)
        ensures
            res@ == self@,
    {
        Value { data: self.data.clone(), expiry: self.expiry }
    }
}

/// The shape of a [`Command`].
pub enum CommandV {
    SubscribeBroadcast { channel: Seq<char>, subscribe_to_self: bool },
    UnsubscribeBroadcast(Seq<char>),
    SendBroadcast { channel: Seq<char>, message: Seq<char> },
    SetValue { key: Seq<char>, value: ValueV },
    Get { key: Seq<char> },
}

impl View for Command {
    type V = CommandV;

    open spec fn view(&self) -> CommandV {
        match self {
            Command::SubscribeBroadcast { channel, subscribe_to_self } => {
                CommandV::SubscribeBroadcast {
                    channel: channel@,
                    subscribe_to_self: *subscribe_to_self,
                }
            },
            Command::UnsubscribeBroadcast(channel) => CommandV::UnsubscribeBroadcast(channel@),
            Command::SendBroadcast { channel, message } => {
                CommandV::SendBroadcast { channel: channel@, message: message@ }
            },
            Command::SetValue { key, value } => CommandV::SetValue { key: key@, value: value@ },
            Command::Get { key } => CommandV::Get { key: key@ },
        }
    }
}

impl Clone for Command {
    /// A clone keeps every field: the views agree.
    fn clone(&self) -> (res: Self)
        ensures
            res@ == self@,
    {
        match self {
            Command::SubscribeBroadcast { channel, subscribe_to_self } => {
                Command::SubscribeBroadcast {
                    channel: channel.clone(),
                    subscribe_to_self: *subscribe_to_self,
                }
            },
            Command::UnsubscribeBroadcast(channel) => {
                Command::UnsubscribeBroadcast(channel.clone())
            },
            Command::SendBroadcast { channel, message } => {
                Command::SendBroadcast { channel: channel.clone(), message: message.clone() }
            },
            Command::SetValue { key, value } => {
                Command::SetValue { key: key.clone(), value: value.clone() }
            },
            Command::Get { key } => Command::Get { key: key.clone() },
        }
    }
}

} // verus!

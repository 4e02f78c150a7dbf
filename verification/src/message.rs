//! Messages sent from the server to a client.

use vstd::prelude::*;
use crate::command::{Command, CommandV};
use crate::db::{BroadcastMessage, BroadcastMessageV, Value, ValueV};

verus! {

/// An outbound message, encoded as one Text frame.
#[derive(Debug)]
pub enum Message {
    /// Sent once at the opening of a connection, with the client's identifier.
    ClientId(String),
    /// A broadcast envelope delivered to this client.
    BroadcastMessage(BroadcastMessage),
    /// The reply to a read: the stored value, or nothing when the key is
    /// absent or its value has expired.
    Get(Option<Value>),
    /// The outcome of a command.
    Status(StatusMessage),
}

/// The outcome of a command: success, or an error with the words to report
/// and the command they concern when it is known.
#[derive(Debug)]
pub enum StatusMessage {
    Okay,
    Error { message: String, operation: Option<Command> },
}

/// The shape of a [`StatusMessage`].
pub enum StatusMessageV {
    Okay,
    Error { message: Seq<char>, operation: Option<CommandV> },
}

impl View for StatusMessage {
    type V = StatusMessageV;

    open spec fn view(&self) -> StatusMessageV {
        match self {
            StatusMessage::Okay => StatusMessageV::Okay,
            StatusMessage::Error { message, operation } => {
                StatusMessageV::Error {
                    message: message@,
                    operation: match operation {
                        Some(c) => Some(c@),
                        None => None,
                    },
                }
            },
        }
    }
}

/// The shape of a [`Message`].
pub enum MessageV {
    ClientId(Seq<char>),
    BroadcastMessage(BroadcastMessageV),
    Get(Option<ValueV>),
    Status(StatusMessageV),
}

impl View for Message {
    type V = MessageV;

    open spec fn view(&self) -> MessageV {
        match self {
            Message::ClientId(id) => MessageV::ClientId(id@),
            Message::BroadcastMessage(b) => MessageV::BroadcastMessage(b@),
            Message::Get(v) => MessageV::Get(
                match v {
                    Some(value) => Some(value@),
                    None => None,
                },
            ),
            Message::Status(s) => MessageV::Status(s@),
        }
    }
}

} // verus!

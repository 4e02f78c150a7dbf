//! The per-connection engine.
//!
//! One connection runs as a reader and a writer. The reader turns inbound
//! frames into commands; the writer executes commands against the shared
//! database, filters broadcast envelopes for its client, and queues the
//! replies. The decisions live here; the transport, the tasks and the
//! channels that carry these values live outside.

use vstd::prelude::*;
use vstd::utf8::{decode_utf8, valid_utf8};
use crate::codec::{command_of_text, decode_command_text};
use crate::command::Command;
use crate::db::{abs_expiry, BroadcastMessage, BroadcastMessageV, Value, ValueV};
use crate::message::{Message, StatusMessage};
use crate::registry::{row_or_empty, ChannelSubs, Database, SubscriptionOptions};
use crate::strutil::{str_eq, utf8_to_string};
use crate::table::lookup;

verus! {

/// How many queued items each channel between the tasks holds.
pub const CHANNEL_SIZE: usize = 1000;

/// What executing one command asks of the runtime.
#[derive(Debug)]
pub enum Effect {
    /// Send this message to the client, as one Text frame.
    Reply(Message),
    /// Put this envelope on the broadcast bus.
    Publish(BroadcastMessage),
    /// Wake the reaper: a sooner expiry than any it could be sleeping
    /// towards has been written.
    WakeReaper,
}

/// The shape of an [`Effect`].
pub enum EffectV {
    Reply(crate::message::MessageV),
    Publish(BroadcastMessageV),
    WakeReaper,
}

impl View for Effect {
    type V = EffectV;

    open spec fn view(&self) -> EffectV {
        match self {
            Effect::Reply(m) => EffectV::Reply(m@),
            Effect::Publish(b) => EffectV::Publish(b@),
            Effect::WakeReaper => EffectV::WakeReaper,
        }
    }
}

impl DeepView for Effect {
    type V = EffectV;

    open spec fn deep_view(&self) -> EffectV {
        self.view()
    }
}

/// The §4.3 delivery rule: an envelope reaches this client when it is on
/// the reserved channel, or on a channel the client subscribes to and
/// either sent by someone else or subscribed with self-delivery.
pub open spec fn delivers(
    client: Seq<char>,
    envelope: BroadcastMessageV,
    subs: Map<Seq<char>, SubscriptionOptions>,
) -> bool {
    envelope.channel == "global"@ || (subs.dom().contains(envelope.channel)
        && (envelope.client_id != client || subs[envelope.channel].subscribe_to_self))
}

/// Does the writer forward this envelope to its client?
///
/// Exactly the §4.3 delivery rule, decided against the connection's local
/// subscription copy.
pub fn should_send_message(
    client_id: &String,
    message: &BroadcastMessage,
    subscriptions: &ChannelSubs,
) -> (r: bool)
    requires
        subscriptions.wf(),
    ensures
        r == delivers(client_id@, message@, subscriptions.as_map()),
{
    if str_eq(message.channel.as_str(), "global") {
        return true;
    }
    match subscriptions.lookup(message.channel.as_str()) {
        Some(options) => {
            !str_eq(message.client_id.as_str(), client_id.as_str())
                || options.subscribe_to_self
        },
        None => false,
    }
}

/// What the database and the local copy hold after one command, and which
/// effects it asks for.
pub open spec fn command_post(
    old_db: Database,
    old_subs: Map<Seq<char>, SubscriptionOptions>,
    client: Seq<char>,
    command: crate::command::CommandV,
    now: i64,
    new_db: Database,
    new_subs: Map<Seq<char>, SubscriptionOptions>,
    effects: Seq<EffectV>,
) -> bool {
    match command {
        crate::command::CommandV::SubscribeBroadcast { channel, subscribe_to_self } => {
            let options = SubscriptionOptions { subscribe_to_self };
            &&& new_subs == old_subs.insert(channel, options)
            &&& new_db.subs() == old_db.subs().insert(
                client,
                row_or_empty(old_db.subs(), client).insert(channel, options),
            )
            &&& new_db.db == old_db.db
            &&& effects =~= Seq::<EffectV>::empty()
        },
        crate::command::CommandV::UnsubscribeBroadcast(channel) => {
            &&& new_subs == old_subs.remove(channel)
            &&& new_db.subs() == old_db.subs().insert(
                client,
                row_or_empty(old_db.subs(), client).remove(channel),
            )
            &&& new_db.db == old_db.db
            &&& effects =~= Seq::<EffectV>::empty()
        },
        crate::command::CommandV::SendBroadcast { channel, message } => {
            &&& new_subs == old_subs
            &&& new_db == old_db
            &&& effects =~= seq![
                EffectV::Publish(BroadcastMessageV { client_id: client, channel, message }),
            ]
        },
        crate::command::CommandV::SetValue { key, value } => {
            let stored = ValueV { data: value.data, expiry: abs_expiry(now, value.expiry) };
            let wake = stored.expiry matches Some(e) && forall|k: Seq<char>|
                #[trigger] old_db.db.as_map().dom().contains(k)
                    && old_db.db.as_map()[k].expiry is Some
                    ==> e < old_db.db.as_map()[k].expiry->0;
            &&& new_subs == old_subs
            &&& new_db.subs() == old_db.subs()
            &&& new_db.db.as_map() == old_db.db.as_map().insert(key, stored)
            &&& effects =~= if wake {
                seq![
                    EffectV::WakeReaper,
                    EffectV::Reply(crate::message::MessageV::Status(
                        crate::message::StatusMessageV::Okay,
                    )),
                ]
            } else {
                seq![
                    EffectV::Reply(crate::message::MessageV::Status(
                        crate::message::StatusMessageV::Okay,
                    )),
                ]
            }
        },
        crate::command::CommandV::Get { key } => {
            &&& new_subs == old_subs
            &&& new_db == old_db
            &&& effects =~= seq![
                EffectV::Reply(crate::message::MessageV::Get(
                    lookup(old_db.db.as_map(), key, now),
                )),
            ]
        },
    }
}

/// Execute one command for this connection's client.
///
/// Subscribing and unsubscribing change the registry and the local copy in
/// the same step, so that every envelope the writer sees afterwards is
/// filtered against the new set. A send asks for a publish; a write
/// stores the value, wakes the reaper when its expiry is the soonest, and
/// acknowledges; a read replies with what the table holds at `now`.
pub fn process_command(
    database: &mut Database,
    subscriptions: &mut ChannelSubs,
    client_id: &String,
    command: Command,
    now: i64,
) -> (effects: Vec<Effect>)
    requires
        old(database).wf(),
        old(subscriptions).wf(),
    ensures
        final(database).wf(),
        final(subscriptions).wf(),
        command_post(
            *old(database),
            old(subscriptions).as_map(),
            client_id@,
            command@,
            now,
            *final(database),
            final(subscriptions).as_map(),
            effects.deep_view(),
        ),
{
    let mut effects: Vec<Effect> = Vec::new();
    match command {
        Command::SubscribeBroadcast { channel, subscribe_to_self } => {
            let options = SubscriptionOptions { subscribe_to_self };
            subscriptions.upsert(channel.clone(), options);
            database.add_subscription(client_id.clone(), channel, options);
            proof {
                assert(effects.deep_view() =~= Seq::<EffectV>::empty());
            }
        },
        Command::UnsubscribeBroadcast(channel) => {
            subscriptions.remove(channel.as_str());
            database.remove_subscription(client_id.clone(), channel.as_str());
            proof {
                assert(effects.deep_view() =~= Seq::<EffectV>::empty());
            }
        },
        Command::SendBroadcast { channel, message } => {
            let envelope = BroadcastMessage { client_id: client_id.clone(), channel, message };
            effects.push(Effect::Publish(envelope));
            proof {
                assert(effects.deep_view() =~= seq![effects@[0]@]);
            }
        },
        Command::SetValue { key, value } => {
            let stored = Value::from_command(value, now);
            let wake = database.db.set(key, stored);
            if wake {
                effects.push(Effect::WakeReaper);
            }
            effects.push(Effect::Reply(Message::Status(StatusMessage::Okay)));
            proof {
                if wake {
                    assert(effects.deep_view() =~= seq![effects@[0]@, effects@[1]@]);
                } else {
                    assert(effects.deep_view() =~= seq![effects@[0]@]);
                }
            }
        },
        Command::Get { key } => {
            let value = database.db.get(key.as_str(), now);
            effects.push(Effect::Reply(Message::Get(value)));
            proof {
                assert(effects.deep_view() =~= seq![effects@[0]@]);
            }
        },
    }
    effects
}

/// One inbound frame, as the transport hands it to the reader.
#[derive(Debug)]
pub enum Frame {
    Text(String),
    Binary(Vec<u8>),
    Ping(Vec<u8>),
    Pong(Vec<u8>),
    Close,
}

/// What the reader does with one frame.
#[derive(Debug)]
pub enum ReadStep {
    /// A command decoded: hand it to the writer.
    Forward(Command),
    /// The frame did not decode: report this to the client and carry on.
    Report(StatusMessage),
    /// Transport housekeeping: nothing to do.
    Ignore,
    /// The peer closed: the reader ends.
    Stop,
}

/// The command a binary frame carries: its bytes must be UTF-8 and spell
/// a command document.
pub open spec fn command_of_bytes(b: Seq<u8>) -> Option<crate::command::CommandV> {
    if valid_utf8(b) {
        command_of_text(decode_utf8(b))
    } else {
        None
    }
}

/// Handle one inbound frame.
///
/// Text and binary frames are decoded as commands and forwarded; one
/// that does not decode draws an error report naming the frame kind, and
/// the reader carries on. Ping and pong pass; a close frame stops the
/// reader.
pub fn process_message(frame: Frame) -> (r: ReadStep)
    ensures
        match frame {
            Frame::Text(t) => match command_of_text(t@) {
                Some(c) => r matches ReadStep::Forward(cmd) && cmd@ == c,
                None => r matches ReadStep::Report(status) && status@
                    == crate::message::StatusMessageV::Error {
                    message: "Could not deserialize string message"@,
                    operation: None,
                },
            },
            Frame::Binary(b) => match command_of_bytes(b@) {
                Some(c) => r matches ReadStep::Forward(cmd) && cmd@ == c,
                None => r matches ReadStep::Report(status) && status@
                    == crate::message::StatusMessageV::Error {
                    message: "Could not deserialize binary message"@,
                    operation: None,
                },
            },
            Frame::Ping(_) => r is Ignore,
            Frame::Pong(_) => r is Ignore,
            Frame::Close => r is Stop,
        },
{
    match frame {
        Frame::Text(t) => {
            match decode_command_text(t.as_str()) {
                Some(command) => ReadStep::Forward(command),
                None => ReadStep::Report(
                    StatusMessage::Error {
                        message: "Could not deserialize string message".to_owned(),
                        operation: None,
                    },
                ),
            }
        },
        Frame::Binary(bytes) => {
            match utf8_to_string(bytes) {
                Some(text) => match decode_command_text(text.as_str()) {
                    Some(command) => ReadStep::Forward(command),
                    None => ReadStep::Report(
                        StatusMessage::Error {
                            message: "Could not deserialize binary message".to_owned(),
                            operation: None,
                        },
                    ),
                },
                None => ReadStep::Report(
                    StatusMessage::Error {
                        message: "Could not deserialize binary message".to_owned(),
                        operation: None,
                    },
                ),
            }
        },
        Frame::Ping(_) => ReadStep::Ignore,
        Frame::Pong(_) => ReadStep::Ignore,
        Frame::Close => ReadStep::Stop,
    }
}

/// Where a connection stands in its life.
#[derive(Clone, Copy, Debug, PartialEq, Eq, Structural)]
pub enum SessionPhase {
    Upgrading,
    Handshaking,
    Running,
    Closing,
    Closed,
}

/// What just happened to a connection.
#[derive(Clone, Copy, Debug, PartialEq, Eq, Structural)]
pub enum SessionEvent {
    /// The protocol upgrade succeeded.
    Upgraded,
    /// Probe sent, identifier announced, subscriptions seeded.
    HandshakeDone,
    /// The reader ended: stream end, fatal decode, or a close frame.
    ReaderEnded,
    /// The writer ended: transport error or its channels closed.
    WriterEnded,
    /// The peer task was torn down and the farewell frame attempted.
    PeerAborted,
}

/// One step of the connection lifecycle.
///
/// Upgrading becomes handshaking on upgrade; handshaking becomes running
/// once the probe, the identifier and the subscription seed are done;
/// running becomes closing when either side ends; closing becomes closed
/// once the peer task is torn down. Anything else leaves the phase
/// alone.
pub fn phase_step(phase: SessionPhase, event: SessionEvent) -> (r: SessionPhase)
    ensures
        r == match (phase, event) {
            (SessionPhase::Upgrading, SessionEvent::Upgraded) => SessionPhase::Handshaking,
            (SessionPhase::Handshaking, SessionEvent::HandshakeDone) => SessionPhase::Running,
            (SessionPhase::Running, SessionEvent::ReaderEnded) => SessionPhase::Closing,
            (SessionPhase::Running, SessionEvent::WriterEnded) => SessionPhase::Closing,
            (SessionPhase::Closing, SessionEvent::PeerAborted) => SessionPhase::Closed,
            _ => phase,
        },
{
    match (phase, event) {
        (SessionPhase::Upgrading, SessionEvent::Upgraded) => SessionPhase::Handshaking,
        (SessionPhase::Handshaking, SessionEvent::HandshakeDone) => SessionPhase::Running,
        (SessionPhase::Running, SessionEvent::ReaderEnded) => SessionPhase::Closing,
        (SessionPhase::Running, SessionEvent::WriterEnded) => SessionPhase::Closing,
        (SessionPhase::Closing, SessionEvent::PeerAborted) => SessionPhase::Closed,
        _ => phase,
    }
}

} // verus!

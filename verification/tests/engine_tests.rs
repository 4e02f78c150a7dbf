//! The registry, the delivery rule, the bus, and the command engine.

use aether_db::bus::{Bus, Error, RecvOutcome};
use aether_db::command::{Command, Value as CommandValue};
use aether_db::db::{BroadcastMessage, Data};
use aether_db::message::{Message, StatusMessage};
use aether_db::codec::message_to_string;
use aether_db::registry::{Database, SubscriptionOptions};
use aether_db::ws::{
    phase_step, process_command, process_message, should_send_message, Effect, Frame, ReadStep,
    SessionEvent, SessionPhase,
};

fn envelope(from: &str, channel: &str, message: &str) -> BroadcastMessage {
    BroadcastMessage {
        client_id: from.to_string(),
        channel: channel.to_string(),
        message: message.to_string(),
    }
}

#[test]
fn test_subscriptions() {
    let client_id = "client".to_string();
    let subscription = "subscription".to_string();
    let subscription_options = SubscriptionOptions { subscribe_to_self: false };
    let mut database = Database::default();
    database.add_subscription(client_id.clone(), subscription.clone(), subscription_options);
    let subscriptions = database.get_subscriptions(&client_id);
    assert_eq!(subscriptions.lookup(&subscription), Some(subscription_options));

    database.clear_subscriptions(&client_id);
    let subscriptions = database.get_subscriptions(&client_id);
    assert_eq!(subscriptions.lookup(&subscription), None);
}

#[test]
fn unsubscribing_what_was_never_subscribed_changes_nothing() {
    let mut database = Database::default();
    database.add_subscription("c".to_string(), "kept".to_string(), SubscriptionOptions {
        subscribe_to_self: true,
    });
    database.remove_subscription("c".to_string(), "absent");
    database.remove_subscription("other".to_string(), "absent");
    let subs = database.get_subscriptions("c");
    assert!(subs.lookup("kept").is_some());
    assert!(subs.lookup("absent").is_none());
    assert!(database.get_subscriptions("other").lookup("absent").is_none());
}

#[test]
fn subscribing_twice_equals_subscribing_once() {
    let options = SubscriptionOptions { subscribe_to_self: true };
    let mut once = Database::default();
    once.add_subscription("c".to_string(), "room".to_string(), options);
    let mut twice = Database::default();
    twice.add_subscription("c".to_string(), "room".to_string(), options);
    twice.add_subscription("c".to_string(), "room".to_string(), options);
    assert_eq!(
        once.get_subscriptions("c").lookup("room"),
        twice.get_subscriptions("c").lookup("room"),
    );
}

#[test]
fn filter_forwards_global_to_everyone() {
    // neither client subscribes; the reserved channel reaches both
    let database = Database::default();
    let a = "A".to_string();
    let b = "B".to_string();
    let subs_a = database.get_subscriptions(&a);
    let subs_b = database.get_subscriptions(&b);
    let sent = envelope("A", "global", "hi");
    assert!(should_send_message(&b, &sent, &subs_b));
    // the sender too: self-delivery is not consulted on the reserved channel
    assert!(should_send_message(&a, &sent, &subs_a));
}

#[test]
fn filter_requires_a_subscription_off_the_reserved_channel() {
    let mut database = Database::default();
    database.add_subscription("B".to_string(), "room".to_string(), SubscriptionOptions {
        subscribe_to_self: false,
    });
    let subs_a = database.get_subscriptions("A");
    let subs_b = database.get_subscriptions("B");
    let sent = envelope("A", "room", "hi");
    let b = "B".to_string();
    let a = "A".to_string();
    // B subscribed and did not send: delivered
    assert!(should_send_message(&b, &sent, &subs_b));
    // A never subscribed: nothing
    assert!(!should_send_message(&a, &sent, &subs_a));
}

#[test]
fn filter_self_delivery_is_opt_in() {
    let mut database = Database::default();
    database.add_subscription("A".to_string(), "quiet".to_string(), SubscriptionOptions {
        subscribe_to_self: false,
    });
    database.add_subscription("A".to_string(), "loud".to_string(), SubscriptionOptions {
        subscribe_to_self: true,
    });
    let subs = database.get_subscriptions("A");
    let a = "A".to_string();
    assert!(!should_send_message(&a, &envelope("A", "quiet", "hi"), &subs));
    assert!(should_send_message(&a, &envelope("A", "loud", "hi"), &subs));
}

#[test]
fn backlog_without_overflow_loses_nothing() {
    let mut bus = Bus::new(3);
    let handle = bus.subscribe();
    bus.publish(&envelope("A", "room", "one")).expect("a subscriber exists");
    bus.publish(&envelope("A", "room", "two")).expect("a subscriber exists");
    match bus.recv(handle) {
        RecvOutcome::Envelope(e) => assert_eq!(e.message, "one"),
        _ => panic!("the first envelope comes first"),
    }
    match bus.recv(handle) {
        RecvOutcome::Envelope(e) => assert_eq!(e.message, "two"),
        _ => panic!("the second envelope follows"),
    }
    match bus.recv(handle) {
        RecvOutcome::Empty => {},
        _ => panic!("nothing is left"),
    }
}

#[test]
fn full_backlog_drops_oldest_and_reports_the_lag() {
    let mut bus = Bus::new(2);
    let handle = bus.subscribe();
    bus.publish(&envelope("A", "room", "one")).unwrap();
    bus.publish(&envelope("A", "room", "two")).unwrap();
    bus.publish(&envelope("A", "room", "three")).unwrap();
    match bus.recv(handle) {
        RecvOutcome::Lagged(n) => assert_eq!(n, 1),
        _ => panic!("the loss is reported first"),
    }
    match bus.recv(handle) {
        RecvOutcome::Envelope(e) => assert_eq!(e.message, "two"),
        _ => panic!("the oldest was dropped, the next survives"),
    }
}

#[test]
fn publish_without_subscribers_fails() {
    let mut bus = Bus::new(4);
    assert_eq!(bus.publish(&envelope("A", "room", "hi")), Err(Error::NoSubscribers));
}

#[test]
fn scenario_set_get_round_trip() {
    // client A writes a string, reads it back
    let now: i64 = 1_000;
    let mut database = Database::default();
    let mut subs = database.get_subscriptions("A");
    let a = "A".to_string();

    let set = Command::SetValue {
        key: "k".to_string(),
        value: CommandValue { data: Data::String("v".to_string()), expiry: None },
    };
    let effects = process_command(&mut database, &mut subs, &a, set, now);
    assert_eq!(effects.len(), 1);
    match &effects[0] {
        Effect::Reply(m) => assert_eq!(message_to_string(m), "{\"status\":\"ok\"}"),
        _ => panic!("a write acknowledges"),
    }

    let get = Command::Get { key: "k".to_string() };
    let effects = process_command(&mut database, &mut subs, &a, get, now);
    assert_eq!(effects.len(), 1);
    match &effects[0] {
        Effect::Reply(m) => assert_eq!(
            message_to_string(m),
            "{\"get\":{\"data\":{\"string\":\"v\"},\"expiry\":null}}",
        ),
        _ => panic!("a read replies"),
    }
}

#[test]
fn scenario_ttl_expiration() {
    // a value written with one second to live is gone two seconds later
    let now: i64 = 50_000;
    let mut database = Database::default();
    let mut subs = database.get_subscriptions("A");
    let a = "A".to_string();

    let set = Command::SetValue {
        key: "k".to_string(),
        value: CommandValue { data: Data::Int(1), expiry: Some(1) },
    };
    let effects = process_command(&mut database, &mut subs, &a, set, now);
    // the first expiry in the table: the reaper is woken, then the write acknowledged
    assert_eq!(effects.len(), 2);
    assert!(matches!(effects[0], Effect::WakeReaper));

    let get = Command::Get { key: "k".to_string() };
    let effects = process_command(&mut database, &mut subs, &a, get, now + 2);
    match &effects[0] {
        Effect::Reply(m) => assert_eq!(message_to_string(m), "{\"get\":null}"),
        _ => panic!("a read replies"),
    }
}

#[test]
fn scenario_broadcast_fan_out() {
    // B subscribes to the room; A sends; B receives it, A does not
    let now: i64 = 0;
    let mut database = Database::default();
    let a = "A".to_string();
    let b = "B".to_string();
    let mut subs_a = database.get_subscriptions(&a);
    let mut subs_b = database.get_subscriptions(&b);

    let subscribe = Command::SubscribeBroadcast {
        channel: "room".to_string(),
        subscribe_to_self: false,
    };
    let effects = process_command(&mut database, &mut subs_b, &b, subscribe, now);
    assert!(effects.is_empty());

    let send = Command::SendBroadcast { channel: "room".to_string(), message: "hi".to_string() };
    let effects = process_command(&mut database, &mut subs_a, &a, send, now);
    assert_eq!(effects.len(), 1);
    let sent = match &effects[0] {
        Effect::Publish(e) => e,
        _ => panic!("a send publishes"),
    };
    assert!(should_send_message(&b, sent, &subs_b));
    assert!(!should_send_message(&a, sent, &subs_a));
    assert_eq!(
        message_to_string(&Message::BroadcastMessage(sent.clone())),
        "{\"broadcast_message\":{\"client_id\":\"A\",\"channel\":\"room\",\"message\":\"hi\"}}",
    );
}

#[test]
fn scenario_self_delivery_opt_in() {
    // A subscribes to its own channel with self-delivery and hears itself
    let now: i64 = 0;
    let mut database = Database::default();
    let a = "A".to_string();
    let mut subs_a = database.get_subscriptions(&a);

    let subscribe = Command::SubscribeBroadcast {
        channel: "room".to_string(),
        subscribe_to_self: true,
    };
    process_command(&mut database, &mut subs_a, &a, subscribe, now);
    let send = Command::SendBroadcast { channel: "room".to_string(), message: "me".to_string() };
    let effects = process_command(&mut database, &mut subs_a, &a, send, now);
    let sent = match &effects[0] {
        Effect::Publish(e) => e,
        _ => panic!("a send publishes"),
    };
    assert!(should_send_message(&a, sent, &subs_a));
}

#[test]
fn scenario_wake_on_sooner_expiry() {
    // a later write with a sooner expiry wakes the reaper; at 5.5 the
    // short key is gone and the long one stays; at 11 both are gone
    let mut database = Database::default();
    let mut subs = database.get_subscriptions("A");
    let a = "A".to_string();

    let set_long = Command::SetValue {
        key: "long".to_string(),
        value: CommandValue { data: Data::Int(1), expiry: Some(10) },
    };
    let effects = process_command(&mut database, &mut subs, &a, set_long, 0);
    assert!(matches!(effects[0], Effect::WakeReaper));

    let set_short = Command::SetValue {
        key: "short".to_string(),
        value: CommandValue { data: Data::Int(2), expiry: Some(4) },
    };
    let effects = process_command(&mut database, &mut subs, &a, set_short, 1);
    assert!(matches!(effects[0], Effect::WakeReaper), "a sooner expiry wakes the reaper");

    assert!(database.db.get("short", 6).is_none());
    assert!(database.db.get("long", 6).is_some());
    assert!(database.db.get("short", 11).is_none());
    assert!(database.db.get("long", 11).is_none());
}

#[test]
fn scenario_malformed_command() {
    // a frame that is not JSON draws an error report, and only that
    match process_message(Frame::Text("not json".to_string())) {
        ReadStep::Report(status) => {
            let expected = "{\"status\":{\"error\":{\"message\":\"Could not deserialize string message\",\"operation\":null}}}";
            assert_eq!(message_to_string(&Message::Status(status)), expected);
        },
        _ => panic!("a bad frame is reported, not fatal"),
    }
}

#[test]
fn reader_handles_each_frame_kind() {
    match process_message(Frame::Text("{\"get\":{\"key\":\"k\"}}".to_string())) {
        ReadStep::Forward(Command::Get { key }) => assert_eq!(key, "k"),
        _ => panic!("text decodes to a command"),
    }
    match process_message(Frame::Binary(b"{\"unsubscribe_broadcast\":\"r\"}".to_vec())) {
        ReadStep::Forward(Command::UnsubscribeBroadcast(channel)) => assert_eq!(channel, "r"),
        _ => panic!("binary decodes to a command"),
    }
    match process_message(Frame::Binary(vec![0xff, 0xfe])) {
        ReadStep::Report(StatusMessage::Error { message, .. }) => {
            assert_eq!(message, "Could not deserialize binary message");
        },
        _ => panic!("bad bytes are reported"),
    }
    assert!(matches!(process_message(Frame::Ping(vec![1, 2, 3])), ReadStep::Ignore));
    assert!(matches!(process_message(Frame::Pong(vec![])), ReadStep::Ignore));
    assert!(matches!(process_message(Frame::Close), ReadStep::Stop));
}

#[test]
fn unsubscribe_command_updates_cache_and_registry() {
    let mut database = Database::default();
    let a = "A".to_string();
    let mut subs = database.get_subscriptions(&a);
    process_command(
        &mut database,
        &mut subs,
        &a,
        Command::SubscribeBroadcast { channel: "room".to_string(), subscribe_to_self: false },
        0,
    );
    assert!(subs.lookup("room").is_some());
    assert!(database.get_subscriptions("A").lookup("room").is_some());
    process_command(
        &mut database,
        &mut subs,
        &a,
        Command::UnsubscribeBroadcast("room".to_string()),
        0,
    );
    assert!(subs.lookup("room").is_none());
    assert!(database.get_subscriptions("A").lookup("room").is_none());
}

#[test]
fn ttl_overflow_means_no_expiry() {
    // adding the time to live to a clock near the end of the range cannot
    // wrap: the value simply never expires
    let now = i64::MAX - 10;
    let mut database = Database::default();
    let mut subs = database.get_subscriptions("A");
    let a = "A".to_string();
    let set = Command::SetValue {
        key: "k".to_string(),
        value: CommandValue { data: Data::Int(1), expiry: Some(3600) },
    };
    process_command(&mut database, &mut subs, &a, set, now);
    let got = database.db.get("k", now).expect("stored");
    assert_eq!(got.expiry, None);
}

#[test]
fn lifecycle_follows_the_transition_table() {
    assert_eq!(
        phase_step(SessionPhase::Upgrading, SessionEvent::Upgraded),
        SessionPhase::Handshaking,
    );
    assert_eq!(
        phase_step(SessionPhase::Handshaking, SessionEvent::HandshakeDone),
        SessionPhase::Running,
    );
    assert_eq!(
        phase_step(SessionPhase::Running, SessionEvent::ReaderEnded),
        SessionPhase::Closing,
    );
    assert_eq!(
        phase_step(SessionPhase::Running, SessionEvent::WriterEnded),
        SessionPhase::Closing,
    );
    assert_eq!(
        phase_step(SessionPhase::Closing, SessionEvent::PeerAborted),
        SessionPhase::Closed,
    );
    // anything out of turn leaves the phase alone
    assert_eq!(phase_step(SessionPhase::Running, SessionEvent::Upgraded), SessionPhase::Running);
    assert_eq!(
        phase_step(SessionPhase::Closed, SessionEvent::ReaderEnded),
        SessionPhase::Closed,
    );
}

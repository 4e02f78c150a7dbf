//! The expiring table: reads, writes, expiry and the reaper.

use aether_db::db::{Data, Value};
use aether_db::table::{sleep_seconds, Table};

fn string_value(text: &str, expiry: Option<i64>) -> Value {
    Value { data: Data::String(text.to_string()), expiry }
}

fn data_text(value: &Value) -> &str {
    match &value.data {
        Data::String(s) => s.as_str(),
        _ => panic!("expected a string payload"),
    }
}

#[test]
fn set_then_get_returns_the_value() {
    let mut table = Table::new();
    table.set("k".to_string(), string_value("v", None));
    let got = table.get("k", 100).expect("the key was just written");
    assert_eq!(data_text(&got), "v");
    assert_eq!(got.expiry, None);
}

#[test]
fn get_checks_expiry_on_read() {
    let mut table = Table::new();
    table.set("k".to_string(), string_value("v", Some(50)));
    // observable while now <= expiry, even on the boundary
    assert!(table.get("k", 49).is_some());
    assert!(table.get("k", 50).is_some());
    // past the expiry the entry is never returned, reaped or not
    assert!(table.get("k", 51).is_none());
}

#[test]
fn set_replaces_atomically() {
    let mut table = Table::new();
    table.set("k".to_string(), string_value("old", Some(10)));
    table.set("k".to_string(), string_value("new", None));
    let got = table.get("k", 1000).expect("the overwrite removed the expiry");
    assert_eq!(data_text(&got), "new");
    assert_eq!(table.len(), 1);
}

#[test]
fn set_reports_when_the_reaper_must_wake() {
    let mut table = Table::new();
    // no expiry anywhere, none written: no wake
    assert!(!table.set("a".to_string(), string_value("v", None)));
    // first expiry: wake
    assert!(table.set("b".to_string(), string_value("v", Some(100))));
    // later expiry: no wake
    assert!(!table.set("c".to_string(), string_value("v", Some(200))));
    // sooner expiry: wake
    assert!(table.set("d".to_string(), string_value("v", Some(40))));
    // no expiry again: no wake
    assert!(!table.set("e".to_string(), string_value("v", None)));
}

#[test]
fn next_expiration_is_the_soonest() {
    let mut table = Table::new();
    assert_eq!(table.next_expiration(), None);
    table.set("a".to_string(), string_value("v", Some(70)));
    table.set("b".to_string(), string_value("v", Some(30)));
    table.set("c".to_string(), string_value("v", None));
    assert_eq!(table.next_expiration(), Some(30));
}

#[test]
fn reaper_removes_exactly_the_expired() {
    let mut table = Table::new();
    table.set("expired".to_string(), string_value("v", Some(10)));
    table.set("later".to_string(), string_value("v", Some(90)));
    table.set("forever".to_string(), string_value("v", None));
    let next = table.remove_expired_values(20);
    assert_eq!(next, Some(90));
    assert_eq!(table.len(), 2);
    assert!(table.get("expired", 20).is_none());
    assert!(table.get("later", 20).is_some());
    assert!(table.get("forever", 20).is_some());
}

#[test]
fn reaper_keeps_a_value_expiring_right_now() {
    // the reaper never removes an observable entry: now == expiry stays
    let mut table = Table::new();
    table.set("edge".to_string(), string_value("v", Some(20)));
    table.remove_expired_values(20);
    assert!(table.get("edge", 20).is_some());
}

#[test]
fn db_test_database_set_expiration() {
    // as the original ran against the wall clock, with the clock held here:
    // two entries, one expiring later than the other, and one never
    let now: i64 = 0;
    let short = now + 5;
    let long = now + 10;
    let mut database = Table::new();
    database.set("expire soon".to_string(), string_value("value", Some(long)));
    database.set("forever".to_string(), string_value("value", None));
    assert_eq!(database.len(), 2);
    database.set("expire sooner".to_string(), string_value("value", Some(short)));
    assert_eq!(database.len(), 3);
    // time passes the first expiry
    database.remove_expired_values(now + 6);
    assert_eq!(database.len(), 2);
    // and then the second
    database.remove_expired_values(now + 12);
    assert_eq!(database.len(), 1);
}

#[test]
fn table_test_database_set_expiration() {
    let now: i64 = 1_000;
    let mut database = Table::new();
    database.set(
        "expire soon".to_string(),
        Value { data: Data::String("value".to_string()), expiry: Some(now + 10) },
    );
    database.set(
        "forever".to_string(),
        Value { data: Data::String("value".to_string()), expiry: None },
    );
    assert_eq!(database.len(), 2);
    database.set(
        "expire sooner".to_string(),
        Value { data: Data::String("value".to_string()), expiry: Some(now + 5) },
    );
    assert_eq!(database.len(), 3);
    database.remove_expired_values(now + 6);
    assert_eq!(database.len(), 2);
    database.remove_expired_values(now + 12);
    assert_eq!(database.len(), 1);
}

#[test]
fn db_test_store_expiration() {
    let now: i64 = 10_000;
    let jump = 10;
    let mut store = Table::new();
    store.set("expired".to_string(), string_value("value", Some(now - jump)));
    store.set("unexpired_1".to_string(), string_value("value", Some(now + jump)));
    store.set("unexpired_2".to_string(), string_value("value", Some(now + jump)));
    store.set("forever".to_string(), string_value("value", None));
    store.remove_expired_values(now);
    assert_eq!(store.len(), 3);
    // jump past the remaining expirations
    let next = store.remove_expired_values(now + 11);
    assert_eq!(next, None);
    assert_eq!(store.len(), 1);
}

#[test]
fn table_test_store_expiration() {
    let now: i64 = 77;
    let mut store = Table::new();
    store.set(
        "expired".to_string(),
        Value { data: Data::String("value".to_string()), expiry: Some(now - 10) },
    );
    store.set(
        "unexpired_1".to_string(),
        Value { data: Data::String("value".to_string()), expiry: Some(now + 10) },
    );
    store.set(
        "unexpired_2".to_string(),
        Value { data: Data::String("value".to_string()), expiry: Some(now + 10) },
    );
    store.set(
        "forever".to_string(),
        Value { data: Data::String("value".to_string()), expiry: None },
    );
    store.remove_expired_values(now);
    assert_eq!(store.len(), 3);
    let next = store.remove_expired_values(now + 11);
    assert_eq!(next, None);
    assert_eq!(store.len(), 1);
}

#[test]
fn sleep_is_floored_at_zero() {
    assert_eq!(sleep_seconds(100, 110), 0);
    assert_eq!(sleep_seconds(100, 100), 0);
    assert_eq!(sleep_seconds(110, 100), 10);
}

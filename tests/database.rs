use kv::database::{notification, Database, Outbox};
use kv::parser::Value;
use std::sync::mpsc::channel;

fn text(s: &str) -> Value {
    Value::Text(String::from(s))
}

#[test]
fn create_read_update_delete() {
    let mut db = Database::new();
    assert_eq!(db.read("k"), None);
    assert_eq!(db.create(String::from("k"), text("v1")), None);
    assert_eq!(db.read("k"), Some(&text("v1")));
    assert_eq!(db.create(String::from("k"), text("v2")), Some(text("v1")));
    assert_eq!(db.update("k", Value::Integer(3)).unwrap(), Some(text("v2")));
    assert_eq!(db.read("k"), Some(&Value::Integer(3)));
    assert_eq!(db.update("missing", Value::Integer(3)).unwrap(), None);
    assert_eq!(db.read("missing"), None);
    assert_eq!(db.delete("k"), Some(Value::Integer(3)));
    assert_eq!(db.delete("k"), None);
    assert_eq!(db.read("k"), None);
}

#[test]
fn notification_text() {
    assert_eq!(notification("k", &text("v")), "update k->$1\r\nv\r\n\r\n\r\n");
}

#[test]
fn subscribe_sends_snapshot_before_updates() {
    let mut db = Database::new();
    db.create(String::from("k"), text("v"));
    let (tx, rx) = channel();
    assert_eq!(db.subscribe("k", Outbox::new(tx)), 1);
    assert_eq!(rx.try_recv().unwrap(), notification("k", &text("v")).into_bytes());
    assert!(rx.try_recv().is_err());
    db.update("k", text("w")).unwrap();
    assert_eq!(rx.try_recv().unwrap(), notification("k", &text("w")).into_bytes());
    assert!(rx.try_recv().is_err());
}

#[test]
fn subscribe_to_absent_key_registers_nothing() {
    let mut db = Database::new();
    let (tx, rx) = channel();
    assert_eq!(db.subscribe("k", Outbox::new(tx)), 0);
    assert!(rx.try_recv().is_err());
    db.create(String::from("k"), text("v"));
    db.update("k", text("w")).unwrap();
    assert!(rx.try_recv().is_err());
}

#[test]
fn update_reaches_every_subscriber() {
    let mut db = Database::new();
    db.create(String::from("k"), text("v1"));
    let (tx1, rx1) = channel();
    let (tx2, rx2) = channel();
    assert_eq!(db.subscribe("k", Outbox::new(tx1)), 1);
    assert_eq!(db.subscribe("k", Outbox::new(tx2)), 2);
    rx1.try_recv().unwrap();
    rx2.try_recv().unwrap();
    assert_eq!(db.update("k", text("v2")).unwrap(), Some(text("v1")));
    let expected = notification("k", &text("v2")).into_bytes();
    assert_eq!(rx1.try_recv().unwrap(), expected);
    assert_eq!(rx2.try_recv().unwrap(), expected);
    assert_eq!(db.read("k"), Some(&text("v2")));
}

#[test]
fn unreachable_subscriber_leaves_value() {
    let mut db = Database::new();
    db.create(String::from("k"), text("v1"));
    let (tx, rx) = channel();
    db.subscribe("k", Outbox::new(tx));
    drop(rx);
    assert!(db.update("k", text("v2")).is_err());
    assert_eq!(db.read("k"), Some(&text("v1")));
}

#[test]
fn create_drops_subscribers() {
    let mut db = Database::new();
    db.create(String::from("k"), text("v1"));
    let (tx, rx) = channel();
    db.subscribe("k", Outbox::new(tx));
    rx.try_recv().unwrap();
    db.create(String::from("k"), text("v2"));
    db.update("k", text("v3")).unwrap();
    assert!(rx.try_recv().is_err());
}

#[test]
fn recreated_key_forgets_old_subscribers() {
    let mut db = Database::new();
    db.create(String::from("k"), text("v1"));
    let (tx, rx) = channel();
    db.subscribe("k", Outbox::new(tx));
    assert_eq!(rx.try_recv().unwrap(), notification("k", &text("v1")).into_bytes());
    assert_eq!(db.delete("k"), Some(text("v1")));
    db.create(String::from("k"), text("v2"));
    assert_eq!(db.update("k", text("v3")).unwrap(), Some(text("v2")));
    assert!(rx.try_recv().is_err());
}

#[test]
fn fan_out_stops_at_unreachable_subscriber() {
    let mut db = Database::new();
    db.create(String::from("k"), text("v1"));
    let (tx1, rx1) = channel();
    let (tx2, rx2) = channel();
    let (tx3, rx3) = channel();
    db.subscribe("k", Outbox::new(tx1));
    db.subscribe("k", Outbox::new(tx2));
    db.subscribe("k", Outbox::new(tx3));
    rx1.try_recv().unwrap();
    rx3.try_recv().unwrap();
    drop(rx2);
    assert!(db.update("k", text("v2")).is_err());
    assert_eq!(rx1.try_recv().unwrap(), notification("k", &text("v2")).into_bytes());
    assert!(rx3.try_recv().is_err());
    assert_eq!(db.read("k"), Some(&text("v1")));
}

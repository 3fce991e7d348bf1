use kv::database::{Database, Outbox};
use kv::parser::{Command, Parser, Value};
use kv::session::{run_batch, BatchEnd};
use std::sync::mpsc::channel;

#[test]
fn disconnect_ends_batch() {
    let mut db = Database::new();
    db.create(String::from("k1"), Value::Integer(1));
    db.create(String::from("k2"), Value::Integer(2));
    let (tx, rx) = channel();
    let mut outbox = Outbox::new(tx);
    let commands = vec![
        Command::Read(String::from("k1")),
        Command::Disconnect,
        Command::Read(String::from("k2")),
    ];
    assert_eq!(run_batch(&mut db, commands, &mut outbox), BatchEnd::Disconnected(1));
    assert_eq!(rx.try_recv().unwrap(), b":1\r\n".to_vec());
    assert!(rx.try_recv().is_err());
}

#[test]
fn wire_create_then_read() {
    let mut db = Database::new();
    let (tx, rx) = channel();
    let mut outbox = Outbox::new(tx);
    let mut parser = Parser::from(b"*3\r\n$6\r\nCREATE\r\n$3\r\nkey\r\n$4\r\nval1\r\n").unwrap();
    let commands = parser.parse().unwrap();
    assert_eq!(
        commands,
        vec![Command::Create(String::from("key"), Value::Text(String::from("val1")))]
    );
    assert_eq!(run_batch(&mut db, commands, &mut outbox), BatchEnd::Completed);
    assert!(rx.try_recv().is_err());
    assert_eq!(db.read("key"), Some(&Value::Text(String::from("val1"))));
    let read = vec![Command::Read(String::from("key"))];
    assert_eq!(run_batch(&mut db, read, &mut outbox), BatchEnd::Completed);
    assert_eq!(rx.try_recv().unwrap(), b"$4\r\nval1\r\n".to_vec());
}

#[test]
fn subscribe_in_batch_gets_snapshot_only() {
    let mut db = Database::new();
    db.create(String::from("k"), Value::Integer(9));
    let (tx, rx) = channel();
    let mut outbox = Outbox::new(tx);
    let commands = vec![Command::Subscribe(String::from("k"))];
    assert_eq!(run_batch(&mut db, commands, &mut outbox), BatchEnd::Completed);
    assert_eq!(rx.try_recv().unwrap(), b"update k->:9\r\n\r\n\r\n".to_vec());
    assert!(rx.try_recv().is_err());
}

#[test]
fn closed_outbox_stops_batch() {
    let mut db = Database::new();
    db.create(String::from("k"), Value::Integer(9));
    let (tx, rx) = channel();
    let mut outbox = Outbox::new(tx);
    drop(rx);
    let commands = vec![
        Command::Read(String::from("k")),
        Command::Delete(String::from("k")),
    ];
    assert_eq!(run_batch(&mut db, commands, &mut outbox), BatchEnd::Stopped(0));
    assert_eq!(db.read("k"), Some(&Value::Integer(9)));
}

#[test]
fn malformed_length_is_reported_not_fatal() {
    assert!(Parser::from(b"$abc\r\n").is_err());
    let mut parser = Parser::from(b"*2\r\n$4\r\nREAD\r\n$1\r\nk\r\n").unwrap();
    assert_eq!(parser.parse(), Ok(vec![Command::Read(String::from("k"))]));
}

#[test]
fn serve_reports_malformed_request_and_changes_nothing() {
    let mut db = Database::new();
    let (tx, rx) = channel();
    let mut outbox = Outbox::new(tx);
    let r = kv::session::serve(&mut db, b"$abc\r\n", &mut outbox);
    assert_eq!(r, Err(kv::parser::Error::Syntax(kv::lexer::Error::Parse)));
    assert!(rx.try_recv().is_err());
    assert_eq!(db.read("abc"), None);
}

#[test]
fn serve_stops_at_disconnect() {
    let mut db = Database::new();
    db.create(String::from("k1"), Value::Integer(1));
    db.create(String::from("k2"), Value::Integer(2));
    let (tx, rx) = channel();
    let mut outbox = Outbox::new(tx);
    let wire = b"*5\r\n$4\r\nREAD\r\n$2\r\nk1\r\n$10\r\nDISCONNECT\r\n$4\r\nREAD\r\n$2\r\nk2\r\n";
    let r = kv::session::serve(&mut db, wire, &mut outbox);
    assert_eq!(r, Ok(BatchEnd::Disconnected(1)));
    assert_eq!(rx.try_recv().unwrap(), b":1\r\n".to_vec());
    assert!(rx.try_recv().is_err());
}

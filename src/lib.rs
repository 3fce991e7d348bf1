//! An in-memory key/value store spoken to over a length-prefixed wire
//! protocol: a byte-level lexer, a command parser and value encoder, the
//! store itself with key-level subscriptions, and the per-connection
//! batch logic.
pub mod lexer;
pub mod parser;
pub mod database;
pub mod session;
pub mod wire;

//! Hexput: a small scripting language for rules that a Backend hands to a Daemon, with the
//! evaluator, the static check, the wire protocol and the session rules around it.

pub mod ast;
pub mod budget;
pub mod bytes;
pub mod check;
pub mod cli;
pub mod config;
pub mod connection;
pub mod diagnostics;
pub mod enforce;
pub mod envelope;
pub mod exec;
pub mod fields;
pub mod ids;
pub mod interpreter;
pub mod message_pack;
pub mod number;
pub mod numeral;
pub mod port;
pub mod rpc;
pub mod script;
pub mod session;
pub mod table;
pub mod text;
pub mod wire;

//! An in-memory key-value store speaking a RESP-style wire protocol: a byte
//! codec, a command interpreter and a storage engine with lazy expiry.
pub mod numeric;
pub mod protocol;
pub mod engine;
pub mod command;

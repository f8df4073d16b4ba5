//! A minimal in-memory key-value store speaking a Redis-like wire protocol.
//!
//! The crate contains the protocol decoder and encoder for the five frame
//! kinds (simple string, integer, error, bulk string, array), an expiry-aware
//! string store plus an independent list store, and the dispatcher that maps
//! decoded requests to store operations and replies.  All of it is verified;
//! the socket loop that feeds request bytes in and writes reply bytes out
//! lives outside the library.

pub mod bytes;
pub mod commands;
pub mod decode;
pub mod encode;
pub mod laws;
pub mod num;
pub mod resp;
pub mod store;
pub mod table;

//! An in-memory key-value engine that speaks a Redis-style wire protocol.
//!
//! The crate has two halves. The codec ([`resp`]) turns a byte buffer and a
//! cursor into a typed [`resp::RESP`] value and back; [`round_trip`] proves
//! what decoding gives back of what encoding wrote. The engine ([`storage`])
//! keeps keyed strings with an optional time to live and executes the
//! commands that [`server`] hands to it; [`model`] says in mathematical terms
//! what it does, and proves what follows for expiry.
pub mod clock;
pub mod decimal;
pub mod model;
pub mod resp;
pub mod resp_result;
pub mod round_trip;
pub mod server;
pub mod set;
pub mod storage;
pub mod storage_result;
pub mod text;

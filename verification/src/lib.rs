//! A small in-memory key-value store that speaks a Redis-like protocol:
//! frames and their byte encoding, the commands `GET`, `SET`, `PUBLISH`,
//! `SUBSCRIBE` and `UNSUBSCRIBE`, a store whose values may expire, and a
//! publish/subscribe broker.
//!
//! The library does no input or output and has no clock. A caller feeds it
//! the bytes that arrive, tells it the time, and writes what it answers.

pub mod broker;
pub mod broker_laws;
pub mod cmd;
pub mod codec_laws;
pub mod connection;
pub mod decimal;
pub mod frame;
pub mod parse;
pub mod session;
pub mod session_laws;
pub mod store;
pub mod text;
pub mod trusted;
pub mod wire;

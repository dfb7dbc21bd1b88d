//! RESP frames, their wire codec, and the command layer of a small key/value server.
//!
//! `wire` states the encoding as spec functions; `encode` and `decode` are
//! proved against it without recursion over the nesting depth; `command`
//! parses requests and `db` carries them out; `session` decides each step of
//! a connection's request loop.
pub mod command;
pub mod db;
pub mod decode;
pub mod digits;
pub mod encode;
pub mod frame;
pub mod session;
pub mod wire;

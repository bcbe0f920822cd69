//! A minimal key-value network service core: a line-oriented binary wire
//! format of typed frames, an incremental encoder/decoder tolerant of
//! partial input, a connection layer that turns buffered bytes into whole
//! frames, a shared in-memory store, and the command logic that ties them
//! together. Everything here is pure logic over buffers and values; sockets
//! and task plumbing live with the caller.
pub mod codec;
pub mod command;
pub mod connection;
pub mod decode;
pub mod encode;
pub mod frame;
pub mod laws;
pub mod mux;
pub mod store;

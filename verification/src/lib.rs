//! A minimal key-value store speaking a Redis-like wire protocol.
//!
//! The crate covers the protocol core: decoding a raw byte stream into
//! discrete commands (`command`), the typed command model with its static
//! mutability flag, dispatching commands against the shared store
//! (`server`), and serializing replies back into the wire format (`resp`).
//! Transport, connection handling and logging live outside this crate.
pub mod command;
pub mod digits;
pub mod resp;
pub mod server;

//! Wire protocol and battle coordination for a small MOBA lockstep server.
//!
//! - `model`: the messages exchanged between clients and server, and client states.
//! - `buffer`: the byte buffer (`bytes::BytesMut`) that frames are read from and written to.
//! - `frame`: the frame format, its decoder and encoder.
//! - `server`: the server's battle state machine.
//! - `service`: configuration and the client's replies.

pub mod model;
pub mod buffer;
pub mod frame;
pub mod server;
pub mod service;

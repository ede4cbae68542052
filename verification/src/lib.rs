//! A minimal in-memory key-value store speaking a length-prefixed, typed
//! framing protocol over a byte stream.
//!
//! The crate is organised leaf-first: `frame` holds the message type and its
//! mathematical model, `codec` the verified encoder and decoder, `command`
//! the interpretation of a frame as a store operation, `store` the shared
//! key-value map, and `conn` the per-connection state machine that a network
//! front end drives.

pub mod codec;
pub mod command;
pub mod conn;
pub mod digits;
pub mod frame;
pub mod store;

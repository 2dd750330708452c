//! A small multi-room chat service: the wire types, the length-prefixed
//! frame codec with optional symmetric encryption, the nickname and room
//! registry, and the per-connection session engine of the server; and the
//! state of the terminal client's interface with its input line, and how
//! the client turns typed lines into requests.

pub mod client;
pub mod crypto;
pub mod frame;
pub mod protocol;
pub mod registry;
pub mod session;
pub mod ui;
pub mod widgets;

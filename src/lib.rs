//! Network core of a game-server front end: a byte FIFO, the length-prefixed
//! packet framing, per-connection read/write state and the connection registry.

pub mod buffer;
pub mod client;
pub mod frame;
pub mod packetproc;

//! A reliable, ordered byte stream on top of datagrams, and the line-reversal
//! service that rides on it.

pub mod escape;
pub mod message;
pub mod wire;
pub mod lines;
pub mod retransmission;
pub mod session;
pub mod laws;
pub mod server;

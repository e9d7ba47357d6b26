//! A stream cipher made of simple byte operations, negotiated at the start
//! of each connection, and the toy workshop that is served through it.

pub mod ciphers;
pub mod cipher_stream;
pub mod connection;
pub mod toy_workshop;

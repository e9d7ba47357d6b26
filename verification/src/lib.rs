//! Servers for the Protohackers problems, as far as they decide and compute.
//!
//! Nothing here opens a socket or keeps a timer. Each module takes the bytes
//! that came in and the state that it keeps, and hands back the new state and
//! the bytes to send; what it promises of them is stated in its contracts and
//! proved. The largest part is [`line_reversal`], a reliable byte stream
//! over datagrams.

pub mod decimal;
pub mod strings;
pub mod text;

pub mod prime_time;
pub mod means_to_an_end;
pub mod budget_chat;
pub mod unusual_database;
pub mod mob_in_the_middle;
pub mod speed_daemon;
pub mod line_reversal;
pub mod insecure_sockets_layer;

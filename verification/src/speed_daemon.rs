//! Speed cameras, the tickets that follow from what they see, and the frames
//! in which cameras and ticket dispatchers talk to the server.

pub mod frame;
pub mod road_map;
pub mod connection;

//! A frame codec for a small Redis-like wire protocol: a restartable
//! incremental decoder, a matching encoder, the buffering connection state
//! that bridges the two to a byte stream, and the command interpretation
//! for the two supported commands.

pub mod frame;
pub mod decode;
pub mod connection;
pub mod dispatch;
pub mod laws;

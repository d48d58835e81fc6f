//! A small server speaking the Redis serialization protocol (RESP): the frame
//! decoder and encoder, the command dispatcher, the per-connection buffer and
//! the key-value store.

pub mod command;
pub mod connection;
pub mod db;
pub mod decimal;
pub mod decode;
pub mod frame_laws;
pub mod resp;
pub mod store_laws;
mod text;

pub use command::execute;
pub use connection::Connection;
pub use db::RedisDB;
pub use decode::{read_frame, FrameParseError};
pub use resp::{encode, RESP};

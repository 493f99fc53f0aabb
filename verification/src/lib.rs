//! A codec for a small subset of the Redis serialization protocol: bulk
//! strings and arrays, decoded incrementally from a byte buffer, the `PING`
//! and `ECHO` commands built from decoded frames, and the replies' encoding.
//!
//! The grammar of frames is the spec function `frame::decode`; every
//! executable function states its result over it, over `command::command_of`
//! or over `value::encode_bulk`. The module `theory` holds what is proved of
//! the grammar as a whole. The module `buf` holds what is taken on trust from
//! the `bytes` crate.

pub mod buf;
pub mod command;
pub mod connection;
pub mod cursor;
pub mod frame;
pub mod number;
pub mod theory;
pub mod value;

pub use command::{Command, CommandError, Echo, Ping};
pub use connection::{Action, Connection, ConnectionError};
pub use cursor::Cursor;
pub use frame::{parse_message, FrameError};
pub use value::Value;

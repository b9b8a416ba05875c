//! Client-side decoding for a motion streaming service: length-prefixed
//! message framing, and the record layouts carried inside a message.
//!
//! The crate does no input or output. [`transport`] says which bytes to send
//! and what the bytes received amount to; [`format`] turns a payload into a
//! mapping from record key to values.

pub mod bytes;
pub mod format;
pub mod transport;

pub use transport::{IoErrorKind, MotionError, HEADER_SIZE};

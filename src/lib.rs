//! Copies a byte stream to a sink, dropping the run of `\n` / `\r` bytes at
//! its very end while keeping every interior newline byte for byte.
//!
//! `newline` holds the model (what the trim of a byte sequence is) and its
//! laws; `trimmer` the pending-newline state that makes the trim work one
//! chunk at a time; `stream` the source and sink capabilities and the copier.

pub mod newline;
pub mod stream;
pub mod trimmer;

pub use newline::{is_newline, last_not_newline};
pub use stream::{snickerdoodle, ByteSink, ByteSource, ChunkedSource};
pub use trimmer::Trimmer;

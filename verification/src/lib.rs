//! Push-based Protocol Buffers parser and writer.
//!
//! Incremental `receive()` parsing with handler callbacks, no generated code,
//! and a symmetric `Writer` for encoding.
//!
//! `wire_format` models the encoding, `parse_model` states what a call of
//! `Parser::receive` does, and `laws` proves how the two sides fit together.

pub mod buffer;
pub mod decode_helpers;
pub mod error;
pub mod handler;
pub mod laws;
pub mod parse_model;
pub mod parser;
pub mod sink;
pub mod wire;
pub mod wire_format;
pub mod writer;

pub use buffer::Buffer;
pub use error::{ParseError, ParseErrorKind, WriteError};
pub use handler::{DefaultHandler, EventSink, Handler};
pub use parser::Parser;
pub use sink::ByteSink;
pub use wire::{WireType, WIRETYPE_I32, WIRETYPE_I64, WIRETYPE_LEN, WIRETYPE_VARINT};
pub use writer::Writer;

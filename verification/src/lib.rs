//! Building and parsing of AT command frames.
//!
//! A command is assembled into a caller-supplied byte buffer through a staged
//! builder, and a response frame is taken apart by a fluent parser that
//! collects typed values one expected token at a time.  Both sides share an
//! integer codec for the decimal parameters of the protocol.

pub mod builder;
pub mod formatter;
pub mod parser;
pub mod tuple_concat;

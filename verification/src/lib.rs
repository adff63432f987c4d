//! Decoder for the journal export format: a stream of records, each a run of
//! named fields closed by a blank line.
//!
//! [`wire`] holds the grammar of a field and its parsers, [`reader`] the
//! decoder that takes bytes in by chunks and hands records out, [`message`]
//! the record and what can be read off it, [`filter`] the choice of records
//! and [`time`] their instants. [`encoding`] and [`stream`] hold no code
//! that runs: they state what the decoder makes of a well-formed stream,
//! wherever the stream is cut, and prove it. [`container`] tells a
//! compressed source from a plain one.
//!
//! The library does not read: a caller fetches the bytes and hands them to
//! a [`JournalBackupReader`].

pub mod container;
pub mod encoding;
pub mod filter;
pub mod message;
pub mod reader;
pub mod stream;
pub mod time;
pub mod wire;

pub use container::is_gz_magic;
pub use filter::Filter;
pub use message::{short_iso_line, JournalMessage, OutputMode, RenderError};
pub use reader::{DecodeError, JournalBackupReader, Step, CEILING};
pub use time::Timestamp;
pub use wire::{
    parse_end_of_msg, parse_key, parse_key_value, parse_value, parse_value_binary,
    parse_value_binary_int, parse_value_string, ParseError,
};

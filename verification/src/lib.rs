//! # Server-Sent Events
//!
//! A parser for event streams as the WHATWG standard defines them, and the decisions of a client
//! that reads one.
//!
//! - [`ParserState`] takes bytes as they come and gives the events that they complete. One byte
//!   order mark at the start of the stream is dropped. A line ends with a line feed, a carriage
//!   return, or both in this order. An empty line ends an event: its ID becomes the last event ID,
//!   and it is handed out where it has a `data` field, be it an empty one; an empty type stands for
//!   "message". Beyond the standard, [`SseConfig`] limits the buffer and may have values trimmed,
//!   and a `retry` value that is no number, or a line that is not UTF-8, is an error.
//! - [`Event`] is what comes out. [`Event::to_string`] writes its text form.
//! - [`EventStream`] decides, from what a response body gives, which item comes out next.
//! - [`request_head`] and [`streaming_body`] make the request that opens a stream.
//!
//! What a parser does is stated on [`parser::ParserView`], in particular by its functions `line`
//! and `feed`; the contracts of the executable functions refer to it. The module [`laws`] proves
//! what follows for a parser and a stream as a whole: that it does not matter where the bytes are
//! cut, that bounds are kept, and that a written event is read back.

pub mod config;
pub mod error;
pub mod event;
pub mod laws;
pub mod parser;
pub mod request;
pub mod stream;
pub mod text;

pub use crate::config::SseConfig;
pub use crate::config::DEFAULT_RECONNECTION_TIME;
pub use crate::config::MAX_BUFFER_SIZE;
pub use crate::error::SseError;
pub use crate::event::Event;
pub use crate::parser::find_line_end;
pub use crate::parser::parse_field;
pub use crate::parser::ParserState;
pub use crate::request::request_head;
pub use crate::request::streaming_body;
pub use crate::request::Message;
pub use crate::request::RequestHead;
pub use crate::request::API_URL;
pub use crate::request::API_VERSION;
pub use crate::stream::DecodeSource;
pub use crate::stream::EventStream;
pub use crate::stream::EventStreamBuilder;
pub use crate::stream::RawEventStream;
pub use crate::stream::StreamAction;
pub use crate::stream::StreamInput;
pub use crate::text::Utf8Error;

//! A small HTTP/1.1 engine: request parsing, routing with path parameters and
//! middleware, response serialization and the chunked transfer codec.
//!
//! The library does no I/O of its own. A server reads the first bytes of a connection
//! and hands them to [`parse_request`], dispatches the request through a [`Router`],
//! writes what [`serialize_response`] gives, and drains a streamed body through
//! [`StreamWriter`]; a chunked request body is decoded by [`StreamReader`].
pub mod chunked;
pub mod handles;
pub mod route;
pub mod scan;
pub mod types;
pub mod wire;

pub use chunked::{encode_chunk, ChunkError, StreamReader, StreamWriter, MAX_CHUNK_SIZE};
pub use route::{match_route, parse_route, Route, Router, Segment};
pub use types::{HeaderMap, Method, ParamMap, Request, Response, StatusCode, Version};
pub use wire::{declared_length, is_chunked, parse_request, serialize_response, ParsingError};

//! An incremental parser of HTTP/1.x messages. It takes a stream in fragments, hands a sink
//! the start line, the headers, the body bytes and the end of each message, and reads bodies
//! framed by `Content-Length`, by chunked transfer coding, or by the end of the stream.
pub mod classify;
pub mod errors;
pub mod fragments;
pub mod integer_decoder;
pub mod lexer;
pub mod parser;
pub mod parsers;

pub use errors::{HttpHeaderParseError, HttpParserError, IntegerDecodeError};
pub use integer_decoder::{dec_buf_to_int, hex_buf_to_int};
pub use parser::{
    BodyType, ExpectBody, HttpMessageCallbacks, HttpParser, HttpRequestCallbacks,
    HttpParserResult, HttpResponseCallbacks, ParserType, RequestLine, ResponseLine,
};
pub use parsers::{ChunkHeader, ChunkParam, Parsed, Span};

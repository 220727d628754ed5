//! The errors of the parser and of its integer decoders.
use vstd::prelude::*;

verus! {

/// Why a byte buffer could not be read as an integer.
#[derive(Debug, Clone, Copy, PartialEq, Eq, Structural)]
pub enum IntegerDecodeError {
    /// The buffer holds too many digits to be sure the value fits in a `usize`.
    TooLong(usize),
    /// The first byte that is not a digit of the base.
    InvalidChar(u8),
}

/// Why a framing header's value was refused.
#[derive(Debug, Clone, Copy, PartialEq, Eq, Structural)]
pub enum HttpHeaderParseError {
    ContentLength(IntegerDecodeError),
    UnrecognizedTransferEncoding,
}

/// Why `HttpParser` gave up on a stream.
#[derive(Debug, Clone, Copy, PartialEq, Eq, Structural)]
pub enum HttpParserError {
    BadFirstLine,
    BadHeader,
    BadHeaderValue(HttpHeaderParseError),
    BadBodyChunkHeader,
}

impl From<HttpHeaderParseError> for HttpParserError {
    fn from(e: HttpHeaderParseError) -> (r: Self)
        ensures
            r == HttpParserError::BadHeaderValue(e),
    {
        HttpParserError::BadHeaderValue(e)
    }
}

impl vstd::std_specs::convert::FromSpecImpl<HttpHeaderParseError> for HttpParserError {
    open spec fn obeys_from_spec() -> bool {
        true
    }

    open spec fn from_spec(e: HttpHeaderParseError) -> Self {
        HttpParserError::BadHeaderValue(e)
    }
}

} // verus!

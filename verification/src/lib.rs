//! Parsing of textual HTTP/1.x request and response messages.
//!
//! A raw message (a complete in-memory buffer, or a sequence of logical
//! lines) is turned into a validated record holding a start line, an
//! optional header collection, and an optional body.  Every parsing
//! function carries a contract that pins its result down exactly, stated
//! over sequence-of-character models of the input.

pub mod error;
pub mod headers;
pub mod message;
pub mod method;
pub mod number;
pub mod start_line;
pub mod strutil;

pub use error::ParseError;
pub use headers::HTTPHeaders;
pub use message::HTTPRequest;
pub use message::HTTPResponse;
pub use method::Method;
pub use start_line::RequestLine;
pub use start_line::StatusLine;

//! A CGI-style gateway front end.
//!
//! The library reads the head of HTTP/1.1 request messages line by line,
//! derives the gateway environment (`REQUEST_METHOD`, `PATH_INFO`,
//! `QUERY_STRING`, `HTTP_<NAME>`, ...) from it and renders that environment
//! as a plain-text HTTP/1.1 response. All text is handled as bytes.
//!
//! - [`grammar`]: the request-line and the header-line grammar;
//! - [`state`]: the regions of a message and the transitions between them;
//! - [`environment`]: the mapping from field names to values;
//! - [`parser`]: what one line does to state and environment;
//! - [`render`]: the response for an environment;
//! - [`cycle`]: the request cycle, step by step or over all lines at once;
//! - [`cli`]: the texts of the command-line flags;
//! - [`ascii`]: byte classes and operations on byte strings.

pub mod ascii;
pub mod cli;
pub mod cycle;
pub mod environment;
pub mod grammar;
pub mod parser;
pub mod render;
pub mod state;

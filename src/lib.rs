//! A minimal HTTP/1.x server core: request parsing, response framing and
//! per-connection request handling.

pub mod file_handler;
pub mod handler;
pub mod http_handler;
pub mod interop;
pub mod parser;
pub mod response;

//! A minimal HTTP-over-TCP request dispatcher library.
//!
//! The crate provides the verified core of a small web server: an HTTP
//! request parser, a route table with exact path matching, response
//! building and wire serialization, and a FIFO job queue that backs a
//! worker pool. Socket handling and threads live outside the library;
//! they hand byte buffers in and take wire bytes back.

pub mod headers;
pub mod model;
pub mod parser;
pub mod pool;
pub mod router;
pub mod text;
pub mod wire;

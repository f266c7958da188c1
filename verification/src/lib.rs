//! Core logic of a minimal HTTP/1.1 file server: percent-encoding and
//! decoding of URL paths, request-line and header parsing, response
//! framing, directory-listing generation, and the per-connection
//! request-processing state machine.
//!
//! All I/O (sockets, filesystem reads) is left to the surrounding
//! program; this crate works on plain values and is fully verified.

pub mod codec;
pub mod conn;
pub mod page;
pub mod request;
pub mod response;
pub mod text;

//! The per-connection request loop, as a state machine over plain
//! values.
//!
//! The surrounding program owns the socket and the filesystem.  It feeds
//! each connection events — a line read from the stream, end of input,
//! or the outcome of a filesystem lookup — and performs the returned
//! action: read another line, resolve a path, write a reply, or close.
//! Every decision of the loop lives here and is verified; the collaborator
//! only moves bytes.
//!
//! One request is processed per cycle: request line, then header lines
//! until a blank one, then the filesystem outcome.  A reply is either
//! followed by the next request on the same connection (persistent
//! connections) or, after a malformed header line, by closing it.  A
//! malformed request line or path closes the connection without a reply.

use vstd::prelude::*;
use vstd::utf8::encode_utf8;
use crate::codec::decode_spec;
use crate::codec::decode_url;
use crate::request::HeaderMap;
use crate::request::parse_header_line;
use crate::request::parse_header_line_spec;
use crate::request::parse_request_line;
use crate::request::parse_request_line_spec;
use crate::response::render_reply_head;
use crate::response::reply_head_spec;
use crate::text::trim_spec;
use crate::text::trim_str;

verus! {

/// The outcome of resolving a path on the filesystem, as the
/// collaborator reports it.
pub enum FsResult {
    /// The path named a file (its bytes) or a directory (the rendered
    /// listing page's bytes).
    Content(Vec<u8>),
    /// The path named nothing.
    NotFound,
    /// Any other filesystem failure (permissions, I/O).
    OtherError,
}

/// One event on a connection.
pub enum ConnEvent {
    /// A line was read from the stream (terminator included or already
    /// stripped; the loop trims it either way).
    Line(String),
    /// The stream ended cleanly (a read of zero bytes).
    Eof,
    /// The filesystem outcome for the path of a `Resolve` action.
    Fs(FsResult),
}

/// What the collaborator must do next.
pub enum ConnAction {
    /// Read the next line and report it (or end of input).
    ReadLine,
    /// Resolve this path on the filesystem and report the outcome.
    Resolve(String),
    /// Write `head` then `body` to the stream; then read the next line
    /// if `keep_open`, else close the connection.
    Reply { head: String, body: Vec<u8>, keep_open: bool },
    /// Close the connection without writing anything.
    Close,
}

/// A connection's state between events.
pub enum Connection {
    /// Expecting a request line.
    AwaitRequest,
    /// Request line parsed and path decoded; expecting header lines.
    AwaitHeaders { path: String, headers: HeaderMap },
    /// Headers done; expecting the filesystem outcome.
    AwaitFs,
    /// The connection is finished; no further events are accepted.
    Closed,
}

/// The fixed body sent with a 500 reply to a malformed header line.
pub open spec fn bad_request_body() -> Seq<u8> {
    encode_utf8("<html>bad requests</html>"@)
}

/// The fixed body of a 404 reply.
pub open spec fn not_found_body() -> Seq<u8> {
    encode_utf8("<html>404</html>"@)
}

/// The fixed body of a 500 reply to a failed filesystem lookup.
pub open spec fn fs_error_body() -> Seq<u8> {
    encode_utf8("<html>500</html>"@)
}

impl Connection {
    /// A fresh connection, expecting its first request line.
    pub fn new() -> (r: Connection)
        ensures
            r is AwaitRequest,
    {
        Connection::AwaitRequest
    }

    /// Feeds one event and returns the successor state and the action
    /// the collaborator must perform.  The contract below is the whole
    /// transition table of the request loop.
    pub fn step(self, ev: ConnEvent) -> (r: (Connection, ConnAction))
        requires
            !(self is Closed),
            self is AwaitFs <==> ev is Fs,
        ensures
            (match (self, ev) {
                // End of input before or between requests: close silently.
                (Connection::AwaitRequest, ConnEvent::Eof) => r.0 is Closed && r.1 is Close,
                // A request line: parse it and decode its path; on
                // failure close silently, else start collecting headers.
                (Connection::AwaitRequest, ConnEvent::Line(l)) => {
                    let t = trim_spec(l@);
                    match parse_request_line_spec(t) {
                        None => r.0 is Closed && r.1 is Close,
                        Some(mp) => match decode_spec(mp.1) {
                            None => r.0 is Closed && r.1 is Close,
                            Some(p) => {
                                &&& r.0 matches Connection::AwaitHeaders { path, headers }
                                &&& path@ == p
                                &&& headers@ == Map::<Seq<char>, Seq<char>>::empty()
                                &&& r.1 is ReadLine
                            },
                        },
                    }
                },
                // End of input inside a header block: close silently.
                (Connection::AwaitHeaders { .. }, ConnEvent::Eof) => r.0 is Closed
                    && r.1 is Close,
                // A header line: blank ends the block and asks for the
                // filesystem; a well-formed one is recorded; a malformed
                // one draws a 500 reply and closes the connection.
                (Connection::AwaitHeaders { path, headers }, ConnEvent::Line(l)) => {
                    let t = trim_spec(l@);
                    if t.len() == 0 {
                        &&& r.0 is AwaitFs
                        &&& r.1 matches ConnAction::Resolve(p) && p@ == path@
                    } else {
                        match parse_header_line_spec(t) {
                            Some(kv) => {
                                &&& r.0 matches Connection::AwaitHeaders { path: p2, headers: h2 }
                                &&& p2@ == path@
                                &&& h2@ == headers@.insert(kv.0, kv.1)
                                &&& r.1 is ReadLine
                            },
                            None => {
                                &&& r.0 is Closed
                                &&& r.1 matches ConnAction::Reply { head, body, keep_open }
                                &&& head@ == reply_head_spec(500, bad_request_body().len())
                                &&& body@ == bad_request_body()
                                &&& !keep_open
                            },
                        }
                    }
                },
                // The filesystem outcome: reply 200 with the content,
                // 404 on a miss, 500 on any other failure — and in each
                // case await the next request on the same connection.
                (_, ConnEvent::Fs(FsResult::Content(bytes))) => {
                    &&& r.0 is AwaitRequest
                    &&& r.1 matches ConnAction::Reply { head, body, keep_open }
                    &&& head@ == reply_head_spec(200, bytes@.len())
                    &&& body@ == bytes@
                    &&& keep_open
                },
                (_, ConnEvent::Fs(FsResult::NotFound)) => {
                    &&& r.0 is AwaitRequest
                    &&& r.1 matches ConnAction::Reply { head, body, keep_open }
                    &&& head@ == reply_head_spec(404, not_found_body().len())
                    &&& body@ == not_found_body()
                    &&& keep_open
                },
                (_, ConnEvent::Fs(FsResult::OtherError)) => {
                    &&& r.0 is AwaitRequest
                    &&& r.1 matches ConnAction::Reply { head, body, keep_open }
                    &&& head@ == reply_head_spec(500, fs_error_body().len())
                    &&& body@ == fs_error_body()
                    &&& keep_open
                },
                _ => true,
            }),
    {
        match (self, ev) {
            (Connection::AwaitRequest, ConnEvent::Eof) => (Connection::Closed, ConnAction::Close),
            (Connection::AwaitRequest, ConnEvent::Line(l)) => {
                let t = trim_str(l.as_str());
                match parse_request_line(t.as_str()) {
                    None => (Connection::Closed, ConnAction::Close),
                    Some((_method, raw_path)) => {
                        match decode_url(raw_path.as_str()) {
                            None => (Connection::Closed, ConnAction::Close),
                            Some(path) => (
                                Connection::AwaitHeaders { path, headers: HeaderMap::new() },
                                ConnAction::ReadLine,
                            ),
                        }
                    },
                }
            },
            (Connection::AwaitHeaders { .. }, ConnEvent::Eof) => (
                Connection::Closed,
                ConnAction::Close,
            ),
            (Connection::AwaitHeaders { path, mut headers }, ConnEvent::Line(l)) => {
                let t = trim_str(l.as_str());
                if t.as_str().unicode_len() == 0 {
                    (Connection::AwaitFs, ConnAction::Resolve(path))
                } else {
                    match parse_header_line(t.as_str()) {
                        Some((name, value)) => {
                            headers.insert(name, value);
                            (Connection::AwaitHeaders { path, headers }, ConnAction::ReadLine)
                        },
                        None => {
                            let body = "<html>bad requests</html>".as_bytes_vec();
                            let head = render_reply_head(500, body.len());
                            (
                                Connection::Closed,
                                ConnAction::Reply { head, body, keep_open: false },
                            )
                        },
                    }
                }
            },
            (_, ConnEvent::Fs(outcome)) => {
                match outcome {
                    FsResult::Content(bytes) => {
                        let head = render_reply_head(200, bytes.len());
                        (
                            Connection::AwaitRequest,
                            ConnAction::Reply { head, body: bytes, keep_open: true },
                        )
                    },
                    FsResult::NotFound => {
                        let body = "<html>404</html>".as_bytes_vec();
                        let head = render_reply_head(404, body.len());
                        (
                            Connection::AwaitRequest,
                            ConnAction::Reply { head, body, keep_open: true },
                        )
                    },
                    FsResult::OtherError => {
                        let body = "<html>500</html>".as_bytes_vec();
                        let head = render_reply_head(500, body.len());
                        (
                            Connection::AwaitRequest,
                            ConnAction::Reply { head, body, keep_open: true },
                        )
                    },
                }
            },
            _ => {
                proof {
                    assert(false);
                }
                (Connection::Closed, ConnAction::Close)
            },
        }
    }
}

} // verus!

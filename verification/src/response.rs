//! Response framing: the status line, the `Content-Length` header, and
//! the blank line before the body.
//!
//! A response is exactly `HTTP/1.1 <code> <reason>\r\nContent-Length:
//! <n>\r\n\r\n` followed by the body bytes; no other headers are ever
//! emitted.  The set of status codes is closed: asking for the reason
//! phrase of any other code is a programming error, ruled out here by
//! precondition.

use vstd::prelude::*;
use crate::text::dec_rep;
use crate::text::usize_to_string;

verus! {

/// The closed set of status codes this server can put in a status line.
pub open spec fn is_known_status(code: i32) -> bool {
    ||| code == 200
    ||| code == 201
    ||| code == 202
    ||| code == 204
    ||| code == 301
    ||| code == 302
    ||| code == 304
    ||| code == 400
    ||| code == 401
    ||| code == 403
    ||| code == 404
    ||| code == 405
    ||| code == 500
    ||| code == 501
    ||| code == 502
    ||| code == 503
    ||| code == 504
}

/// The reason phrase belonging to a known status code.
pub open spec fn reason_phrase(code: i32) -> Seq<char> {
    if code == 200 {
        "OK"@
    } else if code == 201 {
        "Created"@
    } else if code == 202 {
        "Accepted"@
    } else if code == 204 {
        "No Content"@
    } else if code == 301 {
        "Moved Permanently"@
    } else if code == 302 {
        "Found"@
    } else if code == 304 {
        "Not Modified"@
    } else if code == 400 {
        "Bad Request"@
    } else if code == 401 {
        "Unauthorized"@
    } else if code == 403 {
        "Forbidden"@
    } else if code == 404 {
        "Not Found"@
    } else if code == 405 {
        "Method Not Allowed"@
    } else if code == 500 {
        "Internal Server Error"@
    } else if code == 501 {
        "Not Implemented"@
    } else if code == 502 {
        "Bad Gateway"@
    } else if code == 503 {
        "Service Unavailable"@
    } else {
        "Gateway Timeout"@
    }
}

/// The reason phrase for a status code of the closed set.  A code
/// outside the set is a programming error, not a runtime condition, and
/// is excluded by precondition.
pub fn status_code_to_string(code: i32) -> (r: &'static str)
    requires
        is_known_status(code),
    ensures
        r@ == reason_phrase(code),
{
    if code == 200 {
        "OK"
    } else if code == 201 {
        "Created"
    } else if code == 202 {
        "Accepted"
    } else if code == 204 {
        "No Content"
    } else if code == 301 {
        "Moved Permanently"
    } else if code == 302 {
        "Found"
    } else if code == 304 {
        "Not Modified"
    } else if code == 400 {
        "Bad Request"
    } else if code == 401 {
        "Unauthorized"
    } else if code == 403 {
        "Forbidden"
    } else if code == 404 {
        "Not Found"
    } else if code == 405 {
        "Method Not Allowed"
    } else if code == 500 {
        "Internal Server Error"
    } else if code == 501 {
        "Not Implemented"
    } else if code == 502 {
        "Bad Gateway"
    } else if code == 503 {
        "Service Unavailable"
    } else {
        "Gateway Timeout"
    }
}

/// Everything of a response that precedes the body: status line,
/// `Content-Length` header, and the blank line.
pub open spec fn reply_head_spec(code: i32, body_len: nat) -> Seq<char> {
    "HTTP/1.1 "@ + dec_rep(code as nat) + " "@ + reason_phrase(code) + "\r\nContent-Length: "@
        + dec_rep(body_len) + "\r\n\r\n"@
}

/// Renders the response head for a body of `body_len` bytes.
pub fn render_reply_head(code: i32, body_len: usize) -> (r: String)
    requires
        is_known_status(code),
    ensures
        r@ == reply_head_spec(code, body_len as nat),
{
    let mut out = String::new();
    out.append("HTTP/1.1 ");
    let code_str = usize_to_string(code as usize);
    out.append(code_str.as_str());
    out.append(" ");
    out.append(status_code_to_string(code));
    out.append("\r\nContent-Length: ");
    let len_str = usize_to_string(body_len);
    out.append(len_str.as_str());
    out.append("\r\n\r\n");
    proof {
        assert(Seq::<char>::empty() + "HTTP/1.1 "@ + dec_rep(code as nat) + " "@ + reason_phrase(
            code,
        ) + "\r\nContent-Length: "@ + dec_rep(body_len as nat) + "\r\n\r\n"@ =~= reply_head_spec(
            code,
            body_len as nat,
        ));
    }
    out
}

} // verus!

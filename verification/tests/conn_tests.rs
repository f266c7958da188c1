use tinyhttpd::conn::{ConnAction, ConnEvent, Connection, FsResult};
use tinyhttpd::page::render_dir_listing;
use tinyhttpd::response::{render_reply_head, status_code_to_string};

fn line(s: &str) -> ConnEvent {
    ConnEvent::Line(String::from(s))
}

/// Runs one well-formed request up to the point where the filesystem
/// outcome is expected, returning the state awaiting it.
fn up_to_fs(path_line: &str) -> Connection {
    let conn = Connection::new();
    let (conn, action) = conn.step(line(path_line));
    assert!(matches!(action, ConnAction::ReadLine));
    let (conn, action) = conn.step(line("Host: example.com\r\n"));
    assert!(matches!(action, ConnAction::ReadLine));
    let (conn, action) = conn.step(line("\r\n"));
    match action {
        ConnAction::Resolve(_) => conn,
        _ => panic!("expected a filesystem lookup"),
    }
}

#[test]
fn eof_at_start_closes_without_reply() {
    let conn = Connection::new();
    let (conn, action) = conn.step(ConnEvent::Eof);
    assert!(matches!(action, ConnAction::Close));
    assert!(matches!(conn, Connection::Closed));
}

#[test]
fn malformed_request_line_closes_without_reply() {
    let conn = Connection::new();
    let (conn, action) = conn.step(line("GET /a/b\r\n"));
    assert!(matches!(action, ConnAction::Close));
    assert!(matches!(conn, Connection::Closed));
}

#[test]
fn bad_percent_escape_closes_without_reply() {
    let conn = Connection::new();
    let (_, action) = conn.step(line("GET /a%G1 HTTP/1.1\r\n"));
    assert!(matches!(action, ConnAction::Close));
}

#[test]
fn request_path_is_percent_decoded() {
    let conn = Connection::new();
    let (conn, _) = conn.step(line("GET /caf%C3%A9 HTTP/1.1\r\n"));
    let (_, action) = conn.step(line("\r\n"));
    match action {
        ConnAction::Resolve(p) => assert_eq!(p, "/caf\u{e9}"),
        _ => panic!("expected a filesystem lookup"),
    }
}

#[test]
fn blank_line_ends_headers_and_resolves() {
    let conn = up_to_fs("GET /a/b HTTP/1.1\r\n");
    assert!(matches!(conn, Connection::AwaitFs));
}

#[test]
fn malformed_header_line_draws_500_and_closes() {
    let conn = Connection::new();
    let (conn, _) = conn.step(line("GET /a/b HTTP/1.1\r\n"));
    let (conn, action) = conn.step(line("Malformed\r\n"));
    match action {
        ConnAction::Reply { head, body, keep_open } => {
            assert!(head.starts_with("HTTP/1.1 500 "));
            assert_eq!(body, b"<html>bad requests</html>".to_vec());
            assert!(!keep_open);
        },
        _ => panic!("expected a 500 reply"),
    }
    assert!(matches!(conn, Connection::Closed));
}

#[test]
fn eof_inside_headers_closes_without_reply() {
    let conn = Connection::new();
    let (conn, _) = conn.step(line("GET /a/b HTTP/1.1\r\n"));
    let (_, action) = conn.step(ConnEvent::Eof);
    assert!(matches!(action, ConnAction::Close));
}

#[test]
fn file_content_returns_200_with_exact_bytes() {
    let conn = up_to_fs("GET /file.txt HTTP/1.1\r\n");
    let bytes = vec![1u8, 2, 3, 255, 0, 42];
    let (conn, action) = conn.step(ConnEvent::Fs(FsResult::Content(bytes.clone())));
    match action {
        ConnAction::Reply { head, body, keep_open } => {
            assert_eq!(head, "HTTP/1.1 200 OK\r\nContent-Length: 6\r\n\r\n");
            assert_eq!(body, bytes);
            assert!(keep_open);
        },
        _ => panic!("expected a 200 reply"),
    }
    assert!(matches!(conn, Connection::AwaitRequest));
}

#[test]
fn missing_path_returns_404_with_fixed_body() {
    let conn = up_to_fs("GET /nothing HTTP/1.1\r\n");
    let (_, action) = conn.step(ConnEvent::Fs(FsResult::NotFound));
    match action {
        ConnAction::Reply { head, body, keep_open } => {
            assert_eq!(head, "HTTP/1.1 404 Not Found\r\nContent-Length: 16\r\n\r\n");
            assert_eq!(body, b"<html>404</html>".to_vec());
            assert!(keep_open);
        },
        _ => panic!("expected a 404 reply"),
    }
}

#[test]
fn other_fs_error_returns_500_with_fixed_body() {
    let conn = up_to_fs("GET /locked HTTP/1.1\r\n");
    let (_, action) = conn.step(ConnEvent::Fs(FsResult::OtherError));
    match action {
        ConnAction::Reply { head, body, keep_open } => {
            assert!(head.starts_with("HTTP/1.1 500 Internal Server Error\r\n"));
            assert_eq!(body, b"<html>500</html>".to_vec());
            assert!(keep_open);
        },
        _ => panic!("expected a 500 reply"),
    }
}

#[test]
fn connection_accepts_a_second_request_after_a_reply() {
    let conn = up_to_fs("GET /one HTTP/1.1\r\n");
    let (conn, _) = conn.step(ConnEvent::Fs(FsResult::Content(vec![b'x'])));
    assert!(matches!(conn, Connection::AwaitRequest));
    // The same connection serves a second, independent request.
    let (conn, action) = conn.step(line("GET /two HTTP/1.1\r\n"));
    assert!(matches!(action, ConnAction::ReadLine));
    let (conn, action) = conn.step(line("\r\n"));
    match action {
        ConnAction::Resolve(p) => assert_eq!(p, "/two"),
        _ => panic!("expected a filesystem lookup"),
    }
    let (conn, action) = conn.step(ConnEvent::Fs(FsResult::Content(vec![b'y'])));
    match action {
        ConnAction::Reply { head, body, keep_open } => {
            assert_eq!(head, "HTTP/1.1 200 OK\r\nContent-Length: 1\r\n\r\n");
            assert_eq!(body, vec![b'y']);
            assert!(keep_open);
        },
        _ => panic!("expected a 200 reply"),
    }
    assert!(matches!(conn, Connection::AwaitRequest));
}

#[test]
fn reason_phrases_of_the_closed_set() {
    assert_eq!(status_code_to_string(200), "OK");
    assert_eq!(status_code_to_string(404), "Not Found");
    assert_eq!(status_code_to_string(500), "Internal Server Error");
    assert_eq!(status_code_to_string(304), "Not Modified");
}

#[test]
fn reply_head_exact_framing() {
    assert_eq!(
        render_reply_head(200, 0),
        "HTTP/1.1 200 OK\r\nContent-Length: 0\r\n\r\n"
    );
    assert_eq!(
        render_reply_head(404, 16),
        "HTTP/1.1 404 Not Found\r\nContent-Length: 16\r\n\r\n"
    );
}

#[test]
fn directory_listing_one_item_per_entry() {
    let names = vec![String::from("b.txt"), String::from("a dir")];
    let page = render_dir_listing("/files", &names);
    assert_eq!(
        page,
        "<html><meta charset=\"utf-8\" /><body><ul>\
         <li><a href=\"/files/b.txt\">b.txt</a></li>\
         <li><a href=\"/files/a%20dir\">a dir</a></li>\
         </ul></body></html>"
    );
}

#[test]
fn directory_listing_keeps_trailing_slash_and_raw_labels() {
    let names = vec![String::from("caf\u{e9}")];
    let page = render_dir_listing("/d/", &names);
    // The link is percent-encoded; the visible label is the raw name.
    assert_eq!(
        page,
        "<html><meta charset=\"utf-8\" /><body><ul>\
         <li><a href=\"/d/caf%C3%A9\">caf\u{e9}</a></li>\
         </ul></body></html>"
    );
}

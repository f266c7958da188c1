use tinyhttpd::request::{parse_header_line, parse_request_line, HeaderMap};
use tinyhttpd::text::trim_str;

#[test]
fn request_line_with_three_tokens_parses() {
    let r = parse_request_line("GET /a/b HTTP/1.1");
    assert_eq!(
        r,
        Some((String::from("GET"), String::from("/a/b")))
    );
}

#[test]
fn request_line_with_two_tokens_fails() {
    assert_eq!(parse_request_line("GET /a/b"), None);
}

#[test]
fn request_line_with_four_tokens_fails() {
    assert_eq!(parse_request_line("GET /a/b HTTP/1.1 extra"), None);
}

#[test]
fn request_line_with_double_space_fails() {
    // Two consecutive spaces yield an empty token, so four tokens in all.
    assert_eq!(parse_request_line("GET  /a/b HTTP/1.1"), None);
}

#[test]
fn request_line_tokens_are_not_validated() {
    let r = parse_request_line("FETCH anything at-all");
    assert_eq!(
        r,
        Some((String::from("FETCH"), String::from("anything")))
    );
}

#[test]
fn header_line_splits_on_colon_space() {
    let r = parse_header_line("Host: example.com");
    assert_eq!(
        r,
        Some((String::from("Host"), String::from("example.com")))
    );
}

#[test]
fn header_line_parts_are_trimmed() {
    let r = parse_header_line("Accept : text/html ");
    assert_eq!(
        r,
        Some((String::from("Accept"), String::from("text/html")))
    );
}

#[test]
fn header_line_without_separator_fails() {
    assert_eq!(parse_header_line("Malformed"), None);
    assert_eq!(parse_header_line("NoSpace:after"), None);
}

#[test]
fn header_line_with_two_separators_fails() {
    assert_eq!(parse_header_line("a: b: c"), None);
}

#[test]
fn header_map_stores_and_finds() {
    let mut m = HeaderMap::new();
    m.insert(String::from("Host"), String::from("example.com"));
    m.insert(String::from("Accept"), String::from("*/*"));
    assert_eq!(m.get("Host"), Some(&String::from("example.com")));
    assert_eq!(m.get("Accept"), Some(&String::from("*/*")));
    assert_eq!(m.get("host"), None);
    assert_eq!(m.get("Missing"), None);
}

#[test]
fn header_map_last_write_wins() {
    let mut m = HeaderMap::new();
    m.insert(String::from("Host"), String::from("one"));
    m.insert(String::from("Host"), String::from("two"));
    assert_eq!(m.get("Host"), Some(&String::from("two")));
}

#[test]
fn trim_removes_surrounding_whitespace() {
    assert_eq!(trim_str("  a b \r\n"), "a b");
    assert_eq!(trim_str("\t\r\n"), "");
    assert_eq!(trim_str("x"), "x");
}

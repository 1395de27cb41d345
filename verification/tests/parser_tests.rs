use rust_tcp_server::model::Request;
use rust_tcp_server::parser::{
    parse_header, parse_method_path_version, parse_request_bytes, str_trim, ParseError,
};

fn parse_ok(input: &[u8]) -> Request {
    parse_request_bytes(input).expect("request should parse")
}

fn header<'a>(req: &'a Request, name: &str) -> Option<&'a str> {
    req.headers
        .iter()
        .find(|(k, _)| k == name)
        .map(|(_, v)| v.as_str())
}

#[test]
fn parses_request_line() {
    let req = parse_ok(b"GET /text HTTP/1.1\r\n\r\n");
    assert_eq!(req.method, "GET");
    assert_eq!(req.path, "/text");
    assert_eq!(req.version, "HTTP/1.1");
    assert!(req.headers.is_empty());
    assert!(req.body.is_empty());
}

#[test]
fn parses_headers_lowercased() {
    let req = parse_ok(b"GET / HTTP/1.1\r\nHost: example\r\nX-Thing: Two Words\r\n\r\n");
    assert_eq!(header(&req, "host"), Some("example"));
    assert_eq!(header(&req, "x-thing"), Some("Two Words"));
    assert_eq!(header(&req, "Host"), None);
}

#[test]
fn parses_body_by_content_length() {
    let req = parse_ok(b"POST /hello HTTP/1.1\r\nContent-Length: 5\r\n\r\nhello");
    assert_eq!(req.method, "POST");
    assert_eq!(req.body, b"hello");
}

#[test]
fn header_name_case_is_normalized() {
    let upper = parse_ok(b"POST /a HTTP/1.1\r\nContent-Length: 5\r\n\r\nhello");
    let lower = parse_ok(b"POST /a HTTP/1.1\r\ncontent-length: 5\r\n\r\nhello");
    assert_eq!(upper.body, lower.body);
    assert_eq!(upper.body.len(), 5);
    assert_eq!(header(&upper, "content-length"), Some("5"));
    assert_eq!(header(&lower, "content-length"), Some("5"));
}

#[test]
fn reparsing_gives_equal_requests() {
    let bytes: &[u8] = b"POST /p HTTP/1.1\r\nHost: h\r\nContent-Length: 3\r\n\r\nabc";
    let a = parse_ok(bytes);
    let b = parse_ok(bytes);
    assert_eq!(a.method, b.method);
    assert_eq!(a.path, b.path);
    assert_eq!(a.version, b.version);
    assert_eq!(a.headers, b.headers);
    assert_eq!(a.body, b.body);
}

#[test]
fn truncated_body_is_what_arrived() {
    let req = parse_ok(b"POST /p HTTP/1.1\r\nContent-Length: 10\r\n\r\nabc");
    assert_eq!(req.body, b"abc");
}

#[test]
fn unreadable_content_length_means_empty_body() {
    let req = parse_ok(b"POST /p HTTP/1.1\r\nContent-Length: abc\r\n\r\nhello");
    assert_eq!(req.body, b"");
}

#[test]
fn huge_content_length_means_empty_body() {
    let req = parse_ok(
        b"POST /p HTTP/1.1\r\nContent-Length: 99999999999999999999999999\r\n\r\nhello",
    );
    assert_eq!(req.body, b"");
}

#[test]
fn content_length_tolerates_spaces_and_plus() {
    let spaced = parse_ok(b"POST /p HTTP/1.1\r\nContent-Length:  3 \r\n\r\nabcdef");
    assert_eq!(spaced.body, b"abc");
    let plus = parse_ok(b"POST /p HTTP/1.1\r\nContent-Length: +3\r\n\r\nabcdef");
    assert_eq!(plus.body, b"abc");
}

#[test]
fn repeated_header_last_wins() {
    let req = parse_ok(b"GET / HTTP/1.1\r\nX: 1\r\nX: 2\r\n\r\n");
    assert_eq!(header(&req, "x"), Some("2"));
    assert_eq!(req.headers.len(), 1);
}

#[test]
fn empty_input_is_connection_closed() {
    assert_eq!(parse_request_bytes(b"").unwrap_err(), ParseError::ConnectionClosed);
}

#[test]
fn missing_blank_line_is_connection_closed() {
    let r = parse_request_bytes(b"GET / HTTP/1.1\r\nHost: h\r\n");
    assert_eq!(r.unwrap_err(), ParseError::ConnectionClosed);
}

#[test]
fn short_request_line_is_malformed() {
    let r = parse_request_bytes(b"GET /only\r\n\r\n");
    assert_eq!(r.unwrap_err(), ParseError::MalformedRequestLine);
}

#[test]
fn non_ascii_request_line_is_malformed() {
    let r = parse_request_bytes(b"GET /caf\xc3\xa9 HTTP/1.1\r\n\r\n");
    assert_eq!(r.unwrap_err(), ParseError::MalformedRequestLine);
}

#[test]
fn non_ascii_header_is_malformed() {
    let r = parse_request_bytes(b"GET / HTTP/1.1\r\nX: caf\xc3\xa9\r\n\r\n");
    assert_eq!(r.unwrap_err(), ParseError::MalformedHeader);
}

#[test]
fn request_line_splits_into_three_tokens() {
    let (m, p, v) = parse_method_path_version("GET /x HTTP/1.1");
    assert_eq!((m.as_str(), p.as_str(), v.as_str()), ("GET", "/x", "HTTP/1.1"));
}

#[test]
fn request_line_extra_tokens_are_ignored() {
    let (m, p, v) = parse_method_path_version("A  B\tC D");
    assert_eq!((m.as_str(), p.as_str(), v.as_str()), ("A", "B", "C"));
}

#[test]
fn request_line_too_few_tokens_yields_empties() {
    let (m, p, v) = parse_method_path_version("GET /x");
    assert_eq!((m.as_str(), p.as_str(), v.as_str()), ("", "", ""));
}

#[test]
fn header_line_splits_once() {
    assert_eq!(parse_header("Host: example"), ("Host".to_string(), "example".to_string()));
    assert_eq!(parse_header("x:  y"), ("x".to_string(), " y".to_string()));
    assert_eq!(parse_header("a: b: c"), ("a".to_string(), "b: c".to_string()));
}

#[test]
fn header_line_without_separator_is_all_name() {
    assert_eq!(parse_header("weird"), ("weird".to_string(), String::new()));
    assert_eq!(parse_header("a:b"), ("a:b".to_string(), String::new()));
}

#[test]
fn trimming_strips_both_ends() {
    assert_eq!(str_trim("  hi \r\n"), "hi");
    assert_eq!(str_trim("\t"), "");
    assert_eq!(str_trim("solid"), "solid");
}

use rust_tcp_server::model::{content_type_for_extension, file_extension, Request, Response};
use rust_tcp_server::parser::parse_request_bytes;
use rust_tcp_server::pool::JobQueue;
use rust_tcp_server::router::Server;
use rust_tcp_server::text::{echo_reply, lower_ascii, str_eq};
use rust_tcp_server::wire::{dec_string, not_found_response, serialize_response};

type Routes = Server<fn(Request) -> Response>;

fn header<'a>(headers: &'a [(String, String)], name: &str) -> Option<&'a str> {
    headers.iter().find(|(k, _)| k == name).map(|(_, v)| v.as_str())
}

fn text_handler(_req: Request) -> Response {
    let mut r = Response::new(200);
    r.with_text("Hi");
    r
}

fn first_handler(_req: Request) -> Response {
    let mut r = Response::new(200);
    r.with_text("first");
    r
}

fn second_handler(_req: Request) -> Response {
    let mut r = Response::new(200);
    r.with_text("second");
    r
}

fn echo_handler(req: Request) -> Response {
    let body = String::from_utf8(req.body.clone()).unwrap();
    let reply = echo_reply(&body);
    let mut r = Response::new(200);
    r.with_text(&reply);
    r
}

#[test]
fn dispatch_returns_handler_output_unchanged() {
    let mut server: Routes = Server::new(1000);
    server.get("/text", text_handler);
    let req = parse_request_bytes(b"GET /text HTTP/1.1\r\n\r\n").unwrap();
    let out = server.dispatch(req);
    assert_eq!(out, b"HTTP/1.1 200 OK\r\nContent-Length: 2\r\n\r\nHi");
}

#[test]
fn dispatch_unknown_path_is_404() {
    let server: Routes = Server::new(1000);
    let req = parse_request_bytes(b"GET /missing HTTP/1.1\r\n\r\n").unwrap();
    let out = server.dispatch(req);
    assert_eq!(out, b"HTTP/1.1 404 OK\r\nContent-Length: 13\r\n\r\n404 Not Found".to_vec());
}

#[test]
fn second_registration_replaces_first() {
    let mut server: Routes = Server::new(1000);
    server.get("/dup", first_handler);
    server.post("/dup", second_handler);
    let req = parse_request_bytes(b"GET /dup HTTP/1.1\r\n\r\n").unwrap();
    let out = server.dispatch(req);
    assert_eq!(out, b"HTTP/1.1 200 OK\r\nContent-Length: 6\r\n\r\nsecond");
}

#[test]
fn lookup_finds_exact_path_only() {
    let mut server: Routes = Server::new(7);
    server.get("/a", text_handler);
    assert!(server.lookup("/a").is_some());
    assert!(server.lookup("/a/").is_none());
    assert!(server.lookup("/b").is_none());
    let h = server.lookup("/a").unwrap();
    assert_eq!(h.path, "/a");
    assert_eq!(h.method, "GET");
}

#[test]
fn echo_roundtrip_over_post() {
    let mut server: Routes = Server::new(1000);
    server.post("/hello", echo_handler);
    let req = parse_request_bytes(b"POST /hello HTTP/1.1\r\nContent-Length: 5\r\n\r\nhello")
        .unwrap();
    let out = server.dispatch(req);
    let expected = b"HTTP/1.1 200 OK\r\nContent-Length: 15\r\n\r\nReceived: hello";
    assert_eq!(out, expected);
}

#[test]
fn port_is_kept() {
    let server: Routes = Server::new(7000);
    assert_eq!(server.port(), 7000);
}

#[test]
fn response_new_has_server_header_and_empty_body() {
    let r = Response::new(200);
    assert_eq!(r.response_code, 200);
    assert_eq!(r.body, "");
    assert_eq!(header(&r.headers, "Server"), Some("Rust"));
}

#[test]
fn with_text_sets_body_and_content_type() {
    let mut r = Response::new(200);
    r.with_text("hello");
    assert_eq!(r.body, "hello");
    assert_eq!(header(&r.headers, "Content-Type"), Some("text/plain"));
}

#[test]
fn with_html_sets_body_and_content_type() {
    let mut r = Response::new(200);
    r.with_html("<p>x</p>");
    assert_eq!(r.body, "<p>x</p>");
    assert_eq!(header(&r.headers, "Content-Type"), Some("text/html"));
}

#[test]
fn with_json_renders_compact_json() {
    let mut map = serde_json::Map::new();
    map.insert(
        "message".to_string(),
        serde_json::Value::String("Hello, world!".to_string()),
    );
    let mut r = Response::new(200);
    r.with_json(serde_json::Value::Object(map));
    assert_eq!(r.body, "{\"message\":\"Hello, world!\"}");
    assert_eq!(header(&r.headers, "Content-Type"), Some("application/json"));
}

#[test]
fn with_header_replaces_existing_value() {
    let mut r = Response::new(200);
    r.with_header("X-One", "1");
    r.with_header("X-One", "2");
    assert_eq!(header(&r.headers, "X-One"), Some("2"));
    assert_eq!(r.headers.iter().filter(|(k, _)| k == "X-One").count(), 1);
}

#[test]
fn with_headers_applies_all_pairs() {
    let mut r = Response::new(200);
    r.with_headers(vec![
        ("Server".to_string(), "Rust2".to_string()),
        ("Date".to_string(), "Tue, 17 Jun 2025 12:00:00 GMT".to_string()),
    ]);
    assert_eq!(header(&r.headers, "Server"), Some("Rust2"));
    assert_eq!(header(&r.headers, "Date"), Some("Tue, 17 Jun 2025 12:00:00 GMT"));
}

#[test]
fn date_header_is_set() {
    let mut r = Response::new(200);
    r.date_header();
    let date = header(&r.headers, "Date").expect("a Date header");
    assert!(date.ends_with(" GMT"));
}

#[test]
fn with_file_content_sets_type_and_length() {
    let mut r = Response::new(200);
    r.with_file_content("static/page.html", "<html></html>".to_string());
    assert_eq!(r.body, "<html></html>");
    assert_eq!(header(&r.headers, "Content-Type"), Some("text/html"));
    assert_eq!(header(&r.headers, "Content-Length"), Some("13"));
}

#[test]
fn file_extension_follows_last_dot_of_last_segment() {
    assert_eq!(file_extension("index.html"), "html");
    assert_eq!(file_extension("/a/b.c.d"), "d");
    assert_eq!(file_extension(".bashrc"), "");
    assert_eq!(file_extension("noext"), "");
    assert_eq!(file_extension("dir.d/file"), "");
}

#[test]
fn content_types_by_extension() {
    assert_eq!(content_type_for_extension("html"), "text/html");
    assert_eq!(content_type_for_extension("css"), "text/css");
    assert_eq!(content_type_for_extension("js"), "application/javascript");
    assert_eq!(content_type_for_extension("png"), "image/png");
    assert_eq!(content_type_for_extension("jpg"), "image/jpeg");
    assert_eq!(content_type_for_extension("jpeg"), "image/jpeg");
    assert_eq!(content_type_for_extension("gif"), "image/gif");
    assert_eq!(content_type_for_extension("svg"), "image/svg+xml");
    assert_eq!(content_type_for_extension("ico"), "image/x-icon");
    assert_eq!(content_type_for_extension("bin"), "application/octet-stream");
}

#[test]
fn serialization_has_fixed_shape() {
    let mut r = Response::new(201);
    r.with_text("hey");
    let out = serialize_response(&r);
    assert_eq!(out, b"HTTP/1.1 201 OK\r\nContent-Length: 3\r\n\r\nhey");
}

#[test]
fn not_found_bytes_are_fixed() {
    assert_eq!(
        not_found_response(),
        b"HTTP/1.1 404 OK\r\nContent-Length: 13\r\n\r\n404 Not Found".to_vec()
    );
}

#[test]
fn decimal_rendering() {
    assert_eq!(dec_string(0), "0");
    assert_eq!(dec_string(404), "404");
    assert_eq!(dec_string(1234567), "1234567");
}

#[test]
fn queue_delivers_jobs_once_in_order() {
    let mut q: JobQueue<u64> = JobQueue::new();
    for id in 1..=5u64 {
        q.push_job(id);
    }
    assert_eq!(q.len(), 5);
    let mut taken = Vec::new();
    while let Some(j) = q.take_job() {
        taken.push(j);
    }
    assert_eq!(taken, vec![1, 2, 3, 4, 5]);
    assert_eq!(q.len(), 0);
    assert!(q.take_job().is_none());
}

#[test]
fn echo_reply_prefixes() {
    assert_eq!(echo_reply("hello"), "Received: hello");
    assert_eq!(echo_reply(""), "Received: ");
}

#[test]
fn text_helpers() {
    assert!(str_eq("abc", "abc"));
    assert!(!str_eq("abc", "abd"));
    assert!(!str_eq("abc", "ab"));
    assert_eq!(lower_ascii("Content-Length"), "content-length");
    assert_eq!(lower_ascii("abc123"), "abc123");
}

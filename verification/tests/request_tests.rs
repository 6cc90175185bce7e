use minihttp::request::{HttpError, Method, Request};

fn parse(raw: &str) -> Request {
    Request::from(raw).expect("request should parse")
}

#[test]
fn parses_method_get() {
    let req = parse("GET /index.html HTTP/1.1\r\nHost: x\r\n\r\n");
    assert_eq!(req.method, Method::GET);
}

#[test]
fn parses_method_post() {
    let req = parse("POST /submit HTTP/1.1\r\n\r\n");
    assert_eq!(req.method, Method::POST);
}

#[test]
fn unknown_method_defaults_to_get() {
    let req = parse("BREW /coffee HTTP/1.1\r\n\r\n");
    assert_eq!(req.method, Method::GET);
}

#[test]
fn parses_path() {
    let req = parse("GET /allen/42 HTTP/1.1\r\n\r\n");
    assert_eq!(req.path, "/allen/42");
}

#[test]
fn missing_path_token_is_malformed() {
    assert!(matches!(Request::from("GET"), Err(HttpError::MalformedRequest)));
    assert!(matches!(Request::from(""), Err(HttpError::MalformedRequest)));
}

#[test]
fn header_line_split_on_first_colon_and_trimmed() {
    let req = parse("GET / HTTP/1.1\r\nUser-Agent: curl/7.1\r\n\r\n");
    assert_eq!(req.headers.get("User-Agent"), Some("curl/7.1".to_string()));
}

#[test]
fn header_value_keeps_later_colons() {
    let req = parse("GET / HTTP/1.1\r\nHost: localhost:3000\r\n\r\n");
    assert_eq!(req.headers.get("Host"), Some("localhost:3000".to_string()));
}

#[test]
fn header_value_surrounding_whitespace_trimmed() {
    let req = parse("GET / HTTP/1.1\r\nAccept:   text/html\t\r\n\r\n");
    assert_eq!(req.headers.get("Accept"), Some("text/html".to_string()));
}

#[test]
fn duplicate_header_last_write_wins() {
    let req = parse("GET / HTTP/1.1\r\nX-One: a\r\nX-One: b\r\n\r\n");
    assert_eq!(req.headers.get("X-One"), Some("b".to_string()));
}

#[test]
fn absent_header_is_none() {
    let req = parse("GET / HTTP/1.1\r\nHost: x\r\n\r\n");
    assert_eq!(req.headers.get("Missing"), None);
}

#[test]
fn lines_without_colon_are_ignored() {
    let req = parse("GET / HTTP/1.1\r\nnot a header\r\nHost: x\r\n\r\n");
    assert_eq!(req.headers.get("Host"), Some("x".to_string()));
    assert_eq!(req.headers.get("not a header"), None);
}

#[test]
fn body_is_everything_after_blank_line() {
    let req = parse("POST /p HTTP/1.1\r\nContent-Length: 11\r\n\r\nhello\r\nmore");
    assert_eq!(req.body, "hello\r\nmore");
}

#[test]
fn body_empty_without_separator() {
    let req = parse("GET / HTTP/1.1\r\nHost: x");
    assert_eq!(req.body, "");
}

#[test]
fn body_keeps_colon_lines_verbatim() {
    let req = parse("POST /p HTTP/1.1\r\n\r\nkey: value");
    assert_eq!(req.body, "key: value");
}

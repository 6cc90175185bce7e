use minihttp::response::{not_found_response, ok_response, text_response};
use minihttp::text::{strip_prefix, trim, u64_to_dec};

#[test]
fn ok_response_round_trips_body() {
    let resp = ok_response("hello");
    assert_eq!(resp, "HTTP/1.1 200 OK\r\nContent-Length: 5\r\n\r\nhello");
    // Exactly the five bytes of the body follow the blank line.
    let after = resp.split("\r\n\r\n").nth(1).unwrap();
    assert_eq!(after, "hello");
    assert_eq!(after.len(), 5);
}

#[test]
fn ok_response_empty_body() {
    assert_eq!(ok_response(""), "HTTP/1.1 200 OK\r\nContent-Length: 0\r\n\r\n");
}

#[test]
fn text_response_carries_content_type() {
    assert_eq!(
        text_response("42"),
        "HTTP/1.1 200 OK\r\nContent-Type: text/plain\r\nContent-Length: 2\r\n\r\n42"
    );
}

#[test]
fn not_found_response_has_empty_body() {
    assert_eq!(not_found_response(), "HTTP/1.1 404 Not Found\r\n\r\n");
}

#[test]
fn decimal_rendering() {
    assert_eq!(u64_to_dec(0), "0");
    assert_eq!(u64_to_dec(10), "10");
    assert_eq!(u64_to_dec(12345), "12345");
    assert_eq!(u64_to_dec(u64::MAX), "18446744073709551615");
}

#[test]
fn trim_removes_surrounding_whitespace_only() {
    assert_eq!(trim("  a b \t"), "a b");
    assert_eq!(trim("x"), "x");
    assert_eq!(trim("   "), "");
}

#[test]
fn strip_prefix_removes_leading_directory() {
    assert_eq!(strip_prefix("./pages/index.html", "./pages"), "/index.html");
    assert_eq!(strip_prefix("/other/x", "./pages"), "/other/x");
}

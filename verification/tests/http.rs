use update_ip::req::{get, parse_response, parse_response_text, parse_u16, post, put, request};

#[test]
fn get_request_message() {
    assert_eq!(
        get("example.com", "/a?b=c", &[("Authorization", "Bearer t")]),
        "GET /a?b=c HTTP/1.0\r\nHost: example.com\r\nAuthorization: Bearer t\r\n\r\n"
    );
    assert_eq!(get("h", "/", &[]), "GET / HTTP/1.0\r\nHost: h\r\n\r\n");
}

#[test]
fn put_and_post_carry_a_content_length() {
    assert_eq!(
        put("h", "/p", &[("A", "1"), ("B", "2")], "{}"),
        "PUT /p HTTP/1.0\r\nHost: h\r\nA: 1\r\nB: 2\r\nContent-Length: 2\r\n\r\n{}"
    );
    assert_eq!(
        post("h", "/p", &[], ""),
        "POST /p HTTP/1.0\r\nHost: h\r\nContent-Length: 0\r\n\r\n"
    );
    // the length counts bytes, not characters
    assert_eq!(
        post("h", "/p", &[], "é€"),
        "POST /p HTTP/1.0\r\nHost: h\r\nContent-Length: 5\r\n\r\né€"
    );
    let body = "x".repeat(1234);
    let msg = request("PATCH", "h", "/", &[], Some(&body));
    assert!(msg.starts_with("PATCH / HTTP/1.0\r\nHost: h\r\nContent-Length: 1234\r\n\r\nxxx"));
    assert!(msg.ends_with(&body));
}

#[test]
fn response_status_and_body() {
    let r = parse_response(b"HTTP/1.1 200 OK\r\nContent-Type: text/plain\r\n\r\nhello\r\n\r\nworld")
        .unwrap();
    assert_eq!(r.status, 200);
    assert_eq!(r.body, "hello\r\n\r\nworld");
    let r = parse_response_text("HTTP/1.0 404 Not Found\r\n\r\n").unwrap();
    assert_eq!(r.status, 404);
    assert_eq!(r.body, "");
}

#[test]
fn response_without_empty_line_has_empty_body() {
    let r = parse_response_text("HTTP/1.0 204\nServer: x\n").unwrap();
    assert_eq!(r.status, 204);
    assert_eq!(r.body, "");
    let r = parse_response_text("HTTP/1.0 301 Moved").unwrap();
    assert_eq!(r.status, 301);
}

#[test]
fn unreadable_responses() {
    assert!(parse_response(b"").is_none());
    assert!(parse_response_text("\r\n\r\nbody").is_none());
    assert!(parse_response_text("HTTP/1.1\r\n\r\n").is_none());
    assert!(parse_response_text("HTTP/1.1 abc OK\r\n\r\n").is_none());
    assert!(parse_response_text("HTTP/1.1 70000 OK\r\n\r\n").is_none());
    assert!(parse_response_text("HTTP/1.1  200 OK\r\n\r\n").is_none());
    assert!(parse_response_text("HTTP/1.1 -1 OK\r\n\r\n").is_none());
}

#[test]
fn status_field_is_read_as_u16() {
    let digits = |s: &str| s.chars().collect::<Vec<char>>();
    assert_eq!(parse_u16(&digits("0")), Some(0));
    assert_eq!(parse_u16(&digits("+200")), Some(200));
    assert_eq!(parse_u16(&digits("00200")), Some(200));
    assert_eq!(parse_u16(&digits("65535")), Some(65535));
    assert_eq!(parse_u16(&digits("65536")), None);
    assert_eq!(parse_u16(&digits("99999999999999999999")), None);
    assert_eq!(parse_u16(&digits("")), None);
    assert_eq!(parse_u16(&digits("+")), None);
    assert_eq!(parse_u16(&digits("-0")), None);
    assert_eq!(parse_u16(&digits("2x")), None);
    assert_eq!(parse_u16(&digits("200\r")), None);
}

#[test]
fn invalid_utf8_is_replaced() {
    let r = parse_response(b"HTTP/1.0 200 OK\r\n\r\nab\xffcd").unwrap();
    assert_eq!(r.status, 200);
    assert_eq!(r.body, "ab\u{FFFD}cd");
}

#[test]
fn written_status_reads_back() {
    for status in [0u16, 7, 99, 200, 404, 65535] {
        let text = format!("HTTP/1.1 {} Some reason\r\n\r\nthe body", status);
        let r = parse_response_text(&text).unwrap();
        assert_eq!(r.status, status);
        assert_eq!(r.body, "the body");
    }
}

#[test]
fn long_response_without_empty_line() {
    let text = format!("HTTP/1.1 200 OK\r\n{}", "a".repeat(2_000_000));
    let r = parse_response_text(&text).unwrap();
    assert_eq!(r.status, 200);
    assert_eq!(r.body, "");
}

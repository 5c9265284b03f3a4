use rust_web_server::http::response::{capitalize_header_key, Headers, Response, StatusCode};

#[test]
fn test_status_code() {
    assert_eq!(StatusCode::OK().as_u16(), 200);
    assert_eq!(StatusCode::OK().canonical_reason(), Some("OK"));
    assert_eq!(StatusCode::OK().as_str(), "200 OK");

    assert_eq!(StatusCode(999).canonical_reason(), None);
    assert_eq!(StatusCode(999).as_str(), "999");
}

#[test]
fn test_headers() {
    let mut headers = Headers::new();
    headers.set("Content-Type", "application/json");
    headers.set("  X-Custom-Header  ", "  my-value  ");

    assert_eq!(
        headers.get("content-type"),
        Some(&"application/json".to_string())
    );
    assert_eq!(
        headers.get("Content-TYPE"),
        Some(&"application/json".to_string())
    );
    assert_eq!(
        headers.get("x-custom-header"),
        Some(&"my-value".to_string())
    );
}

#[test]
fn test_response_send() {
    let mut response = Response::new();
    response.status(StatusCode::CREATED());
    response.headers.set("x-test", "value");
    response.headers.set("cOnTeNt-TyPe", "text/plain");
    let bytes = response.encode(b"world");
    let response_str = String::from_utf8_lossy(&bytes);
    assert!(response_str.contains("HTTP/1.1 201 Created"));
    assert!(response_str.contains("Server: RustWebServer/0.1"));
    assert!(response_str.contains("X-Test: value"));
    assert!(response_str.contains("Content-Type: text/plain"));
    assert!(response_str.contains("Content-Length: 5"));
    assert!(response_str.ends_with("world"));
}

#[test]
fn encode_writes_headers_in_insertion_order() {
    let mut response = Response::new();
    response.headers.set("x-test", "value");
    let bytes = response.encode(b"hi");
    assert_eq!(
        String::from_utf8(bytes).unwrap(),
        "HTTP/1.1 200 OK\r\nServer: RustWebServer/0.1\r\nX-Test: value\r\nContent-Length: 2\r\n\r\nhi"
    );
}

#[test]
fn encode_keeps_a_given_content_length() {
    let mut response = Response::new();
    response.headers.set("Content-Length", "7");
    let bytes = response.encode(b"abc");
    let text = String::from_utf8(bytes).unwrap();
    assert!(text.contains("Content-Length: 7\r\n"));
    assert!(!text.contains("Content-Length: 3"));
}

#[test]
fn reply_sets_status_and_type() {
    let mut response = Response::new();
    let bytes = response.reply(StatusCode::NOT_FOUND(), "application/json", b"{}");
    assert_eq!(
        String::from_utf8(bytes).unwrap(),
        "HTTP/1.1 404 Not Found\r\nServer: RustWebServer/0.1\r\nContent-Type: application/json\r\nContent-Length: 2\r\n\r\n{}"
    );
}

#[test]
fn capitalize_header_names() {
    assert_eq!(capitalize_header_key("content-type"), "Content-Type");
    assert_eq!(capitalize_header_key("sec-websocket-accept"), "Sec-WebSocket-Accept");
    assert_eq!(capitalize_header_key("x--y-"), "X--Y-");
    assert_eq!(capitalize_header_key("éTAG"), "Étag");
    assert_eq!(capitalize_header_key(""), "");
}

#[test]
fn capitalizing_twice_changes_nothing() {
    for key in ["cOnTeNt-TyPe", "x-test", "SEC-WEBSOCKET-KEY", "-a--b-", "already-Done"] {
        let once = capitalize_header_key(key);
        assert_eq!(capitalize_header_key(&once), once);
        assert!(once.eq_ignore_ascii_case(key));
    }
}

#[test]
fn set_keeps_names_lower_and_values_trimmed() {
    let mut headers = Headers::new();
    headers.set("  X-Mixed  ", "  a b  ");
    headers.set("x-MIXED", "\tlast\t");
    headers.set("Accept", "*/*");
    assert_eq!(headers.map.len(), 2);
    let (k, v) = headers.map.entry(0);
    assert_eq!((k.as_str(), v.as_str()), ("x-mixed", "last"));
    let (k, v) = headers.map.entry(1);
    assert_eq!((k.as_str(), v.as_str()), ("accept", "*/*"));
}

#[test]
fn status_codes_and_reasons() {
    assert_eq!(StatusCode::INTERNAL_SERVER_ERROR().as_str(), "500 Internal Server Error");
    assert_eq!(StatusCode::UNAUTHORIZED().canonical_reason(), Some("Unauthorized"));
    assert_eq!(StatusCode(0).as_str(), "0");
    assert_eq!(StatusCode(65535).as_str(), "65535");
}

#[test]
fn headers_trim_and_lowercase_names() {
    let mut headers = Headers::new();
    headers.set(" Accept ", " */* ");
    headers.set("ACCEPT", "text/html");
    assert_eq!(headers.get("accept"), Some(&"text/html".to_string()));
    assert_eq!(headers.map.len(), 1);
    assert_eq!(headers.get(" accept"), None);
}

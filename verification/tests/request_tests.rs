use rust_web_server::http::extensions::Extensions;
use rust_web_server::http::request::{invalid_json_response, parse_head, Request, RequestError};

fn lines(text: &[&str]) -> Vec<String> {
    text.iter().map(|s| s.to_string()).collect()
}

#[test]
fn test_extensions() {
    let mut exts = Extensions::new();
    assert!(exts.get::<String>().is_none());

    exts.insert("hello".to_string());
    assert_eq!(exts.get::<String>(), Some(&"hello".to_string()));

    let val = exts.get_mut::<String>().unwrap();
    *val = "world".to_string();
    assert_eq!(exts.get::<String>(), Some(&"world".to_string()));
}

#[test]
fn test_request_parse() {
    let head = parse_head(&lines(&[
        "POST /test?name=rust&age=10 HTTP/1.1",
        "Host: localhost",
        "Content-Length: 17",
        "Content-Type: application/json",
    ]))
    .unwrap();
    assert_eq!(head.content_length, 17);
    let request = Request::from_head(head, b"{\"hello\":\"world\"}".to_vec());

    assert_eq!(request.method, "POST");
    assert_eq!(request.path, "/test");
    assert_eq!(request.query_params.get("name"), Some(&"rust".to_string()));
    assert_eq!(request.query_params.get("age"), Some(&"10".to_string()));
    assert_eq!(request.headers.get("host"), Some(&"localhost".to_string()));
    assert_eq!(
        request.headers.get("content-type"),
        Some(&"application/json".to_string())
    );
    assert_eq!(
        request.headers.get("content-length"),
        Some(&"17".to_string())
    );
    assert_eq!(request.body, b"{\"hello\":\"world\"}");
}

#[test]
fn parse_head_errors_name_the_missing_part() {
    assert_eq!(parse_head(&lines(&[])).err(), Some(RequestError::Empty));
    assert_eq!(parse_head(&lines(&["   "])).err(), Some(RequestError::MissingMethod));
    assert_eq!(parse_head(&lines(&["GET"])).err(), Some(RequestError::MissingPath));
    assert_eq!(parse_head(&lines(&["GET /x"])).err(), Some(RequestError::MissingVersion));
    assert_eq!(RequestError::MissingVersion.message(), "Missing HTTP version");
}

#[test]
fn parse_head_query_and_header_details() {
    let head = parse_head(&lines(&[
        "  GET\t/a?x=1&&y&z=2?w=3   HTTP/1.0  ",
        "no colon here",
        "X-Dup: first",
        "x-dup:  second ",
        "Content-Length: nope",
    ]))
    .unwrap();
    assert_eq!(head.method, "GET");
    assert_eq!(head.path, "/a");
    assert_eq!(head.version, "HTTP/1.0");
    // the query stops at the second '?'; pieces without '=' are skipped
    assert_eq!(head.query_params.get("x"), Some(&"1".to_string()));
    assert_eq!(head.query_params.get("z"), Some(&"2".to_string()));
    assert_eq!(head.query_params.get("y"), None);
    assert_eq!(head.query_params.get("w"), None);
    // a later field with the same name wins, whatever the case
    assert_eq!(head.headers.get("X-DUP"), Some(&"second".to_string()));
    assert_eq!(head.headers.get("no colon here"), None);
    // a length that is not a number counts as 0
    assert_eq!(head.content_length, 0);
}

#[test]
fn parse_head_length_with_plus_sign_and_overflow() {
    let head = parse_head(&lines(&["GET / HTTP/1.1", "content-length: +42"])).unwrap();
    assert_eq!(head.content_length, 42);
    let head = parse_head(&lines(&[
        "GET / HTTP/1.1",
        "Content-Length: 99999999999999999999999999",
    ]))
    .unwrap();
    assert_eq!(head.content_length, 0);
}

#[test]
fn invalid_json_answer_bytes() {
    let bytes = invalid_json_response();
    let text = String::from_utf8(bytes).unwrap();
    assert_eq!(
        text,
        "HTTP/1.1 400 Bad Request\r\nContent-Type: application/json\r\nContent-Length: 33\r\n\r\n{\"error\": \"Invalid JSON payload\"}"
    );
}

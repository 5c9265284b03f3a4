use rust_web_server::mrequest::mroutes::{index, index_body, not_found};
use rust_web_server::mrequest::{handle_request, parse_request, Page, Request};

fn lines(text: &[&str]) -> Vec<String> {
    text.iter().map(|s| s.to_string()).collect()
}

#[test]
fn minimal_parse_keeps_target_and_case() {
    let head = parse_request(&lines(&["POST /echo?x=1 HTTP/1.1", "Content-Length: 3", "X-A: b"])).unwrap();
    assert_eq!(head.path, "/echo?x=1");
    assert_eq!(head.content_length, 3);
    assert_eq!(head.headers.get("X-A"), Some(&"b".to_string()));
    assert_eq!(head.headers.get("x-a"), None);
    let lower = parse_request(&lines(&["POST / HTTP/1.1", "content-length: 3"])).unwrap();
    assert_eq!(lower.content_length, 0);
    assert!(parse_request(&lines(&["GET /"])).is_none());
    assert!(parse_request(&lines(&[])).is_none());
}

#[test]
fn minimal_pages() {
    let get = Request::from_head(parse_request(&lines(&["GET / HTTP/1.1"])).unwrap(), vec![]);
    assert_eq!(handle_request(&get), Page::Index);
    let echo = Request::from_head(parse_request(&lines(&["POST /echo HTTP/1.1"])).unwrap(), vec![]);
    assert_eq!(handle_request(&echo), Page::Echo);
    let other = Request::from_head(parse_request(&lines(&["GET /echo HTTP/1.1"])).unwrap(), vec![]);
    assert_eq!(handle_request(&other), Page::NotFound);
    let text = String::from_utf8(index(&get)).unwrap();
    assert_eq!(
        text,
        "HTTP/1.1 200 OK\r\nContent-Type: text/plain\r\nContent-Length: 87\r\n\r\nThis is a web server written in Rust without any framework.\nYou are on the GET / path.\n"
    );
    assert_eq!(index_body("A", "B"), "This is a web server written in Rust without any framework.\nYou are on the A B path.\n");
    assert_eq!(
        String::from_utf8(not_found()).unwrap(),
        "HTTP/1.1 404 Not Found\r\nContent-Type: application/json\r\nContent-Length: 22\r\n\r\n{\"error\": \"Not found\"}"
    );
}

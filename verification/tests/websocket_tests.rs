use rust_web_server::http::request::{parse_head, Request};
use rust_web_server::server::websocket::{
    accept_key, extended_length_size, handshake_response, make_ws_frame, message_frame,
    parse_frame_header, payload_length, unmask, FrameAction, Message, MessageAssembler,
    UpgradeError,
};

#[test]
fn small_frame_layout() {
    assert_eq!(make_ws_frame(1, b"hi"), vec![0x81, 2, b'h', b'i']);
    // only the low four bits of the opcode are kept
    assert_eq!(make_ws_frame(0x1A, b""), vec![0x8A, 0]);
}

#[test]
fn medium_and_large_frame_lengths() {
    let p = vec![7u8; 300];
    let f = make_ws_frame(2, &p);
    assert_eq!(&f[..4], &[0x82, 126, 0x01, 0x2C]);
    assert_eq!(f.len(), 4 + 300);
    let big = vec![0u8; 70000];
    let f = make_ws_frame(2, &big);
    assert_eq!(&f[..10], &[0x82, 127, 0, 0, 0, 0, 0, 0x01, 0x11, 0x70]);
    assert_eq!(f.len(), 10 + 70000);
}

#[test]
fn frame_header_round_trip() {
    let p = vec![1u8; 300];
    let f = make_ws_frame(9, &p);
    let (fin, opcode, masked, len7) = parse_frame_header(&f[..2]);
    assert!(fin);
    assert_eq!(opcode, 9);
    assert!(!masked);
    assert_eq!(len7, 126);
    let n = extended_length_size(len7);
    assert_eq!(n, 2);
    assert_eq!(payload_length(len7, &f[2..2 + n]), 300);
    assert_eq!(payload_length(5, &[]), 5);
    assert_eq!(payload_length(127, &[0, 0, 0, 0, 0, 1, 0, 0]), 65536);
}

#[test]
fn header_bits() {
    assert_eq!(parse_frame_header(&[0x01, 0xFE]), (false, 1, true, 126));
    assert_eq!(parse_frame_header(&[0x88, 0x00]), (true, 8, false, 0));
}

#[test]
fn unmask_twice_restores() {
    let mask = [0x37, 0xfa, 0x21, 0x3d];
    let mut p = b"Hello".to_vec();
    unmask(&mut p, &mask);
    assert_eq!(p, vec![0x7f, 0x9f, 0x4d, 0x51, 0x58]);
    unmask(&mut p, &mask);
    assert_eq!(p, b"Hello".to_vec());
}

#[test]
fn fragmented_text_is_assembled() {
    let mut r = MessageAssembler::new();
    assert!(r.accept_header(1, true));
    assert!(matches!(r.finish_frame(false, 1, b"Hel".to_vec()), FrameAction::Continue));
    assert!(r.accept_header(0, true));
    match r.finish_frame(true, 0, b"lo".to_vec()) {
        FrameAction::Deliver(Message::Text(s)) => assert_eq!(s, "Hello"),
        _ => panic!("expected a text message"),
    }
}

#[test]
fn binary_and_invalid_text() {
    let mut r = MessageAssembler::new();
    assert!(r.accept_header(2, true));
    match r.finish_frame(true, 2, vec![0, 255]) {
        FrameAction::Deliver(Message::Binary(b)) => assert_eq!(b, vec![0, 255]),
        _ => panic!("expected a binary message"),
    }
    assert!(r.accept_header(1, true));
    assert!(matches!(r.finish_frame(true, 1, vec![0xff, 0xfe]), FrameAction::Continue));
}

#[test]
fn control_frames() {
    let mut r = MessageAssembler::new();
    assert!(!r.accept_header(1, false));
    assert!(matches!(r.finish_frame(true, 8, vec![]), FrameAction::Close));
    match r.finish_frame(true, 9, b"p".to_vec()) {
        FrameAction::Pong(p) => assert_eq!(p, b"p".to_vec()),
        _ => panic!("expected a pong"),
    }
    match r.finish_frame(true, 10, b"q".to_vec()) {
        FrameAction::Deliver(Message::Pong(p)) => assert_eq!(p, b"q".to_vec()),
        _ => panic!("expected a pong message"),
    }
    assert!(matches!(r.finish_frame(true, 11, vec![]), FrameAction::UnknownControl(11)));
}

#[test]
fn message_frames() {
    assert_eq!(message_frame(&Message::Close), vec![0x88, 0]);
    assert_eq!(message_frame(&Message::Text("é".to_string())), vec![0x81, 2, 0xC3, 0xA9]);
    assert_eq!(message_frame(&Message::Pong(vec![1])), vec![0x8A, 1, 1]);
}

#[test]
fn accept_key_of_rfc_example() {
    assert_eq!(accept_key("dGhlIHNhbXBsZSBub25jZQ=="), "s3pPLMBiTxaQ9kYGzzhZRbK+xOo=");
}

#[test]
fn handshake_answer() {
    let head = parse_head(&vec![
        "GET /ws?chat_id=1 HTTP/1.1".to_string(),
        "sec-websocket-key: dGhlIHNhbXBsZSBub25jZQ==".to_string(),
    ])
    .unwrap();
    let request = Request::from_head(head, vec![]);
    let bytes = handshake_response(&request).unwrap();
    assert_eq!(
        String::from_utf8(bytes).unwrap(),
        "HTTP/1.1 101 Switching Protocols\r\nUpgrade: websocket\r\nConnection: Upgrade\r\nSec-WebSocket-Accept: s3pPLMBiTxaQ9kYGzzhZRbK+xOo=\r\n\r\n"
    );
    let head = parse_head(&vec!["GET /ws HTTP/1.1".to_string()]).unwrap();
    let request = Request::from_head(head, vec![]);
    assert_eq!(handshake_response(&request).err(), Some(UpgradeError::MissingKey));
}

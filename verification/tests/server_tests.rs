use rust_web_server::http::request::{parse_head, Request};
use rust_web_server::http::response::Response;
use rust_web_server::server::chat::{ChatSession, ChatState, ChatStep};
use rust_web_server::server::jwt::{Claims, Jwt, TokenError};
use rust_web_server::server::middleware::{auth_token, bearer_token, Middleware};
use rust_web_server::server::models::{CreateAccountRequest, UserResponse};
use rust_web_server::server::repo::{check_login, prepare_user, record_from_hash, RegisterError};
use rust_web_server::server::response::{send_response, StatusCode};
use rust_web_server::server::routes::{error_reply, index_reply, requires_auth, route, user_id_of, ApiError, Route};
use rust_web_server::server::websocket::{Handshake, Message, WsEvent, WsSender};

fn request(lines: &[&str]) -> Request {
    let lines: Vec<String> = lines.iter().map(|s| s.to_string()).collect();
    Request::from_head(parse_head(&lines).unwrap(), vec![])
}

#[test]
fn routes_by_method_and_path() {
    assert_eq!(route(&request(&["GET / HTTP/1.1"])), Route::Index);
    assert_eq!(route(&request(&["POST /login HTTP/1.1"])), Route::Login);
    assert_eq!(route(&request(&["POST /register HTTP/1.1"])), Route::Register);
    assert_eq!(route(&request(&["GET /user?x=1 HTTP/1.1"])), Route::User);
    assert_eq!(route(&request(&["GET /ws?chat_id=1&user_id=2 HTTP/1.1"])), Route::WsUpgrade);
    assert_eq!(route(&request(&["GET /login HTTP/1.1"])), Route::NotFound);
}

#[test]
fn error_answers() {
    let mut response = Response::new();
    let bytes = error_reply(&mut response, ApiError::InvalidCredentials);
    assert_eq!(
        String::from_utf8(bytes).unwrap(),
        "HTTP/1.1 401 Unauthorized\r\nServer: RustWebServer/0.1\r\nContent-Type: application/json\r\nContent-Length: 32\r\n\r\n{\"error\": \"Invalid credentials\"}"
    );
    let mut response = Response::new();
    let bytes = error_reply(&mut response, ApiError::NotFound);
    let text = String::from_utf8(bytes).unwrap();
    assert!(text.starts_with("HTTP/1.1 404 Not Found\r\n"));
    assert!(text.ends_with("{\"error\": \"Not found\"}"));
}

#[test]
fn index_answer() {
    let mut response = Response::new();
    let bytes = index_reply(&request(&["GET /?a=b HTTP/1.1"]), &mut response);
    let text = String::from_utf8(bytes).unwrap();
    assert!(text.starts_with("HTTP/1.1 200 OK\r\n"));
    assert!(text.contains("Content-Type: text/plain\r\n"));
    assert!(text.ends_with(
        "This is a web server written in Rust without any framework.\nYou are on the GET / path.\n"
    ));
}

#[test]
fn plain_status_responses() {
    let bytes = send_response(StatusCode::Created, "text/plain", b"ok");
    assert_eq!(
        String::from_utf8(bytes).unwrap(),
        "HTTP/1.1 201 Created\r\nContent-Type: text/plain\r\nContent-Length: 2\r\n\r\nok"
    );
    assert_eq!(StatusCode::Okay.as_str(), "200 OK");
}

#[test]
fn bearer_tokens() {
    assert_eq!(bearer_token("Bearer abc"), "abc");
    assert_eq!(bearer_token("Bearer Bearer abc"), "abc");
    assert_eq!(bearer_token("bearer abc"), "bearer abc");
    let r = request(&["GET /user HTTP/1.1", "authorization: Bearer t0k"]);
    assert_eq!(auth_token(&r), Ok("t0k".to_string()));
    let r = request(&["GET /user HTTP/1.1"]);
    assert_eq!(auth_token(&r), Err(ApiError::AuthorizationMissing));
}

fn now() -> usize {
    std::time::SystemTime::now().duration_since(std::time::UNIX_EPOCH).unwrap().as_secs() as usize
}

#[test]
fn tokens_sign_and_check() {
    let jwt = Jwt::new("s3cret".to_string());
    let claims = Claims::for_user(7, now());
    let token = jwt.encode(&claims).unwrap();
    let back = jwt.decode(&token).unwrap();
    assert_eq!(back.sub, claims.sub);
    assert_eq!(back.exp, claims.exp);
    let other = Jwt::new("other".to_string());
    assert!(matches!(other.decode(&token), Err(TokenError::Rejected(_))));
    let expired = jwt.encode(&Claims { sub: "x".to_string(), exp: 1 }).unwrap();
    assert!(matches!(jwt.decode(&expired), Err(TokenError::Rejected(_))));
    assert!(matches!(jwt.decode("not a token"), Err(TokenError::Rejected(_))));
    let issued = jwt.token_for(7, now()).unwrap();
    assert_eq!(jwt.decode(&issued).unwrap().sub, "00000000-0000-0000-0000-000000000007");
}

#[test]
fn token_fields_make_claims() {
    let c = Claims::from_fields(Some("a".to_string()), Some(5)).unwrap();
    assert_eq!((c.sub.as_str(), c.exp), ("a", 5));
    assert!(Claims::from_fields(None, Some(5)).is_none());
    assert!(Claims::from_fields(Some("a".to_string()), None).is_none());
}

#[test]
fn check_auth_answers() {
    let middleware = Middleware::new(Jwt::new("k".to_string()));
    let token = middleware.jwt.token_for(9, now()).unwrap();
    let mut r = request(&["GET /user HTTP/1.1", &format!("Authorization: Bearer {}", token)]);
    let mut response = Response::new();
    let claims = middleware.check_auth(&mut r, &mut response).unwrap();
    assert_eq!(claims.sub, "00000000-0000-0000-0000-000000000009");
    assert_eq!(user_id_of(r.extensions.get::<Claims>()), Ok(9));

    let mut r = request(&["GET /user HTTP/1.1"]);
    let mut response = Response::new();
    match middleware.check_auth(&mut r, &mut response) {
        Err((e, bytes)) => {
            assert_eq!(e, ApiError::AuthorizationMissing);
            let text = String::from_utf8(bytes).unwrap();
            assert!(text.starts_with("HTTP/1.1 401 Unauthorized\r\n"));
            assert!(text.ends_with("{\"error\": \"Authorization header is missing\"}"));
        }
        Ok(_) => panic!("expected a refusal"),
    }

    let mut r = request(&["GET /user HTTP/1.1", "Authorization: Bearer junk"]);
    let mut response = Response::new();
    match middleware.check_auth(&mut r, &mut response) {
        Err((e, bytes)) => {
            assert_eq!(e, ApiError::InvalidToken);
            assert!(String::from_utf8(bytes).unwrap().ends_with("{\"error\": \"Invalid token\"}"));
        }
        Ok(_) => panic!("expected a refusal"),
    }
}

#[test]
fn claims_and_user_ids() {
    let id: u128 = 0xa1a2a3a4b1b2c1c2d1d2d3d4d5d6d7d8;
    let claims = Claims::for_user(id, 1000);
    assert_eq!(claims.sub, "a1a2a3a4-b1b2-c1c2-d1d2-d3d4d5d6d7d8");
    assert_eq!(claims.exp, 1000 + 86400);
    assert_eq!(user_id_of(Some(&claims)), Ok(id));
    assert_eq!(user_id_of(None), Err(ApiError::Unauthorized));
    let bad = Claims { sub: "not-a-uuid".to_string(), exp: 0 };
    assert_eq!(user_id_of(Some(&bad)), Err(ApiError::InvalidUserId));
    let braced = Claims { sub: "{A1A2A3A4-B1B2-C1C2-D1D2-D3D4D5D6D7D8}".to_string(), exp: 0 };
    assert_eq!(user_id_of(Some(&braced)), Ok(id));
}

#[test]
fn registered_password_logs_in() {
    let req = CreateAccountRequest {
        username: "ann".to_string(),
        email: "ann@example.com".to_string(),
        password: "s3cret".to_string(),
    };
    let user = prepare_user(req, 7).unwrap();
    assert_eq!(user.id, 7);
    assert_eq!(user.username, "ann");
    assert_ne!(user.password, "s3cret");
    assert!(check_login(Some(user.clone()), "s3cret").is_some());
    assert!(check_login(Some(user.clone()), "wrong").is_none());
    assert!(check_login(None, "s3cret").is_none());
    let response = UserResponse::from_record(user);
    assert_eq!(response.email, "ann@example.com");
}

#[test]
fn only_the_user_route_needs_a_token() {
    assert!(requires_auth(Route::User));
    for r in [Route::Index, Route::Login, Route::Register, Route::WsUpgrade, Route::NotFound] {
        assert!(!requires_auth(r));
    }
}

#[test]
fn records_take_the_hash_or_refuse() {
    let user = record_from_hash("bo".to_string(), "bo@example.com".to_string(), 9, Ok("$2b$hash".to_string())).unwrap();
    assert_eq!(user.id, 9);
    assert_eq!(user.username, "bo");
    assert_eq!(user.email, "bo@example.com");
    assert_eq!(user.password, "$2b$hash");
    let refused = record_from_hash(
        "bo".to_string(),
        "bo@example.com".to_string(),
        9,
        Err(bcrypt::BcryptError::CostNotAllowed(3)),
    );
    assert!(matches!(refused, Err(RegisterError::Hash)));
}

fn handshake(query: &str) -> Handshake {
    let r = request(&[&format!("GET /ws?{} HTTP/1.1", query)]);
    Handshake { query_params: r.query_params, headers: r.headers }
}

#[test]
fn chat_rooms_relay_and_forget() {
    let (tx1, mut rx1) = tokio::sync::mpsc::unbounded_channel();
    let (tx2, mut rx2) = tokio::sync::mpsc::unbounded_channel();
    let mut state = ChatState::new();
    state.connect(5, 1, 100, WsSender::new(tx1));
    state.connect(5, 2, 200, WsSender::new(tx2));
    assert_eq!(state.recipients(5, 1), vec![2]);
    assert_eq!(state.recipients(6, 1), Vec::<usize>::new());
    assert_eq!(state.send_message(5, 1, Message::Text("hi".to_string())), vec![2]);
    assert_eq!(state.send_message(6, 1, Message::Text("lost".to_string())), Vec::<usize>::new());
    match rx2.try_recv() {
        Ok(Message::Text(s)) => assert_eq!(s, "hi"),
        _ => panic!("expected the message"),
    }
    assert!(rx1.try_recv().is_err());
    state.unregister(2);
    assert_eq!(state.recipients(5, 1), Vec::<usize>::new());
    state.unregister(1);
    assert_eq!(state.recipients(5, 9), Vec::<usize>::new());
}

#[test]
fn chat_sessions() {
    let (tx, _rx) = tokio::sync::mpsc::unbounded_channel();
    let mut state = ChatState::new();
    let mut session = ChatSession::new();
    let step = session.on_event(
        &mut state,
        WsEvent::Connect { socket_id: 3, handshake: handshake("chat_id=9&user_id=4"), sender: WsSender::new(tx) },
    );
    assert_eq!(step, ChatStep::Connected { socket_id: 3, user_id: 4, chat_id: 9 });
    assert_eq!(session.socket_id, Some(3));
    let (tx_peer, mut rx_peer) = tokio::sync::mpsc::unbounded_channel();
    let mut peer = ChatSession::new();
    peer.on_event(
        &mut state,
        WsEvent::Connect { socket_id: 4, handshake: handshake("chat_id=9&user_id=5"), sender: WsSender::new(tx_peer) },
    );
    assert_eq!(
        session.on_event(&mut state, WsEvent::Message(Message::Text("yo".to_string()))),
        ChatStep::Relayed { to: vec![4] }
    );
    match rx_peer.try_recv() {
        Ok(Message::Text(s)) => assert_eq!(s, "yo"),
        _ => panic!("expected the message"),
    }
    assert_eq!(session.on_event(&mut state, WsEvent::Disconnect), ChatStep::Disconnected);
    assert_eq!(
        peer.on_event(&mut state, WsEvent::Message(Message::Close)),
        ChatStep::Relayed { to: vec![] }
    );
    assert!(rx_peer.try_recv().is_err());
    assert_eq!(peer.on_event(&mut state, WsEvent::Disconnect), ChatStep::Disconnected);
    assert_eq!(state.recipients(9, 0), Vec::<usize>::new());

    let (tx, _rx) = tokio::sync::mpsc::unbounded_channel();
    let mut other = ChatSession::new();
    let step = other.on_event(
        &mut state,
        WsEvent::Connect { socket_id: 8, handshake: handshake("chat_id=x&user_id=4"), sender: WsSender::new(tx) },
    );
    assert_eq!(step, ChatStep::Rejected { socket_id: 8 });
    assert_eq!(other.socket_id, None);
    assert_eq!(
        other.on_event(&mut state, WsEvent::Message(Message::Close)),
        ChatStep::Relayed { to: vec![] }
    );
}

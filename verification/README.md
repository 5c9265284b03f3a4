# rust_web_server

A small HTTP/1.1 and WebSocket server with accounts (bcrypt, JWT) and chat
rooms, whose request handling is a library verified with Verus.

- `src/` is the verified library:
  - `http/`: request heads (request line, query, header fields), status
    codes, case-insensitive headers and the bytes of a response;
  - `server/`: routing, API error answers, bearer tokens, signing and
    checking tokens, password checks, user ids, WebSocket framing and handshake, and the
    chat-room registry;
  - `mrequest/`: a minimal two-page server;
  - `text.rs` and `strmap.rs`: the text operations and the insertion-ordered
    string map that the rest is built on.
- `app/` is the program around it: sockets, the database, JSON bodies and
  the tasks that run each connection.
- `tests/` runs the library on concrete requests, frames and rooms.

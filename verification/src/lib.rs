//! A small HTTP/1.1 and WebSocket server library: request parsing, response
//! encoding, header maps, WebSocket framing and a chat room registry.
use vstd::prelude::*;

pub mod http;
pub mod mrequest;
pub mod server;
pub mod strmap;
pub mod text;

verus! {
} // verus!

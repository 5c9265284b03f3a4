//! The application server: routes, authentication, accounts, chat rooms
//! and WebSocket framing.
pub mod chat;
pub mod ids;
pub mod jwt;
pub mod middleware;
pub mod models;
pub mod repo;
pub mod request;
pub mod response;
pub mod routes;
pub mod websocket;

//! The HTTP layer: requests, responses and their headers.
pub mod extensions;
pub mod request;
pub mod response;

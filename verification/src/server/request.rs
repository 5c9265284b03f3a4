//! The server's request, which carries the claims of an authenticated user.
use vstd::prelude::*;

use crate::http::request::RequestHead;
use crate::http::response::Headers;
use crate::server::jwt::Claims;
use crate::strmap::StrMap;

verus! {

/// A request with the user that its token names, once checked.
pub struct Request {
    pub method: String,
    pub path: String,
    pub query_params: StrMap,
    pub version: String,
    pub headers: Headers,
    pub body: Vec<u8>,
    pub user: Option<Claims>,
}

impl Request {
    /// A request with the given head and body and no user yet.
    pub fn from_head(head: RequestHead, body: Vec<u8>) -> (r: Request)
        ensures
            r.method == head.method,
            r.path == head.path,
            r.query_params == head.query_params,
            r.version == head.version,
            r.headers == head.headers,
            r.body == body,
            r.user is None,
    {
        Request {
            method: head.method,
            path: head.path,
            query_params: head.query_params,
            version: head.version,
            headers: head.headers,
            body,
            user: None,
        }
    }
}

} // verus!

//! Status lines and the bytes of a plain response.
use vstd::prelude::*;
use vstd::utf8::encode_utf8;

use crate::http::response::{plain_head, response_bytes};

verus! {

/// The statuses this server answers with.
#[derive(Debug, Clone, Copy, PartialEq, Eq)]
pub enum StatusCode {
    Okay,
    Created,
    BadRequest,
    Unauthorized,
    NotFound,
    InternalServerError,
}

/// The status line text of each status.
pub open spec fn status_line(s: StatusCode) -> Seq<char> {
    match s {
        StatusCode::Okay => "200 OK"@,
        StatusCode::Created => "201 Created"@,
        StatusCode::BadRequest => "400 Bad Request"@,
        StatusCode::Unauthorized => "401 Unauthorized"@,
        StatusCode::NotFound => "404 Not Found"@,
        StatusCode::InternalServerError => "500 Internal Server Error"@,
    }
}

impl StatusCode {
    pub fn as_str(&self) -> (r: &'static str)
        ensures
            r@ == status_line(*self),
    {
        match self {
            StatusCode::Okay => "200 OK",
            StatusCode::Created => "201 Created",
            StatusCode::BadRequest => "400 Bad Request",
            StatusCode::Unauthorized => "401 Unauthorized",
            StatusCode::NotFound => "404 Not Found",
            StatusCode::InternalServerError => "500 Internal Server Error",
        }
    }
}

/// What `send_response` writes: the response with `status`, `content_type` and `body`.
pub fn send_response(status: StatusCode, content_type: &str, body: &[u8]) -> (r: Vec<u8>)
    ensures
        r@ == encode_utf8(plain_head(status_line(status), content_type@, body@.len())) + body@,
{
    response_bytes(status.as_str(), content_type, body)
}

} // verus!

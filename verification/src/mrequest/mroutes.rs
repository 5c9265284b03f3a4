//! The answers of the minimal server.
use vstd::prelude::*;
use vstd::utf8::encode_utf8;

use crate::http::response::{error_body, error_json, plain_head, response_bytes};
use crate::mrequest::Request;
use crate::text::push_str;

verus! {

/// The text of the index page.
pub open spec fn index_text(method: Seq<char>, path: Seq<char>) -> Seq<char> {
    "This is a web server written in Rust without any framework.\nYou are on the "@ + method
        + " "@ + path + " path.\n"@
}

/// The text of the index page for a method and a path.
pub fn index_body(method: &str, path: &str) -> (r: String)
    ensures
        r@ == index_text(method@, path@),
{
    let mut s = String::new();
    push_str(&mut s, "This is a web server written in Rust without any framework.\nYou are on the ");
    push_str(&mut s, method);
    push_str(&mut s, " ");
    push_str(&mut s, path);
    push_str(&mut s, " path.\n");
    s
}

/// The bytes of the index page for `request`.
pub fn index(request: &Request) -> (r: Vec<u8>)
    ensures
        r@ == encode_utf8(
            plain_head(
                "200 OK"@,
                "text/plain"@,
                encode_utf8(index_text(request.method@, request.path@)).len(),
            ),
        ) + encode_utf8(index_text(request.method@, request.path@)),
{
    let body = index_body(request.method.as_str(), request.path.as_str());
    response_bytes("200 OK", "text/plain", body.as_str().as_bytes())
}

/// The bytes of the not-found answer.
pub fn not_found() -> (r: Vec<u8>)
    ensures
        r@ == encode_utf8(
            plain_head(
                "404 Not Found"@,
                "application/json"@,
                encode_utf8(error_json("Not found"@)).len(),
            ),
        ) + encode_utf8(error_json("Not found"@)),
{
    let body = error_body("Not found");
    response_bytes("404 Not Found", "application/json", body.as_str().as_bytes())
}

} // verus!

//! Which handler answers a request, and the answers that do not depend on
//! the database.
use vstd::prelude::*;
use vstd::utf8::encode_utf8;

use crate::http::request::{target_path, Request};
use crate::http::response::{
    error_body, error_json, insert_pairs_ct, length_filled, response_head, Response, StatusCode,
};
use crate::mrequest::mroutes::{index_body, index_text};
use crate::mrequest::str_is;
use crate::server::ids::{uuid_from_text, uuid_parse};
use crate::server::jwt::Claims;
use crate::text::{chars_of, lemma_split_by_first, split_chars, string_of};

verus! {

/// The handlers of the server.
#[derive(Debug, Clone, Copy, PartialEq, Eq)]
pub enum Route {
    Index,
    Login,
    Register,
    User,
    WsUpgrade,
    NotFound,
}

/// The handler for a method and a path; the path counts up to its first `?`.
pub open spec fn route_for(method: Seq<char>, path: Seq<char>) -> Route {
    let p = target_path(path);
    if method == "GET"@ && p == "/"@ {
        Route::Index
    } else if method == "POST"@ && p == "/login"@ {
        Route::Login
    } else if method == "POST"@ && p == "/register"@ {
        Route::Register
    } else if method == "GET"@ && p == "/user"@ {
        Route::User
    } else if method == "GET"@ && p == "/ws"@ {
        Route::WsUpgrade
    } else {
        Route::NotFound
    }
}

/// The handler that answers a request.
pub fn route(request: &Request) -> (r: Route)
    ensures
        r == route_for(request.method@, request.path@),
{
    let cs = chars_of(request.path.as_str());
    let parts = split_chars(cs.as_slice(), '?');
    proof {
        lemma_split_by_first(cs@, '?');
    }
    let p = string_of(parts[0].as_slice());
    let path = p.as_str();
    let m = request.method.as_str();
    if str_is(m, "GET") && str_is(path, "/") {
        Route::Index
    } else if str_is(m, "POST") && str_is(path, "/login") {
        Route::Login
    } else if str_is(m, "POST") && str_is(path, "/register") {
        Route::Register
    } else if str_is(m, "GET") && str_is(path, "/user") {
        Route::User
    } else if str_is(m, "GET") && str_is(path, "/ws") {
        Route::WsUpgrade
    } else {
        Route::NotFound
    }
}

/// Whether a route's handler runs only after the request's token has been
/// checked (the check's own answer ends the request when it fails): the
/// user route does, the others do not.
pub fn requires_auth(route: Route) -> (r: bool)
    ensures
        r <==> route == Route::User,
{
    match route {
        Route::User => true,
        _ => false,
    }
}

/// The errors that the API answers with.
#[derive(Debug, Clone, Copy, PartialEq, Eq)]
pub enum ApiError {
    AuthorizationMissing,
    InvalidToken,
    TokenFailure,
    InvalidCredentials,
    RegistrationFailure,
    Unauthorized,
    InvalidUserId,
    UserNotFound,
    NotFound,
}

/// The status of each error.
pub open spec fn error_status(e: ApiError) -> u16 {
    match e {
        ApiError::AuthorizationMissing => 401,
        ApiError::InvalidToken => 401,
        ApiError::TokenFailure => 500,
        ApiError::InvalidCredentials => 401,
        ApiError::RegistrationFailure => 500,
        ApiError::Unauthorized => 401,
        ApiError::InvalidUserId => 400,
        ApiError::UserNotFound => 404,
        ApiError::NotFound => 404,
    }
}

/// The message of each error.
pub open spec fn error_message(e: ApiError) -> Seq<char> {
    match e {
        ApiError::AuthorizationMissing => "Authorization header is missing"@,
        ApiError::InvalidToken => "Invalid token"@,
        ApiError::TokenFailure => "Failed to generate token"@,
        ApiError::InvalidCredentials => "Invalid credentials"@,
        ApiError::RegistrationFailure => "Failed to process password encryption"@,
        ApiError::Unauthorized => "Unauthorized"@,
        ApiError::InvalidUserId => "Invalid user ID in token"@,
        ApiError::UserNotFound => "User not found"@,
        ApiError::NotFound => "Not found"@,
    }
}

impl ApiError {
    pub fn status(&self) -> (r: StatusCode)
        ensures
            r.0 == error_status(*self),
    {
        match self {
            ApiError::AuthorizationMissing => StatusCode::UNAUTHORIZED(),
            ApiError::InvalidToken => StatusCode::UNAUTHORIZED(),
            ApiError::TokenFailure => StatusCode::INTERNAL_SERVER_ERROR(),
            ApiError::InvalidCredentials => StatusCode::UNAUTHORIZED(),
            ApiError::RegistrationFailure => StatusCode::INTERNAL_SERVER_ERROR(),
            ApiError::Unauthorized => StatusCode::UNAUTHORIZED(),
            ApiError::InvalidUserId => StatusCode::BAD_REQUEST(),
            ApiError::UserNotFound => StatusCode::NOT_FOUND(),
            ApiError::NotFound => StatusCode::NOT_FOUND(),
        }
    }

    pub fn message(&self) -> (r: &'static str)
        ensures
            r@ == error_message(*self),
    {
        match self {
            ApiError::AuthorizationMissing => "Authorization header is missing",
            ApiError::InvalidToken => "Invalid token",
            ApiError::TokenFailure => "Failed to generate token",
            ApiError::InvalidCredentials => "Invalid credentials",
            ApiError::RegistrationFailure => "Failed to process password encryption",
            ApiError::Unauthorized => "Unauthorized",
            ApiError::InvalidUserId => "Invalid user ID in token",
            ApiError::UserNotFound => "User not found",
            ApiError::NotFound => "Not found",
        }
    }
}

/// The entries of an answer with content type `ct` and a body of `n` bytes.
pub open spec fn answer_pairs(before: Response, ct: Seq<char>, n: nat) -> Seq<crate::strmap::Pair> {
    length_filled(insert_pairs_ct(before.headers.map.pairs(), ct), n)
}

/// Whether `bytes` answer with error `e` and `after` is the response that
/// wrote them from `before`: the error's status, a JSON content type, and
/// the message in a JSON body.
pub open spec fn error_answer(before: Response, after: Response, e: ApiError, bytes: Seq<u8>) -> bool {
    &&& after.wf()
    &&& after.status_code.0 == error_status(e)
    &&& after.headers.map.pairs() == answer_pairs(
        before,
        "application/json"@,
        encode_utf8(error_json(error_message(e))).len(),
    )
    &&& bytes == encode_utf8(response_head(error_status(e), after.headers.map.pairs()))
        + encode_utf8(error_json(error_message(e)))
}

/// The bytes of an error answer: its status, a JSON content type and the
/// message in a JSON body.
pub fn error_reply(response: &mut Response, e: ApiError) -> (r: Vec<u8>)
    requires
        old(response).wf(),
    ensures
        final(response).wf(),
        final(response).status_code.0 == error_status(e),
        final(response).headers.map.pairs() == answer_pairs(
            *old(response),
            "application/json"@,
            encode_utf8(error_json(error_message(e))).len(),
        ),
        r@ == encode_utf8(response_head(error_status(e), final(response).headers.map.pairs()))
            + encode_utf8(error_json(error_message(e))),
{
    let body = error_body(e.message());
    response.reply(e.status(), "application/json", body.as_str().as_bytes())
}

/// The bytes of the index page.
pub fn index_reply(request: &Request, response: &mut Response) -> (r: Vec<u8>)
    requires
        old(response).wf(),
    ensures
        final(response).wf(),
        final(response).status_code.0 == 200,
        final(response).headers.map.pairs() == answer_pairs(
            *old(response),
            "text/plain"@,
            encode_utf8(index_text(request.method@, request.path@)).len(),
        ),
        r@ == encode_utf8(response_head(200, final(response).headers.map.pairs())) + encode_utf8(
            index_text(request.method@, request.path@),
        ),
{
    let body = index_body(request.method.as_str(), request.path.as_str());
    response.reply(StatusCode::OK(), "text/plain", body.as_str().as_bytes())
}

/// The user id that a request's claims name, or the error to answer with:
/// no claims, or a subject that is not a UUID.
pub fn user_id_of(claims: Option<&Claims>) -> (r: Result<u128, ApiError>)
    ensures
        match claims {
            None => r == Err::<u128, ApiError>(ApiError::Unauthorized),
            Some(c) => match uuid_from_text(encode_utf8(c.sub@)) {
                Some(v) => r == Ok::<u128, ApiError>(v as u128),
                None => r == Err::<u128, ApiError>(ApiError::InvalidUserId),
            },
        },
{
    match claims {
        None => Err(ApiError::Unauthorized),
        Some(c) => {
            let s: &str = c.sub.as_str();
            match uuid_parse(s) {
                Some(v) => Ok(v),
                None => Err(ApiError::InvalidUserId),
            }
        },
    }
}

} // verus!

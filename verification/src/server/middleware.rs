//! Authentication: the token that a request presents.
use vstd::prelude::*;

use crate::http::request::Request;
use crate::http::response::Response;
use crate::server::jwt::{jwt_claims, Claims, Jwt};
use crate::server::routes::{error_answer, error_reply, ApiError};
use crate::text::{chars_of, string_of};

verus! {

/// `s` with every leading copy of `p` removed (`str::trim_start_matches`).
pub open spec fn strip_prefixes(s: Seq<char>, p: Seq<char>) -> Seq<char>
    decreases s.len(),
{
    if 0 < p.len() <= s.len() && s.take(p.len() as int) == p {
        strip_prefixes(s.skip(p.len() as int), p)
    } else {
        s
    }
}

fn starts_at(s: &Vec<char>, i: usize, p: &Vec<char>) -> (r: bool)
    requires
        i <= s.len(),
    ensures
        r == (p.len() <= s.len() - i && s@.skip(i as int).take(p.len() as int) == p@),
{
    if p.len() > s.len() - i {
        return false;
    }
    let mut j: usize = 0;
    while j < p.len()
        invariant
            0 <= j <= p.len() <= s.len() - i,
            forall|k: int| 0 <= k < j ==> s@[i + k] == p@[k],
        decreases p.len() - j,
    {
        if s[i + j] != p[j] {
            assert(s@.skip(i as int).take(p.len() as int)[j as int] == s@[i + j]);
            return false;
        }
        j += 1;
    }
    assert(s@.skip(i as int).take(p.len() as int) =~= p@);
    true
}

/// The token of an `Authorization` value: every leading `Bearer ` removed.
pub fn bearer_token(value: &str) -> (r: String)
    ensures
        r@ == strip_prefixes(value@, "Bearer "@),
{
    let s = chars_of(value);
    let p = chars_of("Bearer ");
    let mut i: usize = 0;
    assert(s@.skip(0) =~= s@);
    while p.len() > 0 && starts_at(&s, i, &p)
        invariant
            0 <= i <= s.len(),
            s@ == value@,
            p@ == "Bearer "@,
            strip_prefixes(s@, p@) == strip_prefixes(s@.skip(i as int), p@),
        decreases s.len() - i,
    {
        assert(s@.skip(i as int).skip(p.len() as int) =~= s@.skip(i + p.len()));
        i += p.len();
    }
    let mut out: Vec<char> = Vec::new();
    let mut k: usize = i;
    while k < s.len()
        invariant
            i <= k <= s.len(),
            out@ =~= s@.subrange(i as int, k as int),
        decreases s.len() - k,
    {
        out.push(s[k]);
        k += 1;
    }
    assert(out@ =~= s@.skip(i as int));
    string_of(out.as_slice())
}

/// The token that a request presents, or the error for a request without
/// an `Authorization` header.
pub fn auth_token(request: &Request) -> (r: Result<String, ApiError>)
    requires
        request.headers.wf(),
    ensures
        match request.headers.lookup("Authorization"@) {
            Some(v) => r matches Ok(t) && t@ == strip_prefixes(v, "Bearer "@),
            None => r == Err::<String, ApiError>(ApiError::AuthorizationMissing),
        },
{
    match request.headers.get("Authorization") {
        Some(v) => Ok(bearer_token(v.as_str())),
        None => Err(ApiError::AuthorizationMissing),
    }
}

/// Checks the tokens that requests present.
pub struct Middleware {
    pub jwt: Jwt,
}

impl Middleware {
    pub fn new(jwt: Jwt) -> (r: Middleware)
        ensures
            r.jwt == jwt,
    {
        Middleware { jwt }
    }

    /// Checks a request's bearer token and attaches its claims to the
    /// request. A request without an `Authorization` header is answered
    /// 401 "Authorization header is missing"; one whose token the secret
    /// does not accept is answered 401 "Invalid token"; the error and the
    /// bytes of the answer come back. An accepted token checks under the
    /// secret and carries the claims given back.
    pub fn check_auth(&self, request: &mut Request, response: &mut Response) -> (r: Result<
        Claims,
        (ApiError, Vec<u8>),
    >)
        requires
            old(request).headers.wf(),
            old(response).wf(),
        ensures
            final(request).method == old(request).method,
            final(request).path == old(request).path,
            final(request).query_params == old(request).query_params,
            final(request).version == old(request).version,
            final(request).headers == old(request).headers,
            final(request).body == old(request).body,
            match old(request).headers.lookup("Authorization"@) {
                None => r matches Err((e, b)) && e == ApiError::AuthorizationMissing
                    && error_answer(*old(response), *final(response), e, b@),
                Some(v) => match r {
                    Ok(c) => jwt_claims(self.jwt.key(), strip_prefixes(v, "Bearer "@)) == Some(
                        (Some(c.sub@), Some(c.exp as nat)),
                    ) && *final(response) == *old(response),
                    Err((e, b)) => e == ApiError::InvalidToken && error_answer(
                        *old(response),
                        *final(response),
                        e,
                        b@,
                    ),
                },
            },
    {
        let token = match auth_token(request) {
            Ok(t) => t,
            Err(e) => {
                let bytes = error_reply(response, e);
                return Err((e, bytes));
            },
        };
        match self.jwt.decode(token.as_str()) {
            Ok(claims) => {
                request.extensions.insert(claims.clone());
                Ok(claims)
            },
            Err(_) => {
                let bytes = error_reply(response, ApiError::InvalidToken);
                Err((ApiError::InvalidToken, bytes))
            },
        }
    }
}

} // verus!

//! Login tokens: the claims they carry, and signing and checking them with
//! a shared secret (HS256, through the jsonwebtoken crate).
use jsonwebtoken::errors::Error as JwtError;
use vstd::prelude::*;

use crate::server::ids::{uuid_text, uuid_to_string};

verus! {

#[verifier::external_type_specification]
#[verifier::external_body]
pub struct ExJwtError(JwtError);

/// How long a token is valid, in seconds: a day.
pub open spec fn token_lifetime() -> nat {
    86400
}

/// The subject (a user id) and the expiry time of a token.
#[derive(Debug, Clone)]
pub struct Claims {
    pub sub: String,
    pub exp: usize,
}

/// The token that `jsonwebtoken::encode` makes under `secret`, with the
/// default (HS256) header, for the claims `sub` and `exp`.
pub uninterp spec fn jwt_token(secret: Seq<char>, sub: Seq<char>, exp: nat) -> Seq<char>;

/// What `jsonwebtoken::decode` reads from `token` under `secret`, leaving
/// the clock aside: `None` where the token's HS256 signature does not check
/// under the secret; otherwise its `sub` claim where that is a JSON string
/// and its `exp` claim where that is a non-negative integer.
pub uninterp spec fn jwt_claims(secret: Seq<char>, token: Seq<char>) -> Option<
    (Option<Seq<char>>, Option<nat>),
>;

pub open spec fn opt_text(s: Option<String>) -> Option<Seq<char>> {
    match s {
        Some(t) => Some(t@),
        None => None,
    }
}

pub open spec fn opt_nat(n: Option<u64>) -> Option<nat> {
    match n {
        Some(v) => Some(v as nat),
        None => None,
    }
}

/// Calls `jsonwebtoken::encode` with the default header, the claims
/// `{"sub": sub, "exp": exp}` as a JSON object and the key made from the
/// secret's bytes. The contract names the token, and states what the crate
/// shows of it: it checks under the same secret and carries these claims.
/// It also states that the call succeeds: with an HMAC key and the default
/// (HS256) header the algorithm check passes, a JSON object of a string and
/// a number always serialises, and HMAC signing cannot fail.
#[verifier::external_body]
fn jwt_encode(secret: &str, sub: &str, exp: usize) -> (r: Result<String, JwtError>)
    ensures
        r is Ok,
        r matches Ok(t) ==> t@ == jwt_token(secret@, sub@, exp as nat) && jwt_claims(secret@, t@)
            == Some((Some(sub@), Some(exp as nat))),
{
    let mut claims = serde_json::Map::new();
    claims.insert("sub".to_string(), serde_json::Value::from(sub));
    claims.insert("exp".to_string(), serde_json::Value::from(exp));
    let key = jsonwebtoken::EncodingKey::from_secret(secret.as_bytes());
    jsonwebtoken::encode(&jsonwebtoken::Header::default(), &claims, &key)
}

/// Calls `jsonwebtoken::decode` with the default validation (HS256, an
/// `exp` claim that has not passed) and the key made from the secret's
/// bytes, and takes the `sub` and `exp` claims out of the JSON object. The
/// expiry is checked against the clock, so an error is possible for every
/// token; of a success the contract states that the signature checked and
/// which claims were read.
#[verifier::external_body]
fn jwt_decode(secret: &str, token: &str) -> (r: Result<(Option<String>, Option<u64>), JwtError>)
    ensures
        r matches Ok((s, e)) ==> jwt_claims(secret@, token@) == Some((opt_text(s), opt_nat(e))),
{
    let key = jsonwebtoken::DecodingKey::from_secret(secret.as_bytes());
    let validation = jsonwebtoken::Validation::default();
    let mut claims = jsonwebtoken::decode::<serde_json::Map<String, serde_json::Value>>(token, &key, &validation)?.claims;
    let sub = match claims.remove("sub") {
        Some(serde_json::Value::String(s)) => Some(s),
        _ => None,
    };
    let exp = match claims.remove("exp") {
        Some(serde_json::Value::Number(n)) => n.as_u64(),
        _ => None,
    };
    Ok((sub, exp))
}

/// Whether a token's fields make claims: both are there and the expiry
/// fits a `usize`.
pub open spec fn fields_fit(s: Option<Seq<char>>, e: Option<nat>) -> bool {
    match (s, e) {
        (Some(_), Some(n)) => n <= usize::MAX,
        _ => false,
    }
}

/// Why a token was refused.
#[derive(Debug)]
pub enum TokenError {
    /// The crate refused it: a bad signature or form, or an expiry that has passed.
    Rejected(JwtError),
    /// It checked, but its subject is not text or its expiry not a number
    /// that fits.
    Claims,
}

impl Claims {
    /// The claims of a token for user `id`, issued at `now` (seconds since
    /// the Unix epoch): the subject is the id's text, the expiry a day later.
    pub fn for_user(id: u128, now: usize) -> (r: Claims)
        requires
            now + token_lifetime() <= usize::MAX,
        ensures
            r.sub@ == uuid_text(id),
            r.exp == now + token_lifetime(),
    {
        Claims { sub: uuid_to_string(id), exp: now + 24 * 3600 }
    }

    /// The claims that a checked token's fields make: both must be there,
    /// and the expiry must fit a `usize`.
    pub fn from_fields(sub: Option<String>, exp: Option<u64>) -> (r: Option<Claims>)
        ensures
            match (sub, exp) {
                (Some(s), Some(e)) => if e <= usize::MAX {
                    r matches Some(c) && c.sub == s && c.exp == e
                } else {
                    r is None
                },
                _ => r is None,
            },
    {
        match (sub, exp) {
            (Some(s), Some(e)) => {
                if (e as u128) <= (usize::MAX as u128) {
                    Some(Claims { sub: s, exp: e as usize })
                } else {
                    None
                }
            },
            _ => None,
        }
    }
}

/// Signs and checks tokens with a shared secret.
pub struct Jwt {
    secret: String,
}

impl Jwt {
    /// The secret that tokens are signed with.
    pub closed spec fn key(&self) -> Seq<char> {
        self.secret@
    }

    pub fn new(jwt_secret: String) -> (r: Jwt)
        ensures
            r.key() == jwt_secret@,
    {
        Jwt { secret: jwt_secret }
    }

    /// Signs the claims: signing always succeeds, and the token checks
    /// under this secret and carries them.
    pub fn encode(&self, claims: &Claims) -> (r: Result<String, JwtError>)
        ensures
            r is Ok,
            r matches Ok(t) ==> t@ == jwt_token(self.key(), claims.sub@, claims.exp as nat)
                && jwt_claims(self.key(), t@) == Some(
                (Some(claims.sub@), Some(claims.exp as nat)),
            ),
    {
        jwt_encode(self.secret.as_str(), claims.sub.as_str(), claims.exp)
    }

    /// Checks a token and reads its claims: a token accepted checks under
    /// this secret and carries the claims given back.
    pub fn decode(&self, token: &str) -> (r: Result<Claims, TokenError>)
        ensures
            r matches Ok(c) ==> jwt_claims(self.key(), token@) == Some(
                (Some(c.sub@), Some(c.exp as nat)),
            ),
            r matches Err(TokenError::Claims) ==> (jwt_claims(self.key(), token@) matches Some(
                (s, e),
            ) && !fields_fit(s, e)),
    {
        match jwt_decode(self.secret.as_str(), token) {
            Ok((sub, exp)) => match Claims::from_fields(sub, exp) {
                Some(c) => Ok(c),
                None => Err(TokenError::Claims),
            },
            Err(e) => Err(TokenError::Rejected(e)),
        }
    }

    /// The token for user `id` logging in at `now`, for every id: it checks
    /// under this secret and names the user, valid for a day.
    pub fn token_for(&self, id: u128, now: usize) -> (r: Option<String>)
        requires
            now + token_lifetime() <= usize::MAX,
        ensures
            r is Some,
            r matches Some(t) ==> t@ == jwt_token(self.key(), uuid_text(id), (now + token_lifetime()) as nat)
                && jwt_claims(self.key(), t@) == Some(
                (Some(uuid_text(id)), Some((now + token_lifetime()) as nat)),
            ),
    {
        let claims = Claims::for_user(id, now);
        match self.encode(&claims) {
            Ok(t) => Some(t),
            Err(_) => None,
        }
    }
}

} // verus!

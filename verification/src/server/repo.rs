//! Accounts: the record that registration stores and the check that login makes.
use bcrypt::BcryptError;
use vstd::prelude::*;

use crate::server::models::{CreateAccountRequest, UserRecord};

verus! {

#[verifier::external_type_specification]
#[verifier::external_body]
pub struct ExBcryptError(BcryptError);

/// Whether `bcrypt::verify` accepts a password against a hash.
pub uninterp spec fn bcrypt_accepts(password: Seq<char>, hash: Seq<char>) -> bool;

/// Calls `bcrypt::hash` with the default cost. The salt is random, so the
/// result is not named; the contract states what the crate documents of
/// every hash it makes: `verify` accepts the password against it.
#[verifier::external_body]
fn bcrypt_hash(password: &str) -> (r: Result<String, BcryptError>)
    ensures
        r matches Ok(h) ==> bcrypt_accepts(password@, h@),
{
    bcrypt::hash(password, bcrypt::DEFAULT_COST)
}

/// Calls `bcrypt::verify`; an error (a malformed hash) counts as a refusal.
#[verifier::external_body]
fn bcrypt_verify(password: &str, hash: &str) -> (r: bool)
    ensures
        r == bcrypt_accepts(password@, hash@),
{
    bcrypt::verify(password, hash).unwrap_or(false)
}

/// Why an account could not be made.
#[derive(Debug, Clone, Copy, PartialEq, Eq)]
pub enum RegisterError {
    /// The password could not be hashed.
    Hash,
}

/// The record for `username` and `email` under `id` with the outcome of
/// hashing the password: the hash is stored in place of the password, and
/// a failed hash refuses the registration.
pub fn record_from_hash(
    username: String,
    email: String,
    id: u128,
    hashed: Result<String, BcryptError>,
) -> (r: Result<UserRecord, RegisterError>)
    ensures
        match hashed {
            Ok(h) => r matches Ok(u) && u.id == id && u.username == username && u.email == email
                && u.password == h,
            Err(_) => r == Err::<UserRecord, RegisterError>(RegisterError::Hash),
        },
{
    match hashed {
        Ok(hash) => Ok(UserRecord { id, username, email, password: hash }),
        Err(_) => Err(RegisterError::Hash),
    }
}

/// The record that registration stores for `req` under `id`: the password
/// is replaced by its bcrypt hash. The hash is salted at random and can
/// fail (the crate reports a failure of the system's randomness), so what
/// holds is stated of every outcome; `record_from_hash` states the rest.
pub fn prepare_user(req: CreateAccountRequest, id: u128) -> (r: Result<UserRecord, RegisterError>)
    ensures
        r matches Ok(u) ==> {
            &&& u.id == id
            &&& u.username == req.username
            &&& u.email == req.email
            &&& bcrypt_accepts(req.password@, u.password@)
        },
{
    let hashed = bcrypt_hash(req.password.as_str());
    record_from_hash(req.username, req.email, id, hashed)
}

/// The user that a login finds: the stored user whose hash accepts the password.
pub open spec fn login_result(user: Option<UserRecord>, password: Seq<char>) -> Option<UserRecord> {
    match user {
        Some(u) => if bcrypt_accepts(password, u.password@) {
            Some(u)
        } else {
            None
        },
        None => None,
    }
}

/// Checks a password against the user found by e-mail.
pub fn check_login(user: Option<UserRecord>, password: &str) -> (r: Option<UserRecord>)
    ensures
        r == login_result(user, password@),
{
    match user {
        Some(u) => {
            if bcrypt_verify(password, u.password.as_str()) {
                Some(u)
            } else {
                None
            }
        },
        None => None,
    }
}

/// A user registered with a password can log in with that password.
pub proof fn law_registered_user_logs_in(req: CreateAccountRequest, id: u128, user: UserRecord)
    requires
        user.id == id,
        user.username == req.username,
        user.email == req.email,
        bcrypt_accepts(req.password@, user.password@),
    ensures
        login_result(Some(user), req.password@) == Some(user),
{
}

} // verus!

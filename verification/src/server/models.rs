//! The accounts that the server keeps and what goes in and out of its API.
use vstd::prelude::*;

verus! {

/// A stored user: the password is a bcrypt hash.
#[derive(Debug, Clone)]
pub struct UserRecord {
    pub id: u128,
    pub username: String,
    pub email: String,
    pub password: String,
}

/// The body of a login request.
#[derive(Debug)]
pub struct LoginRequest {
    pub email: String,
    pub password: String,
}

/// The body of a registration request.
#[derive(Debug)]
pub struct CreateAccountRequest {
    pub username: String,
    pub email: String,
    pub password: String,
}

/// What the API tells about a user.
#[derive(Debug, Clone)]
pub struct UserResponse {
    pub id: u128,
    pub username: String,
    pub email: String,
}

/// The answer to a successful login.
#[derive(Debug, Clone)]
pub struct LoginResponse {
    pub id: u128,
    pub username: String,
    pub email: String,
    pub token: String,
}

impl UserResponse {
    /// What the API tells about a stored user: everything but the password.
    pub fn from_record(user: UserRecord) -> (r: UserResponse)
        ensures
            r.id == user.id,
            r.username == user.username,
            r.email == user.email,
    {
        UserResponse { id: user.id, username: user.username, email: user.email }
    }
}

impl LoginResponse {
    /// The answer to a login of `user` with `token`.
    pub fn new(user: UserResponse, token: String) -> (r: LoginResponse)
        ensures
            r.id == user.id,
            r.username == user.username,
            r.email == user.email,
            r.token == token,
    {
        LoginResponse { id: user.id, username: user.username, email: user.email, token }
    }
}

} // verus!

//! The closed set of authentication failures and their wire form.
use vstd::prelude::*;

verus! {

/// Every way a login or an authenticated request can fail.
#[derive(Clone, Copy, Debug, PartialEq, Eq, Structural)]
pub enum AuthError {
    /// The username or the password is empty.
    MissingCredentials,
    /// The credential authority rejected the pair.
    WrongCredentials,
    /// The token could not be made.
    TokenCreation,
    /// The cookie is absent, malformed, badly signed or expired.
    InvalidToken,
    /// The credential authority could not be reached.
    VerifierUnavailable,
}

/// The HTTP status of each failure.
pub open spec fn status_of(e: AuthError) -> u16 {
    match e {
        AuthError::MissingCredentials => 400,
        AuthError::WrongCredentials => 401,
        AuthError::TokenCreation => 500,
        AuthError::InvalidToken => 400,
        AuthError::VerifierUnavailable => 401,
    }
}

/// The message shown to the client for each failure.
pub open spec fn message_of(e: AuthError) -> Seq<char> {
    match e {
        AuthError::MissingCredentials => "Missing credentials"@,
        AuthError::WrongCredentials => "Wrong credentials"@,
        AuthError::TokenCreation => "Token creation error"@,
        AuthError::InvalidToken => "Invalid token"@,
        AuthError::VerifierUnavailable => "Wrong credentials"@,
    }
}

impl AuthError {
    /// The HTTP status that answers this failure.
    pub fn status(&self) -> (r: u16)
        ensures
            r == status_of(*self),
    {
        match self {
            AuthError::MissingCredentials => 400,
            AuthError::WrongCredentials => 401,
            AuthError::TokenCreation => 500,
            AuthError::InvalidToken => 400,
            AuthError::VerifierUnavailable => 401,
        }
    }

    /// The message that answers this failure; it never carries internal detail.
    pub fn message(&self) -> (r: &'static str)
        ensures
            r@ == message_of(*self),
    {
        match self {
            AuthError::MissingCredentials => "Missing credentials",
            AuthError::WrongCredentials => "Wrong credentials",
            AuthError::TokenCreation => "Token creation error",
            AuthError::InvalidToken => "Invalid token",
            AuthError::VerifierUnavailable => "Wrong credentials",
        }
    }
}

} // verus!

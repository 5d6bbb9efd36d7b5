//! The login decision and the per-request identity check.
use crate::codec::{
    decode_bytes, decode_outcome, decode_text, lemma_round_trip, encode, text_of, token_bytes, Claims, ClaimsView, SigningKeys,
};
use crate::cookie::{cookie_lookup, cookie_value};
use crate::error::AuthError;
use vstd::prelude::*;
use vstd::utf8::encode_utf8;

verus! {

/// How long a freshly issued token stays valid, in seconds.
pub const SESSION_LIFETIME_SECS: u64 = 86400;

/// The name of the cookie that carries the token.
pub const ACCESS_TOKEN_COOKIE: &'static str = "access_token";

/// The token type reported with a fresh token.
pub const TOKEN_TYPE: &'static str = "Bearer";

/// A username and password offered at login.
pub struct Credentials {
    pub username: String,
    pub password: String,
}

/// What the credential authority answered.
#[derive(Clone, Copy, Debug, PartialEq, Eq, Structural)]
pub enum VerifierOutcome {
    /// The pair is right.
    Accepted,
    /// The pair is wrong, or the user is unknown.
    Rejected,
    /// The authority could not be reached.
    Unavailable,
}

/// What a successful login hands back: the token and the public user name.
pub struct LoginResponse {
    pub access_token: String,
    pub username: String,
}

/// The authenticated principal of one request.
pub struct Identity {
    pub username: String,
}

/// Either field of the credentials is empty.
pub open spec fn credentials_missing(c: &Credentials) -> bool {
    c.username@.len() == 0 || c.password@.len() == 0
}

/// The claims minted at `now` for `username`, when the expiry time fits.
pub open spec fn minted_claims(username: Seq<char>, now: u64) -> Option<ClaimsView> {
    if now + SESSION_LIFETIME_SECS <= u64::MAX {
        Some(
            ClaimsView {
                issuer: username,
                issued_at: now,
                expires_at: (now + SESSION_LIFETIME_SECS) as u64,
            },
        )
    } else {
        None
    }
}

/// What a login with the given verdict of the authority gives.
pub open spec fn login_outcome(
    c: &Credentials,
    verdict: VerifierOutcome,
    key: Seq<u8>,
    now: u64,
) -> Result<(Seq<char>, Seq<char>), AuthError> {
    if credentials_missing(c) {
        Err(AuthError::MissingCredentials)
    } else if verdict != VerifierOutcome::Accepted {
        Err(AuthError::WrongCredentials)
    } else {
        match minted_claims(c.username@, now) {
            None => Err(AuthError::TokenCreation),
            Some(claims) => Ok((text_of(token_bytes(claims, key)), c.username@)),
        }
    }
}

/// The username that a `Cookie` header proves at time `now`, if any.
pub open spec fn identity_of(header: Option<&str>, key: Seq<u8>, now: u64) -> Option<Seq<char>> {
    match header {
        None => None,
        Some(h) => match cookie_lookup(encode_utf8(h@), encode_utf8("access_token"@)) {
            None => None,
            Some(t) => match decode_outcome(t, key, now) {
                Ok(c) => Some(c.issuer),
                Err(_) => None,
            },
        },
    }
}

/// Checks that both fields are present; this runs before the authority is asked.
pub fn check_credentials(creds: &Credentials) -> (r: Result<(), AuthError>)
    ensures
        r == (if credentials_missing(creds) {
            Err::<(), AuthError>(AuthError::MissingCredentials)
        } else {
            Ok::<(), AuthError>(())
        }),
{
    if creds.username.as_str().is_empty() || creds.password.as_str().is_empty() {
        Err(AuthError::MissingCredentials)
    } else {
        Ok(())
    }
}

/// Mints the claims for `username` at time `now`, expiring one session
/// lifetime later; `None` when that time does not fit.
pub fn mint_claims(username: &str, now: u64) -> (r: Option<Claims>)
    ensures
        match r {
            Some(c) => minted_claims(username@, now) == Some(c@) && c.valid(),
            None => minted_claims(username@, now) is None,
        },
{
    match now.checked_add(SESSION_LIFETIME_SECS) {
        Some(expires_at) => Some(
            Claims { issuer: username.to_owned(), issued_at: now, expires_at },
        ),
        None => None,
    }
}

/// Finishes a login once the authority has answered: any answer but
/// acceptance is reported as wrong credentials, and on acceptance a token
/// valid for one session lifetime from `now` is issued.
pub fn complete_login(
    creds: &Credentials,
    verdict: VerifierOutcome,
    keys: &SigningKeys,
    now: u64,
) -> (r: Result<LoginResponse, AuthError>)
    ensures
        match r {
            Ok(resp) => login_outcome(creds, verdict, keys@, now) == Ok::<
                (Seq<char>, Seq<char>),
                AuthError,
            >((resp.access_token@, resp.username@)),
            Err(e) => login_outcome(creds, verdict, keys@, now) == Err::<
                (Seq<char>, Seq<char>),
                AuthError,
            >(e),
        },
{
    check_credentials(creds)?;
    match verdict {
        VerifierOutcome::Accepted => {},
        _ => {
            return Err(AuthError::WrongCredentials);
        },
    }
    let claims = match mint_claims(creds.username.as_str(), now) {
        Some(c) => c,
        None => {
            return Err(AuthError::TokenCreation);
        },
    };
    let access_token = encode(&claims, keys);
    Ok(LoginResponse { access_token, username: claims.issuer })
}

/// Recovers the caller's identity from the `Cookie` header of a request:
/// the first `access_token` cookie must hold a token signed under `keys`
/// that has not expired at `now`. Every failure is reported as an invalid token.
pub fn extract_identity(cookie_header: Option<&str>, keys: &SigningKeys, now: u64) -> (r: Result<
    Identity,
    AuthError,
>)
    ensures
        match r {
            Ok(id) => identity_of(cookie_header, keys@, now) == Some(id.username@),
            Err(e) => e == AuthError::InvalidToken && identity_of(cookie_header, keys@, now) is None,
        },
{
    let header = match cookie_header {
        Some(h) => h,
        None => {
            return Err(AuthError::InvalidToken);
        },
    };
    let token = match cookie_value(header.as_bytes(), ACCESS_TOKEN_COOKIE.as_bytes()) {
        Some(t) => t,
        None => {
            return Err(AuthError::InvalidToken);
        },
    };
    match decode_bytes(token.as_slice(), keys, now) {
        Ok(claims) => Ok(Identity { username: claims.issuer }),
        Err(_) => Err(AuthError::InvalidToken),
    }
}

/// A token issued at login names the user who logged in, and is accepted
/// under the same keys at any moment from its issue up to the end of one
/// session lifetime.
pub proof fn lemma_issued_token_names_user(
    creds: &Credentials,
    key: Seq<u8>,
    now: u64,
    later: u64,
)
    requires
        login_outcome(creds, VerifierOutcome::Accepted, key, now) is Ok,
        now <= later <= now + SESSION_LIFETIME_SECS,
    ensures
        ({
            let token = login_outcome(creds, VerifierOutcome::Accepted, key, now)->Ok_0.0;
            &&& decode_text(token, key, later) is Ok
            &&& decode_text(token, key, later)->Ok_0.issuer == creds.username@
            &&& decode_text(token, key, later)->Ok_0.issued_at == now
        }),
{
    let c = minted_claims(creds.username@, now)->0;
    lemma_round_trip(c, key, later);
}

/// The greeting for `name`.
pub fn greeting(name: &str) -> (r: String)
    ensures
        r@ == "Hello, "@ + name@ + "!"@,
{
    let mut s = "Hello, ".to_owned();
    s.append(name);
    s.append("!");
    s
}

} // verus!

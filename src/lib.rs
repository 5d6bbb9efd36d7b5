//! Stateless session authentication: signed, time-bounded identity tokens,
//! cookie lookup, and the login and identity-extraction decisions.
pub mod bytes;
pub mod codec;
pub mod cookie;
pub mod error;
pub mod hex;
pub mod session;

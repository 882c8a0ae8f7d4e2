//! Request-authentication scaffolding: the claim set carried by a token,
//! the authorized-user marker, and the middleware handles.  Token signing
//! and verification belong to the transport layer; the library holds the
//! data shapes and the bearer-header parsing they share.

use vstd::prelude::*;
use crate::text::{trim_spec, trim, str_eq};

verus! {

/// The claims carried by an access token: the subject (user id) and the
/// expiration time, in seconds since the epoch.
#[derive(Debug, PartialEq, Eq)]
pub struct Claims {
    pub sub: String,
    pub exp: usize,
}

/// The user a verified token authorizes.
#[derive(Debug, PartialEq, Eq)]
pub struct AuthorizedUser {
    pub user_id: String,
}

/// The middleware handle installed on protected routes.
#[derive(PartialEq, Eq, Structural, Debug, Clone, Copy)]
pub struct AuthMiddleware;

/// The middleware wrapped around an inner service.
#[derive(Debug)]
pub struct AuthMiddlewareService<S> {
    pub service: S,
}

/// Builds the middleware handle.
pub fn auth_middleware() -> (r: AuthMiddleware)
    ensures
        r == AuthMiddleware,
{
    AuthMiddleware
}

/// The token of an `Authorization` header: what follows a `Bearer ` scheme
/// prefix, trimmed; nothing when the scheme is absent.
pub open spec fn bearer_token_spec(h: Seq<char>) -> Option<Seq<char>> {
    if h.len() >= 7 && h.take(7) == "Bearer "@ {
        Some(trim_spec(h.skip(7)))
    } else {
        None
    }
}

/// Extracts the bearer token from an `Authorization` header value.
pub fn bearer_token(header: &str) -> (r: Option<String>)
    ensures
        r matches Some(t) ==> bearer_token_spec(header@) == Some(t@),
        r is None ==> bearer_token_spec(header@) is None,
{
    let n = header.unicode_len();
    if n < 7 {
        return None;
    }
    let prefix = header.substring_char(0, 7);
    proof {
        assert(prefix@ == header@.take(7));
    }
    if !str_eq(prefix, "Bearer ") {
        return None;
    }
    let rest = header.substring_char(7, n);
    proof {
        assert(rest@ == header@.skip(7));
    }
    let token = trim(rest);
    Some(token.to_owned())
}

} // verus!

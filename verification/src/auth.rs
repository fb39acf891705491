//! The authentication gate: a single shared-secret, cookie-based check that
//! gates every listing and download request uniformly.

use vstd::prelude::*;
use vstd::string::StringExecFns;

verus! {

/// Evidence that the authentication gate accepted a request. A value exists
/// only where `Auth::from_request` found a cookie equal to the secret.
pub struct Auth;

/// The body of a login request: the client's presented token.
pub struct LoginRequest {
    pub token: String,
}

/// The body of an authentication response.
pub struct AuthResponse {
    pub success: bool,
    pub message: Option<String>,
}

/// What the login handler decided: the HTTP status to answer with, the
/// response body, and the cookie value to set, if any.
pub struct LoginReply {
    pub status: u16,
    pub response: AuthResponse,
    pub set_cookie: Option<String>,
}

impl Auth {
    /// The request gate: a request authenticates exactly when it presents a
    /// cookie equal to the configured secret. A missing cookie, a missing
    /// secret, and a mismatch all yield the same refusal, so the client
    /// cannot tell which sub-case occurred.
    pub fn from_request(cookie_token: &Option<String>, secret: &Option<String>) -> (r: Option<
        Auth,
    >)
        ensures
            r is Some <==> (cookie_token matches Some(t) && secret matches Some(e) && t@ == e@),
    {
        match (cookie_token, secret) {
            (Some(t), Some(e)) => if *t == *e {
                Some(Auth)
            } else {
                None
            },
            _ => None,
        }
    }
}

/// Decides a login attempt against the configured secret.
///
/// With no secret configured, the fault is the server's: a server-error
/// status and no cookie. With a matching token, the reply is successful and
/// carries the token as the cookie value to set. Otherwise the attempt is
/// unauthorized and no cookie is set.
pub fn login(secret: &Option<String>, request: &LoginRequest) -> (r: LoginReply)
    ensures
        secret is None ==> r.status == 500 && !r.response.success && r.set_cookie is None && (
        r.response.message matches Some(m) && m@
            == "Server configuration error. Could not find BLACKFILES_TOKEN variable"@),
        secret matches Some(e) ==> (request.token@ == e@ ==> r.status == 200
            && r.response.success && r.response.message is None && (r.set_cookie matches Some(c)
            && c@ == request.token@)),
        secret matches Some(e) ==> (request.token@ != e@ ==> r.status == 401
            && !r.response.success && r.set_cookie is None && (r.response.message matches Some(m)
            && m@ == "Invalid token"@)),
{
    match secret {
        None => LoginReply {
            status: 500,
            response: AuthResponse {
                success: false,
                message: Some(
                    String::from_str(
                        "Server configuration error. Could not find BLACKFILES_TOKEN variable",
                    ),
                ),
            },
            set_cookie: None,
        },
        Some(e) => if request.token == *e {
            LoginReply {
                status: 200,
                response: AuthResponse { success: true, message: None },
                set_cookie: Some(request.token.clone()),
            }
        } else {
            LoginReply {
                status: 401,
                response: AuthResponse {
                    success: false,
                    message: Some(String::from_str("Invalid token")),
                },
                set_cookie: None,
            }
        },
    }
}

/// Confirms an authenticated request. The `Auth` value is obtainable only
/// from `from_request`, so this answer is owed exactly to requests whose
/// cookie matched the secret.
pub fn check_auth(_auth: Auth) -> (r: AuthResponse)
    ensures
        r.success && r.message is None,
{
    AuthResponse { success: true, message: None }
}

} // verus!

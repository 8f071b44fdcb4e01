//! Message types shared between the web interface and its client.

use vstd::prelude::*;

verus! {

/// A sign-in request.
#[derive(Debug)]
pub struct JsonSignIn {
    pub email: String,
    pub password: String,
}

/// The answer to a sign-in request: a session token on success, an
/// error message otherwise.
#[derive(Debug)]
pub struct JsonSignInResp {
    pub token: Option<String>,
    pub error: Option<String>,
}

} // verus!

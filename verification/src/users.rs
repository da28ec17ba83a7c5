use vstd::prelude::*;

verus! {

/// A stored account record: the email is the account key, the password field
/// holds the encoded credential produced at registration, never a plaintext.
#[derive(Debug, Clone)]
pub struct User {
    pub email: String,
    pub password: String,
    pub is_admin: bool,
}

/// The values a registration request carries.
#[derive(Debug, Clone)]
pub struct UserSignup {
    pub email: String,
    pub password: String,
    pub confirm_password: String,
    pub is_admin: bool,
}

/// Identity claims asserted by a session token: subject email, expiration
/// instant (seconds since the Unix epoch) and the administrator flag.
#[derive(Debug, Clone, PartialEq, Eq)]
pub struct Claims {
    pub email: String,
    pub exp: u64,
    pub is_admin: bool,
}

} // verus!

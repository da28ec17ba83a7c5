use vstd::prelude::*;
use vstd::string::StringSliceAdditionalSpecFns;
use vstd::utf8::encode_utf8;

use crate::credentials::argon2_hash;
use crate::credentials::argon2_verify_of;
use crate::credentials::hash_password;
use crate::credentials::verify_password;
use crate::error::AppError;
use crate::token::get_timestamp_after_8_hours;
use crate::token::issue_token;
use crate::token::spec_full_token;
use crate::token::spec_valid_token_for;
use crate::token::validity_window;
use crate::users::Claims;
use crate::users::User;
use crate::users::UserSignup;

verus! {

/// What a successful login hands back to the boundary layer: the minted
/// session token and the HTTP-only cookie line that carries it.
#[derive(Debug, Clone)]
pub struct LoginSession {
    pub token: String,
    pub cookie: String,
}

/// The `Set-Cookie` value for a session token: the `jwt` cookie, HTTP-only.
pub fn session_cookie(token: &str) -> (r: String)
    ensures
        r@ == "jwt="@ + token@ + "; HttpOnly"@,
{
    "jwt=".to_owned().concat(token).concat("; HttpOnly")
}

/// The registration core, handed the already-fetched knowledge of whether
/// the email is taken.  Empty or mismatched credentials are rejected, a
/// taken email is rejected, and otherwise the signup comes back with its
/// password replaced by the stored credential.
pub fn register_user(creds: &UserSignup, user_exists: bool, salt: &str) -> (r: Result<
    UserSignup,
    AppError,
>)
    ensures
        ({
            let empty = creds.email@.len() == 0 || creds.password@.len() == 0;
            let mismatch = creds.password@ != creds.confirm_password@;
            &&& empty ==> r == Err::<UserSignup, AppError>(AppError::MissingCredentials)
            &&& !empty && mismatch ==> r == Err::<UserSignup, AppError>(
                AppError::MissingCredentials,
            )
            &&& !empty && !mismatch && user_exists ==> r == Err::<UserSignup, AppError>(
                AppError::UserAlreadyExists,
            )
            &&& !empty && !mismatch && !user_exists ==> match r {
                Ok(u) => {
                    &&& 8 <= salt.spec_bytes().len() <= 0xffff_ffff
                    &&& encode_utf8(creds.password@).len() <= 0xffff_ffff
                    &&& u.email == creds.email
                    &&& u.confirm_password == creds.confirm_password
                    &&& u.is_admin == creds.is_admin
                    &&& u.password@ == argon2_hash(encode_utf8(creds.password@), salt.spec_bytes())
                    &&& argon2_verify_of(u.password@, encode_utf8(creds.password@)) == Some(true)
                },
                Err(e) => e == AppError::InternalServerError && !(8 <= salt.spec_bytes().len()
                    <= 0xffff_ffff && encode_utf8(creds.password@).len() <= 0xffff_ffff),
            }
        }),
{
    if creds.email.as_str().is_empty() || creds.password.as_str().is_empty() {
        return Err(AppError::MissingCredentials);
    }
    if !(creds.password == creds.confirm_password) {
        return Err(AppError::MissingCredentials);
    }
    if user_exists {
        return Err(AppError::UserAlreadyExists);
    }
    match hash_password(creds.password.as_str(), salt) {
        Ok(h) => Ok(
            UserSignup {
                email: creds.email.clone(),
                password: h,
                confirm_password: creds.confirm_password.clone(),
                is_admin: creds.is_admin,
            },
        ),
        Err(e) => Err(e),
    }
}

/// The login core, handed the already-fetched account record.  Empty
/// credentials are rejected, an unknown account is rejected, a corrupt
/// stored credential is an internal error distinct from a wrong password,
/// and a correct password mints a session token that expires eight hours
/// from `now`, with its HTTP-only cookie line.
pub fn login_user(
    email: &str,
    password: &str,
    stored: Option<&User>,
    key: &[u8],
    now: u64,
) -> (r: Result<LoginSession, AppError>)
    requires
        now + validity_window() <= u64::MAX,
        encode_utf8(email@).len() <= 0x0100_0000,
    ensures
        ({
            let empty = email@.len() == 0 || password@.len() == 0;
            let exp = (now + validity_window()) as u64;
            &&& empty ==> r == Err::<LoginSession, AppError>(AppError::MissingCredentials)
            &&& !empty && stored is None ==> r == Err::<LoginSession, AppError>(
                AppError::UserDoesNotExist,
            )
            &&& match stored {
                Some(u) => !empty ==> match argon2_verify_of(u.password@, password.spec_bytes()) {
                    None => r == Err::<LoginSession, AppError>(AppError::InternalServerError),
                    Some(false) => r == Err::<LoginSession, AppError>(AppError::InvalidPassword),
                    Some(true) => r matches Ok(s) && s.token@ == spec_full_token(
                        key@,
                        email@,
                        exp,
                        u.is_admin,
                    ) && spec_valid_token_for(s.token@, key@, email@, exp, u.is_admin) && s.cookie@
                        == "jwt="@ + s.token@ + "; HttpOnly"@,
                },
                None => true,
            }
        }),
{
    if email.is_empty() || password.is_empty() {
        return Err(AppError::MissingCredentials);
    }
    let user = match stored {
        Some(u) => u,
        None => {
            return Err(AppError::UserDoesNotExist);
        },
    };
    let correct = match verify_password(password, user.password.as_str()) {
        Ok(b) => b,
        Err(e) => {
            return Err(e);
        },
    };
    if !correct {
        return Err(AppError::InvalidPassword);
    }
    let exp = get_timestamp_after_8_hours(now);
    let claims = Claims { email: email.to_owned(), exp, is_admin: user.is_admin };
    let token = match issue_token(&claims, key) {
        Ok(t) => t,
        Err(e) => {
            return Err(e);
        },
    };
    let cookie = session_cookie(token.as_str());
    Ok(LoginSession { token, cookie })
}

} // verus!

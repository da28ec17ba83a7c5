use vstd::prelude::*;
use vstd::string::StringSliceAdditionalSpecFns;

use crate::error::AppError;

verus! {

// ---------------------------------------------------------------------------
// Trusted view of the argon2 primitives.
// ---------------------------------------------------------------------------

/// The encoded credential that argon2's `hash_encoded` computes, with the
/// crate's default configuration, from a password and a salt.  The result is
/// a function of the two byte strings alone.
pub uninterp spec fn argon2_hash(pwd: Seq<u8>, salt: Seq<u8>) -> Seq<char>;

/// What argon2's `verify_encoded` reports for a stored credential and a
/// candidate password: `None` when the stored credential cannot be decoded
/// (corruption), otherwise `Some` of whether the password matches.
pub uninterp spec fn argon2_verify_of(encoded: Seq<char>, pwd: Seq<u8>) -> Option<bool>;

/// Relies on argon2::hash_encoded with `Config::default()`: it succeeds
/// exactly when the salt is at least 8 bytes and salt and password each fit
/// in a `u32` length, and `verify_encoded` accepts its result against the
/// same password.
#[verifier::external_body]
fn argon2_hash_encoded(pwd: &[u8], salt: &[u8]) -> (r: Option<String>)
    ensures
        r is Some <==> (8 <= salt@.len() <= 0xffff_ffff && pwd@.len() <= 0xffff_ffff),
        r matches Some(h) ==> h@ == argon2_hash(pwd@, salt@) && argon2_verify_of(h@, pwd@)
            == Some(true),
{
    match argon2::hash_encoded(pwd, salt, &argon2::Config::default()) {
        Ok(h) => Some(h),
        Err(_) => None,
    }
}

/// Relies on argon2::verify_encoded: it decodes the stored credential and
/// recomputes the hash; a mismatching password is an ordinary `false`, and
/// only a credential that does not decode is an error (`None` here).
#[verifier::external_body]
fn argon2_verify_encoded(encoded: &str, pwd: &[u8]) -> (r: Option<bool>)
    ensures
        r == argon2_verify_of(encoded@, pwd@),
{
    match argon2::verify_encoded(encoded, pwd) {
        Ok(b) => Some(b),
        Err(_) => None,
    }
}

// ---------------------------------------------------------------------------
// The Credential Hasher.
// ---------------------------------------------------------------------------

/// Hash a plaintext password with the server-wide salt into the stored
/// credential.  Any credential this returns verifies against the same
/// plaintext.  A deliberate, known limitation: one salt serves the whole
/// deployment, not a per-user salt.
pub fn hash_password(password: &str, salt: &str) -> (r: Result<String, AppError>)
    ensures
        r is Ok <==> (8 <= salt.spec_bytes().len() <= 0xffff_ffff && password.spec_bytes().len()
            <= 0xffff_ffff),
        r matches Ok(h) ==> h@ == argon2_hash(password.spec_bytes(), salt.spec_bytes())
            && argon2_verify_of(h@, password.spec_bytes()) == Some(true),
        r matches Err(e) ==> e == AppError::InternalServerError,
{
    match argon2_hash_encoded(password.as_bytes(), salt.as_bytes()) {
        Some(h) => Ok(h),
        None => Err(AppError::InternalServerError),
    }
}

/// Compare a candidate plaintext against a stored credential.  A mismatch is
/// a normal `Ok(false)`; only a malformed stored credential is an error,
/// reported as an internal error distinct from a wrong password.
pub fn verify_password(candidate: &str, stored: &str) -> (r: Result<bool, AppError>)
    ensures
        match r {
            Ok(b) => argon2_verify_of(stored@, candidate.spec_bytes()) == Some(b),
            Err(e) => e == AppError::InternalServerError && argon2_verify_of(
                stored@,
                candidate.spec_bytes(),
            ) is None,
        },
{
    match argon2_verify_encoded(stored, candidate.as_bytes()) {
        Some(b) => Ok(b),
        None => Err(AppError::InternalServerError),
    }
}

} // verus!

use blog_core::credentials::hash_password;
use blog_core::credentials::verify_password;
use blog_core::error::AppError;
use blog_core::error::EventError;
use blog_core::handlers::login_user;
use blog_core::handlers::register_user;
use blog_core::handlers::session_cookie;
use blog_core::token::verify_token;
use blog_core::users::User;
use blog_core::users::UserSignup;

const SALT: &str = "somesalt";
const KEY: &[u8] = b"a-process-wide-signing-key";
const NOW: u64 = 1_700_000_000;

fn signup(email: &str, password: &str) -> UserSignup {
    UserSignup {
        email: email.to_string(),
        password: password.to_string(),
        confirm_password: password.to_string(),
        is_admin: false,
    }
}

#[test]
fn a_credential_verifies_its_own_password() {
    let credential = hash_password("hunter2", SALT).unwrap();
    assert_eq!(verify_password("hunter2", &credential), Ok(true));
}

#[test]
fn a_credential_rejects_another_password() {
    let credential = hash_password("hunter2", SALT).unwrap();
    assert_eq!(verify_password("hunter3", &credential), Ok(false));
    assert_eq!(verify_password("", &credential), Ok(false));
}

#[test]
fn a_corrupt_credential_is_an_internal_error_not_a_mismatch() {
    assert_eq!(
        verify_password("hunter2", "not-an-encoded-credential"),
        Err(AppError::InternalServerError)
    );
}

#[test]
fn a_short_salt_fails_hashing() {
    assert_eq!(hash_password("hunter2", "salt"), Err(AppError::InternalServerError));
    assert_eq!(hash_password("hunter2", ""), Err(AppError::InternalServerError));
}

#[test]
fn registering_the_same_email_twice_is_rejected() {
    let mut store: Vec<UserSignup> = Vec::new();
    let creds = signup("new@example.com", "hunter2");

    let exists = store.iter().any(|u| u.email == creds.email);
    let first = register_user(&creds, exists, SALT).unwrap();
    store.push(first);

    let exists_now = store.iter().any(|u| u.email == creds.email);
    assert!(exists_now);
    assert_eq!(
        register_user(&creds, exists_now, SALT).map(|u| u.email),
        Err(AppError::UserAlreadyExists)
    );
}

#[test]
fn registration_hashes_the_password() {
    let creds = signup("new@example.com", "hunter2");
    let stored = register_user(&creds, false, SALT).unwrap();
    assert_eq!(stored.email, "new@example.com");
    assert!(!stored.is_admin);
    assert_ne!(stored.password, "hunter2");
    assert_eq!(verify_password("hunter2", &stored.password), Ok(true));
}

#[test]
fn registration_rejects_empty_or_mismatched_credentials() {
    let empty_mail = signup("", "hunter2");
    assert_eq!(
        register_user(&empty_mail, false, SALT).map(|u| u.email),
        Err(AppError::MissingCredentials)
    );
    let empty_pw = signup("new@example.com", "");
    assert_eq!(
        register_user(&empty_pw, false, SALT).map(|u| u.email),
        Err(AppError::MissingCredentials)
    );
    let mut mismatched = signup("new@example.com", "hunter2");
    mismatched.confirm_password = "hunter3".to_string();
    assert_eq!(
        register_user(&mismatched, false, SALT).map(|u| u.email),
        Err(AppError::MissingCredentials)
    );
}

fn stored_user(email: &str, password: &str, is_admin: bool) -> User {
    User {
        email: email.to_string(),
        password: hash_password(password, SALT).unwrap(),
        is_admin,
    }
}

#[test]
fn login_mints_a_cookie_backed_session() {
    let user = stored_user("user@example.com", "hunter2", true);
    let session = login_user("user@example.com", "hunter2", Some(&user), KEY, NOW).unwrap();
    assert_eq!(session.cookie, format!("jwt={}; HttpOnly", session.token));
    let claims = verify_token(&session.token, KEY, NOW).unwrap();
    assert_eq!(claims.email, "user@example.com");
    assert_eq!(claims.exp, NOW + 28800);
    assert!(claims.is_admin);
}

#[test]
fn login_rejects_a_wrong_password() {
    let user = stored_user("user@example.com", "hunter2", false);
    assert_eq!(
        login_user("user@example.com", "wrong", Some(&user), KEY, NOW).map(|s| s.token),
        Err(AppError::InvalidPassword)
    );
}

#[test]
fn login_rejects_an_unknown_account() {
    assert_eq!(
        login_user("ghost@example.com", "hunter2", None, KEY, NOW).map(|s| s.token),
        Err(AppError::UserDoesNotExist)
    );
}

#[test]
fn login_rejects_empty_credentials() {
    let user = stored_user("user@example.com", "hunter2", false);
    assert_eq!(
        login_user("", "hunter2", Some(&user), KEY, NOW).map(|s| s.token),
        Err(AppError::MissingCredentials)
    );
    assert_eq!(
        login_user("user@example.com", "", Some(&user), KEY, NOW).map(|s| s.token),
        Err(AppError::MissingCredentials)
    );
}

#[test]
fn login_reports_a_corrupt_stored_credential() {
    let user = User {
        email: "user@example.com".to_string(),
        password: "corrupted".to_string(),
        is_admin: false,
    };
    assert_eq!(
        login_user("user@example.com", "hunter2", Some(&user), KEY, NOW).map(|s| s.token),
        Err(AppError::InternalServerError)
    );
}

#[test]
fn session_cookie_is_http_only() {
    assert_eq!(session_cookie("abc"), "jwt=abc; HttpOnly");
}

#[test]
fn each_error_maps_to_its_status_and_message() {
    assert_eq!(
        AppError::MissingCredentials.status_and_message(),
        (401, "Your credentials were missing or otherwise incorrect".to_string())
    );
    assert_eq!(AppError::InvalidPassword.status_and_message(), (401, "Invalid Password".to_string()));
    assert_eq!(
        AppError::UserDoesNotExist.status_and_message(),
        (401, "Your account does not exist!".to_string())
    );
    assert_eq!(
        AppError::UserAlreadyExists.status_and_message(),
        (
            401,
            "There is already an account with that email address in the system".to_string()
        )
    );
    assert_eq!(AppError::InvalidToken.status_and_message(), (401, "Invalid Token".to_string()));
    assert_eq!(
        AppError::InternalServerError.status_and_message(),
        (500, "Something terrible happened".to_string())
    );
    assert_eq!(
        AppError::Event(EventError::InvalidId).status_and_message(),
        (404, "InvalidId".to_string())
    );
    assert_eq!(AppError::Database.status_and_message(), (503, "database error".to_string()));
}

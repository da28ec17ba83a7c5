use blog_core::guard::classify_token;
use blog_core::guard::cookie_value;
use blog_core::guard::mandatory_guard;
use blog_core::guard::optional_guard;
use blog_core::guard::TokenCheck;
use blog_core::error::AppError;
use blog_core::token::get_timestamp_after_8_hours;
use blog_core::token::issue_token;
use blog_core::token::verify_token;
use blog_core::token::AuthError;
use blog_core::users::Claims;

const KEY: &[u8] = b"a-process-wide-signing-key";
const OTHER_KEY: &[u8] = b"a-different-signing-key";
const NOW: u64 = 1_700_000_000;

fn fresh_claims() -> Claims {
    Claims {
        email: "user@example.com".to_string(),
        exp: get_timestamp_after_8_hours(NOW),
        is_admin: false,
    }
}

#[test]
fn expiry_is_eight_hours_ahead() {
    assert_eq!(get_timestamp_after_8_hours(100), 28900);
    assert_eq!(get_timestamp_after_8_hours(u64::MAX - 5), u64::MAX);
}

#[test]
fn token_round_trips_right_after_issuance() {
    let claims = fresh_claims();
    let token = issue_token(&claims, KEY).unwrap();
    let got = verify_token(&token, KEY, NOW).unwrap();
    assert_eq!(got.email, "user@example.com");
    assert_eq!(got.exp, NOW + 28800);
    assert!(!got.is_admin);
    // The segments are base64url: none of the raw JSON bytes leak through.
    assert!(token.chars().all(|c| c == '.' || c.is_ascii_alphanumeric() || c == '-' || c == '_'));
}

#[test]
fn admin_flag_round_trips() {
    let claims = Claims { email: "root@example.com".to_string(), exp: NOW + 28800, is_admin: true };
    let token = issue_token(&claims, KEY).unwrap();
    let got = verify_token(&token, KEY, NOW).unwrap();
    assert!(got.is_admin);
    assert_eq!(got.email, "root@example.com");
}

#[test]
fn non_ascii_subjects_round_trip() {
    let claims = Claims {
        email: "\u{00fc}ser@ex\u{00e4}mple.com".to_string(),
        exp: NOW + 28800,
        is_admin: false,
    };
    let token = issue_token(&claims, KEY).unwrap();
    let got = verify_token(&token, KEY, NOW).unwrap();
    assert_eq!(got.email, "\u{00fc}ser@ex\u{00e4}mple.com");
}

#[test]
fn a_far_future_expiration_round_trips() {
    let claims = Claims { email: "user@example.com".to_string(), exp: u64::MAX - 1, is_admin: false };
    let token = issue_token(&claims, KEY).unwrap();
    let got = verify_token(&token, KEY, NOW).unwrap();
    assert_eq!(got.exp, u64::MAX - 1);
}

#[test]
fn token_past_its_window_is_expired() {
    let claims = fresh_claims();
    let token = issue_token(&claims, KEY).unwrap();
    assert_eq!(verify_token(&token, KEY, claims.exp), Err(AuthError::Expired));
    assert_eq!(verify_token(&token, KEY, claims.exp + 1000), Err(AuthError::Expired));
    assert!(verify_token(&token, KEY, claims.exp - 1).is_ok());
}

#[test]
fn token_signed_with_another_key_is_rejected() {
    let claims = fresh_claims();
    let token = issue_token(&claims, OTHER_KEY).unwrap();
    assert_eq!(verify_token(&token, KEY, NOW), Err(AuthError::BadSignature));
}

#[test]
fn garbage_tokens_are_malformed() {
    assert_eq!(verify_token("", KEY, NOW), Err(AuthError::Malformed));
    assert_eq!(verify_token("no-dots-at-all", KEY, NOW), Err(AuthError::Malformed));
    assert_eq!(verify_token("one.dot", KEY, NOW), Err(AuthError::Malformed));
    assert_eq!(verify_token("a.b.c.d", KEY, NOW), Err(AuthError::Malformed));
    assert_eq!(verify_token("!!.!!.!!", KEY, NOW), Err(AuthError::Malformed));
}

#[test]
fn tampered_payload_fails_the_signature() {
    let claims = fresh_claims();
    let token = issue_token(&claims, KEY).unwrap();
    let mut parts: Vec<&str> = token.split('.').collect();
    assert_eq!(parts.len(), 3);
    let flipped = if parts[1].starts_with('A') { "B" } else { "A" };
    let tampered_payload = format!("{}{}", flipped, &parts[1][1..]);
    parts[1] = &tampered_payload;
    let tampered = parts.join(".");
    assert_eq!(verify_token(&tampered, KEY, NOW), Err(AuthError::BadSignature));
}

#[test]
fn cookie_lookup_finds_the_jwt_cookie() {
    assert_eq!(cookie_value("jwt=tok"), Some("tok"));
    assert_eq!(cookie_value("a=b; jwt=tok; c=d"), Some("tok"));
    assert_eq!(cookie_value("a=b;jwt=tok"), Some("tok"));
    assert_eq!(cookie_value("a=b"), None);
    assert_eq!(cookie_value(""), None);
    assert_eq!(cookie_value("jwtx=1; b=2"), None);
    assert_eq!(cookie_value("jwt="), Some(""));
}

#[test]
fn guard_without_cookie_is_absent() {
    let check = classify_token(None, KEY, NOW);
    assert!(matches!(check, TokenCheck::Absent));
    let check2 = classify_token(Some("other=1"), KEY, NOW);
    assert!(matches!(check2, TokenCheck::Absent));
}

#[test]
fn mandatory_mode_requires_a_valid_token() {
    let absent = classify_token(None, KEY, NOW);
    assert_eq!(mandatory_guard(absent), Err(AppError::MissingCredentials));
    let invalid = classify_token(Some("jwt=broken"), KEY, NOW);
    assert!(matches!(invalid, TokenCheck::Invalid(_)));
    assert_eq!(mandatory_guard(invalid), Err(AppError::InvalidToken));

    let token = issue_token(&fresh_claims(), KEY).unwrap();
    let header = format!("session=1; jwt={}", token);
    let valid = classify_token(Some(&header), KEY, NOW);
    let claims = mandatory_guard(valid).unwrap();
    assert_eq!(claims.email, "user@example.com");
}

#[test]
fn optional_mode_never_fails_the_request() {
    assert!(optional_guard(classify_token(None, KEY, NOW)).is_none());
    assert!(optional_guard(classify_token(Some("jwt=broken"), KEY, NOW)).is_none());
    let token = issue_token(&fresh_claims(), KEY).unwrap();
    let expired_header = format!("jwt={}", token);
    let much_later = NOW + 30000;
    assert!(optional_guard(classify_token(Some(&expired_header), KEY, much_later)).is_none());
    let got = optional_guard(classify_token(Some(&expired_header), KEY, NOW)).unwrap();
    assert_eq!(got.email, "user@example.com");
}

#[test]
fn the_two_modes_agree_on_anonymity() {
    let headers: [Option<&str>; 3] = [None, Some("jwt=broken"), Some("x=1")];
    for header in headers {
        let anonymous = optional_guard(classify_token(header, KEY, NOW)).is_none();
        let failed = mandatory_guard(classify_token(header, KEY, NOW)).is_err();
        assert_eq!(anonymous, failed);
    }
}

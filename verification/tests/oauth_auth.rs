use mathtutor::auth::{api_key_matches, provided_token, AuthConfig};
use mathtutor::oauth::{
    check_authorize_fields, check_code_grant, check_redirect_uri, check_refresh_grant, code_grant_fields, csrf_mint, csrf_verify,
    grant_of, parse_i64_exec, pkce_s256, refreshed_scope, CodeRow, Grant, OAuthError, RefreshRow, TokenRequest,
};
use mathtutor::Error;

const VERIFIER: &str = "dBjftJeZ4CVP-mJ92K9uikjE7xOgWTh8Fmt6hsbAmdNc";
const CHALLENGE: &str = "9Zn_qSl-aGcHxwhWCL6ISGvnjUUThFv6bR3ESFb__38";

fn key() -> [u8; 32] {
    let mut k = [0u8; 32];
    for (i, b) in k.iter_mut().enumerate() {
        *b = i as u8;
    }
    k
}

fn code_row() -> CodeRow {
    CodeRow {
        client_id: "client-1".into(),
        redirect_uri: "https://example.com/cb".into(),
        scope: Some("mcp".into()),
        code_challenge: CHALLENGE.into(),
        expires_at: "2026-05-26T00:01:00Z".into(),
        used_at: None,
    }
}

// 2026-05-26T00:00:00Z
const NOW: (i64, u32) = (1_779_753_600, 0);

fn is_invalid_grant(e: &OAuthError) -> bool {
    e.status == 400 && e.code == "invalid_grant"
}

#[test]
fn pkce_matches_independent_sha256_base64url() {
    assert_eq!(pkce_s256(VERIFIER), CHALLENGE);
    assert_ne!(pkce_s256("other"), CHALLENGE);
}

#[test]
fn code_grant_accepted_when_everything_matches() {
    assert!(check_code_grant(&code_row(), "client-1", "https://example.com/cb", VERIFIER, NOW).is_ok());
}

#[test]
fn code_grant_rejects_used_code() {
    let mut row = code_row();
    row.used_at = Some("2026-05-26T00:00:10Z".into());
    let e = check_code_grant(&row, "client-1", "https://example.com/cb", VERIFIER, NOW).unwrap_err();
    assert!(is_invalid_grant(&e));
}

#[test]
fn code_grant_rejects_other_client_and_redirect() {
    let e = check_code_grant(&code_row(), "client-2", "https://example.com/cb", VERIFIER, NOW).unwrap_err();
    assert!(is_invalid_grant(&e));
    let e = check_code_grant(&code_row(), "client-1", "https://evil.example/cb", VERIFIER, NOW).unwrap_err();
    assert!(is_invalid_grant(&e));
}

#[test]
fn code_grant_rejects_expired_code() {
    let later = (NOW.0 + 61, 0);
    let e = check_code_grant(&code_row(), "client-1", "https://example.com/cb", VERIFIER, later).unwrap_err();
    assert!(is_invalid_grant(&e));
}

#[test]
fn code_grant_rejects_bad_pkce_verifier() {
    let e = check_code_grant(&code_row(), "client-1", "https://example.com/cb", "wrong-verifier", NOW).unwrap_err();
    assert!(is_invalid_grant(&e));
    assert_eq!(e.description, "authorization grant is invalid, expired, revoked, or does not match");
}

#[test]
fn code_grant_unparsable_expiry_is_server_error() {
    let mut row = code_row();
    row.expires_at = "not a time".into();
    let e = check_code_grant(&row, "client-1", "https://example.com/cb", VERIFIER, NOW).unwrap_err();
    assert_eq!(e.status, 500);
    assert_eq!(e.code, "server_error");
    assert!(e.description.starts_with("bad timestamp: not a time: "), "got {}", e.description);
}

#[test]
fn refresh_grant_checks_expiry_and_pinned_client() {
    let row = RefreshRow { client_id: "client-1".into(), scope: None, expires_at: "2026-06-01T00:00:00Z".into() };
    assert!(check_refresh_grant(&row, None, NOW).is_ok());
    assert!(check_refresh_grant(&row, Some("client-1"), NOW).is_ok());
    assert!(is_invalid_grant(&check_refresh_grant(&row, Some("client-2"), NOW).unwrap_err()));
    let expired = RefreshRow { client_id: "client-1".into(), scope: None, expires_at: "2026-05-25T00:00:00Z".into() };
    assert!(is_invalid_grant(&check_refresh_grant(&expired, None, NOW).unwrap_err()));
}

#[test]
fn refreshed_scope_prefers_requested() {
    assert_eq!(refreshed_scope(Some("a".into()), Some("b".into())), Some("a".to_string()));
    assert_eq!(refreshed_scope(None, Some("b".into())), Some("b".to_string()));
    assert_eq!(refreshed_scope(None, None), None);
}

#[test]
fn token_endpoint_dispatch_by_grant_type() {
    assert_eq!(grant_of("authorization_code").unwrap(), Grant::AuthorizationCode);
    assert_eq!(grant_of("refresh_token").unwrap(), Grant::RefreshToken);
    let e = grant_of("password").unwrap_err();
    assert_eq!(e.code, "unsupported_grant_type");
    assert_eq!(e.description, "grant_type `password` is not supported");
}

#[test]
fn code_grant_fields_name_the_first_missing_one() {
    let mut req = TokenRequest {
        grant_type: "authorization_code".into(),
        code: Some("c".into()),
        redirect_uri: Some("u".into()),
        client_id: Some("i".into()),
        code_verifier: Some("v".into()),
        refresh_token: None,
        scope: None,
    };
    assert_eq!(code_grant_fields(&req).unwrap(), ("c".to_string(), "v".to_string(), "u".to_string(), "i".to_string()));
    req.code_verifier = None;
    req.client_id = None;
    let e = code_grant_fields(&req).unwrap_err();
    assert_eq!(e.code, "invalid_request");
    assert_eq!(e.description, "code_verifier is required");
    req.code = None;
    assert_eq!(code_grant_fields(&req).unwrap_err().description, "code is required");
}

#[test]
fn authorize_fields_and_redirect_checks() {
    assert!(check_authorize_fields("code", "S256", "abc").is_ok());
    assert_eq!(check_authorize_fields("token", "S256", "abc").unwrap_err().code, "unsupported_response_type");
    assert_eq!(check_authorize_fields("code", "plain", "abc").unwrap_err().description, "code_challenge_method must be S256");
    assert_eq!(check_authorize_fields("code", "S256", "").unwrap_err().description, "code_challenge is required");
    let registered = vec!["https://a/cb".to_string(), "https://b/cb".to_string()];
    assert!(check_redirect_uri(&registered, "https://b/cb").is_ok());
    assert_eq!(check_redirect_uri(&registered, "https://c/cb").unwrap_err().code, "invalid_request");
}

#[test]
fn csrf_mint_matches_independent_hmac() {
    assert_eq!(csrf_mint(&key(), "client-1", 1_700_000_000), "1700000000.dMCYGBqbZicB8JXW_PHvIdBkwDKgnlGbiVkK9-aRhG8");
}

#[test]
fn csrf_round_trip_within_ttl_only() {
    let t = csrf_mint(&key(), "client-1", 1_700_000_000);
    assert!(csrf_verify(&key(), "client-1", &t, 1_700_000_000));
    assert!(csrf_verify(&key(), "client-1", &t, 1_700_000_900));
    assert!(!csrf_verify(&key(), "client-1", &t, 1_700_000_901));
    assert!(!csrf_verify(&key(), "client-1", &t, 1_699_999_999));
    assert!(!csrf_verify(&key(), "client-2", &t, 1_700_000_000));
    assert!(!csrf_verify(&key(), "client-1", "garbage", 1_700_000_000));
    assert!(!csrf_verify(&key(), "client-1", "abc.def", 1_700_000_000));
}

#[test]
fn csrf_handles_negative_times() {
    let t = csrf_mint(&key(), "c", -5);
    assert!(t.starts_with("-5."));
    assert!(csrf_verify(&key(), "c", &t, 0));
}

#[test]
fn parse_i64_follows_from_str() {
    assert_eq!(parse_i64_exec("42"), Some(42));
    assert_eq!(parse_i64_exec("+7"), Some(7));
    assert_eq!(parse_i64_exec("-9223372036854775808"), Some(i64::MIN));
    assert_eq!(parse_i64_exec("9223372036854775808"), None);
    assert_eq!(parse_i64_exec("-"), None);
    assert_eq!(parse_i64_exec("1a"), None);
    assert_eq!(parse_i64_exec(""), None);
}

#[test]
fn auth_config_requires_a_mode() {
    let none = AuthConfig { api_key: None, admin_password: None, public_url: None };
    assert_eq!(none.validate(), Err(Error::MissingAuth));
    let key_only = AuthConfig { api_key: Some("k".into()), admin_password: None, public_url: None };
    assert!(key_only.validate().is_ok());
    let oauth_only = AuthConfig { api_key: None, admin_password: Some("pw".into()), public_url: None };
    assert!(oauth_only.validate().is_ok());
}

#[test]
fn bearer_token_from_header_then_query() {
    assert_eq!(provided_token(Some("Bearer abc"), Some("q".into())), Some("abc".to_string()));
    assert_eq!(provided_token(Some("Basic abc"), Some("q".into())), Some("q".to_string()));
    assert_eq!(provided_token(None, None), None);
    assert!(api_key_matches(Some("secret"), "secret"));
    assert!(!api_key_matches(Some("secret"), "secreT"));
    assert!(!api_key_matches(Some("secret"), "secret2"));
    assert!(!api_key_matches(None, "secret"));
}

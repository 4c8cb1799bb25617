use mathtutor::grants::{redeem_code, take_refresh_token, token_authorization_code, token_refresh, Table};
use mathtutor::oauth::{
    csrf_mint, login_outcome, pkce_s256, AuthorizeQuery, CodeRow, LoginOutcome, OAuthError, RefreshRow, TokenRequest,
    ACCESS_TOKEN_TTL_SECS, REFRESH_TOKEN_TTL_SECS,
};

// 2026-05-26T00:00:00Z
const NOW: (i64, u32) = (1_779_753_600, 0);
const STAMP: &str = "2026-05-26T00:00:00.000Z";
const VERIFIER: &str = "dBjftJeZ4CVP-mB92K27uhbUJU1p1r_wW1gFWFOEjXk";

fn key() -> [u8; 32] {
    let mut k = [0u8; 32];
    for (i, b) in k.iter_mut().enumerate() {
        *b = (i * 3 + 1) as u8;
    }
    k
}

fn code_table(code: &str) -> Table<CodeRow> {
    let mut t = Table::new();
    assert!(t.insert(
        code.to_string(),
        CodeRow {
            client_id: "client-1".into(),
            redirect_uri: "http://localhost/cb".into(),
            scope: Some("mcp".into()),
            code_challenge: pkce_s256(VERIFIER),
            expires_at: "2026-05-26T00:01:00.000Z".into(),
            used_at: None,
        },
    ));
    t
}

fn code_request(code: &str, verifier: &str) -> TokenRequest {
    TokenRequest {
        grant_type: "authorization_code".into(),
        code: Some(code.into()),
        redirect_uri: Some("http://localhost/cb".into()),
        client_id: Some("client-1".into()),
        code_verifier: Some(verifier.into()),
        refresh_token: None,
        scope: None,
    }
}

fn refresh_request(token: &str) -> TokenRequest {
    TokenRequest {
        grant_type: "refresh_token".into(),
        code: None,
        redirect_uri: None,
        client_id: Some("client-1".into()),
        code_verifier: None,
        refresh_token: Some(token.into()),
        scope: None,
    }
}

fn assert_invalid_grant(e: &OAuthError) {
    assert_eq!(e.status, 400);
    assert_eq!(e.code, "invalid_grant");
}

#[test]
fn wrong_password_re_renders_form_without_issuing_code() {
    let q = AuthorizeQuery {
        response_type: "code".into(),
        client_id: "client-1".into(),
        redirect_uri: "http://localhost/cb".into(),
        state: None,
        code_challenge: pkce_s256(VERIFIER),
        code_challenge_method: "S256".into(),
        scope: None,
        resource: None,
    };
    let csrf = csrf_mint(&key(), "client-1", NOW.0);
    match login_outcome(&key(), &q, &csrf, "the password", "not the password", NOW.0) {
        LoginOutcome::WrongPassword { status, page } => {
            assert_eq!(status, 401);
            assert!(page.contains("Incorrect password"));
        }
        other => panic!("expected the form again, got {other:?}"),
    }
}

#[test]
fn authorization_code_is_single_use() {
    let mut codes = code_table("c1");
    let first = token_authorization_code(&mut codes, &code_request("c1", VERIFIER), NOW, STAMP.into(), "a1".into(), "r1".into())
        .expect("first redemption succeeds");
    assert_eq!(first.response.token_type, "Bearer");
    assert_eq!(first.response.expires_in, ACCESS_TOKEN_TTL_SECS);
    assert_eq!(first.response.access_token, "a1");
    assert_eq!(first.response.refresh_token, "r1");
    assert_eq!(first.response.scope.as_deref(), Some("mcp"));
    assert_eq!(first.access_expires_at, (NOW.0 + ACCESS_TOKEN_TTL_SECS, 0));
    assert_eq!(first.refresh_expires_at, (NOW.0 + REFRESH_TOKEN_TTL_SECS, 0));

    let second = token_authorization_code(&mut codes, &code_request("c1", VERIFIER), NOW, STAMP.into(), "a2".into(), "r2".into())
        .expect_err("second redemption rejected");
    assert_invalid_grant(&second);
}

#[test]
fn redeeming_marks_the_code_used_at_the_stamp() {
    let mut codes = code_table("c1");
    assert_eq!(redeem_code(&mut codes, "c1", "client-1", "http://localhost/cb", VERIFIER, NOW, STAMP.into()).unwrap(), Some("mcp".into()));
    assert!(codes.contains("c1"));
    let again = redeem_code(&mut codes, "c1", "client-1", "http://localhost/cb", VERIFIER, NOW, STAMP.into()).unwrap_err();
    assert_invalid_grant(&again);
}

#[test]
fn token_endpoint_rejects_bad_pkce_verifier() {
    let mut codes = code_table("c1");
    let e = token_authorization_code(&mut codes, &code_request("c1", "wrong-verifier"), NOW, STAMP.into(), "a".into(), "r".into())
        .unwrap_err();
    assert_invalid_grant(&e);
    // A refused attempt leaves the code redeemable.
    assert!(token_authorization_code(&mut codes, &code_request("c1", VERIFIER), NOW, STAMP.into(), "a".into(), "r".into()).is_ok());
}

#[test]
fn unknown_code_and_missing_fields_are_refused() {
    let mut codes = code_table("c1");
    assert_invalid_grant(
        &token_authorization_code(&mut codes, &code_request("nope", VERIFIER), NOW, STAMP.into(), "a".into(), "r".into())
            .unwrap_err(),
    );
    let mut req = code_request("c1", VERIFIER);
    req.code_verifier = None;
    let e = token_authorization_code(&mut codes, &req, NOW, STAMP.into(), "a".into(), "r".into()).unwrap_err();
    assert_eq!((e.status, e.code.as_str(), e.description.as_str()), (400, "invalid_request", "code_verifier is required"));
}

#[test]
fn refresh_token_rotates_and_returns_a_fresh_access_token() {
    let mut tokens = Table::new();
    assert!(tokens.insert(
        "r1".to_string(),
        RefreshRow { client_id: "client-1".into(), scope: Some("mcp".into()), expires_at: "2026-06-25T00:00:00.000Z".into() },
    ));
    let refreshed = token_refresh(&mut tokens, &refresh_request("r1"), NOW, "a2".into(), "r2".into()).unwrap();
    assert_ne!(refreshed.response.access_token, "a1", "refresh must mint a fresh access token");
    assert_ne!(refreshed.response.refresh_token, "r1", "refresh tokens rotate");
    assert_eq!(refreshed.response.scope.as_deref(), Some("mcp"));
    assert!(!tokens.contains("r1"));

    let replay = token_refresh(&mut tokens, &refresh_request("r1"), NOW, "a3".into(), "r3".into()).unwrap_err();
    assert_invalid_grant(&replay);
}

#[test]
fn refresh_needs_a_token_and_the_pinned_client() {
    let mut tokens = Table::new();
    assert!(tokens.insert(
        "r1".to_string(),
        RefreshRow { client_id: "client-1".into(), scope: None, expires_at: "2026-06-25T00:00:00.000Z".into() },
    ));
    let mut req = refresh_request("r1");
    req.refresh_token = None;
    let e = token_refresh(&mut tokens, &req, NOW, "a".into(), "r".into()).unwrap_err();
    assert_eq!((e.status, e.code.as_str(), e.description.as_str()), (400, "invalid_request", "refresh_token is required"));
    assert_invalid_grant(&take_refresh_token(&mut tokens, "r1", Some("client-2"), NOW).unwrap_err());
    assert!(tokens.contains("r1"));
    assert_eq!(take_refresh_token(&mut tokens, "r1", None, NOW).unwrap(), ("client-1".to_string(), None));
    assert!(!tokens.contains("r1"));
}

#[test]
fn a_key_is_stored_once() {
    let mut t: Table<u8> = Table::new();
    assert!(t.insert("k".into(), 1));
    assert!(!t.insert("k".into(), 2));
    assert!(t.contains("k"));
    assert!(!t.contains("j"));
}

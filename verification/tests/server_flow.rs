use mathtutor::auth::AuthConfig;
use mathtutor::oauth::{
    authorize_redirect, code_expiry, csrf_mint, issue_tokens, login_outcome, AuthorizeQuery, LoginOutcome,
    ACCESS_TOKEN_TTL_SECS, AUTHORIZATION_CODE_TTL_SECS, REFRESH_TOKEN_TTL_SECS,
};
use mathtutor::server::{plan_server, resolve_public_url};
use mathtutor::Error;

const NOW: i64 = 1_779_753_600;

fn key() -> [u8; 32] {
    let mut k = [0u8; 32];
    for (i, b) in k.iter_mut().enumerate() {
        *b = (i * 7) as u8;
    }
    k
}

fn query(state: Option<&str>, redirect_uri: &str) -> AuthorizeQuery {
    AuthorizeQuery {
        response_type: "code".into(),
        client_id: "client-1".into(),
        redirect_uri: redirect_uri.into(),
        state: state.map(String::from),
        code_challenge: "ch".into(),
        code_challenge_method: "S256".into(),
        scope: None,
        resource: None,
    }
}

fn auth(api_key: Option<&str>, admin_password: Option<&str>, public_url: Option<&str>) -> AuthConfig {
    AuthConfig {
        api_key: api_key.map(String::from),
        admin_password: admin_password.map(String::from),
        public_url: public_url.map(String::from),
    }
}

#[test]
fn public_url_defaults_to_the_bind_address() {
    assert_eq!(resolve_public_url(None, "127.0.0.1:8080"), Ok("http://127.0.0.1:8080/".to_string()));
    assert_eq!(resolve_public_url(Some("https://tutor.example"), "127.0.0.1:8080"), Ok("https://tutor.example/".to_string()));
    assert_eq!(resolve_public_url(Some("not a url"), "127.0.0.1:8080"), Err(Error::BadPublicUrl("not a url".into())));
}

#[test]
fn server_plan_needs_an_auth_mode_and_turns_oauth_on_with_a_password() {
    assert_eq!(plan_server(&auth(None, None, None), "127.0.0.1:8080").unwrap_err(), Error::MissingAuth);
    let key_only = plan_server(&auth(Some("k"), None, None), "127.0.0.1:8080").unwrap();
    assert!(!key_only.oauth);
    assert_eq!(key_only.api_key.as_deref(), Some("k"));
    assert_eq!(key_only.public_url, "http://127.0.0.1:8080/");
    let oauth = plan_server(&auth(None, Some("pw"), Some("https://t.example/base")), "0.0.0.0:1").unwrap();
    assert!(oauth.oauth);
    assert_eq!(oauth.public_url, "https://t.example/base");
    assert_eq!(plan_server(&auth(Some("k"), None, Some("::bad")), "x").unwrap_err(), Error::BadPublicUrl("::bad".into()));
}

#[test]
fn login_checks_csrf_then_password() {
    let q = query(Some("st"), "https://x/cb");
    let csrf = csrf_mint(&key(), "client-1", NOW);
    assert!(matches!(login_outcome(&key(), &q, &csrf, "secret", "secret", NOW + 10), LoginOutcome::Granted));
    match login_outcome(&key(), &q, &csrf, "secret", "guess", NOW + 10) {
        LoginOutcome::WrongPassword { status, page } => {
            assert_eq!(status, 401);
            assert!(page.contains(r#"<p style="color:#b00020">Incorrect password.</p>"#));
            assert!(page.contains(&format!(r#"name="csrf" value="{}">"#, csrf_mint(&key(), "client-1", NOW + 10))));
        }
        other => panic!("expected the form again, got {other:?}"),
    }
    match login_outcome(&key(), &q, &csrf, "secret", "secret", NOW + 901) {
        LoginOutcome::Refused(e) => {
            assert_eq!(e.status, 400);
            assert_eq!(e.code, "invalid_request");
            assert_eq!(e.description, "invalid or expired csrf token");
        }
        other => panic!("expected a refusal, got {other:?}"),
    }
}

#[test]
fn granted_sign_in_redirects_with_code_and_state() {
    let with_state = authorize_redirect(&query(Some("s 1"), "https://x/cb?a=1"), "c0de").unwrap();
    assert_eq!(with_state, "https://x/cb?a=1&code=c0de&state=s+1");
    let without = authorize_redirect(&query(None, "https://x/cb"), "c").unwrap();
    assert_eq!(without, "https://x/cb?code=c");
    let e = authorize_redirect(&query(None, "no url"), "c").unwrap_err();
    assert_eq!(e.description, "redirect_uri is not a valid URL");
}

#[test]
fn issued_tokens_carry_their_lifetimes() {
    let t = issue_tokens("a".into(), "r".into(), Some("mcp".into()), (NOW, 5));
    assert_eq!(t.response.token_type, "Bearer");
    assert_eq!(t.response.expires_in, 3600);
    assert_eq!(t.response.access_token, "a");
    assert_eq!(t.response.refresh_token, "r");
    assert_eq!(t.response.scope.as_deref(), Some("mcp"));
    assert_eq!(t.access_expires_at, (NOW + ACCESS_TOKEN_TTL_SECS, 5));
    assert_eq!(t.refresh_expires_at, (NOW + 30 * 86_400, 5));
    assert_eq!(REFRESH_TOKEN_TTL_SECS, 30 * 86_400);
    assert_eq!(code_expiry((NOW, 0)), (NOW + AUTHORIZATION_CODE_TTL_SECS, 0));
    assert_eq!(AUTHORIZATION_CODE_TTL_SECS, 60);
}

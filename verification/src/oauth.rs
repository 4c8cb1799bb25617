//! The decisions of the OAuth authorization server in front of the MCP
//! endpoint: which token and authorize requests are refused and how,
//! PKCE (S256) and the HMAC-signed CSRF value of the login form. Storage,
//! randomness and the clock stay with the caller, which hands in the rows
//! it read and the current time.
use crate::auth::constant_time_eq;
use crate::db::{instant_before, instant_lt, parse_ts, rfc3339_parse};
use crate::error::{error_message, Error};
use crate::ids::{chars_of, opt_view, str_eq, to_owned};
use crate::text::{concat, decimal, joined, signed_decimal, signed_decimal_string, views};
use crate::tree::{dec_digit, digits_value, lemma_decimal_digits, lemma_digits_value_mono};
use base64::Engine;
use hmac::Mac;
use sha2::Digest;
use vstd::prelude::*;
use vstd::string::*;

verus! {

/// An OAuth error response: HTTP status, error code and description.
#[derive(Debug)]
pub struct OAuthError {
    pub status: u16,
    pub code: String,
    pub description: String,
}

/// The fields of a token request.
#[derive(Debug)]
pub struct TokenRequest {
    pub grant_type: String,
    pub code: Option<String>,
    pub redirect_uri: Option<String>,
    pub client_id: Option<String>,
    pub code_verifier: Option<String>,
    pub refresh_token: Option<String>,
    pub scope: Option<String>,
}

/// A stored authorization code.
#[derive(Debug)]
pub struct CodeRow {
    pub client_id: String,
    pub redirect_uri: String,
    pub scope: Option<String>,
    pub code_challenge: String,
    pub expires_at: String,
    pub used_at: Option<String>,
}

/// A stored refresh token.
#[derive(Debug)]
pub struct RefreshRow {
    pub client_id: String,
    pub scope: Option<String>,
    pub expires_at: String,
}

/// The two grants the token endpoint serves.
#[derive(Debug, Clone, Copy, PartialEq, Eq)]
pub enum Grant {
    AuthorizationCode,
    RefreshToken,
}

/// Seconds a CSRF value of the login form stays valid.
pub const CSRF_TTL_SECS: i64 = 900;

/// Seconds an access token lives.
pub const ACCESS_TOKEN_TTL_SECS: i64 = 3600;

// ── Outside computations ──────────────────────────────────────────

/// The SHA-256 digest of `data`.
pub uninterp spec fn sha256_of(data: Seq<u8>) -> Seq<u8>;

/// `data` in base64 with the URL-safe alphabet and no padding.
pub uninterp spec fn base64url_of(data: Seq<u8>) -> Seq<char>;

/// What decoding `text` as URL-safe base64 without padding gives, if it
/// decodes.
pub uninterp spec fn base64url_decoded(text: Seq<char>) -> Option<Seq<u8>>;

/// HMAC-SHA256 of `msg` under `key`.
pub uninterp spec fn hmac_sha256_of(key: Seq<u8>, msg: Seq<u8>) -> Seq<u8>;

/// A character of the URL-safe base64 alphabet.
pub open spec fn url_safe_char(c: char) -> bool {
    ('A' <= c <= 'Z') || ('a' <= c <= 'z') || ('0' <= c <= '9') || c == '-' || c == '_'
}

/// `sha2::Sha256::digest`: the SHA-256 digest of `data`, 32 bytes long.
#[verifier::external_body]
fn sha256(data: &[u8]) -> (r: Vec<u8>)
    ensures
        r@ == sha256_of(data@),
        r@.len() == 32,
{
    sha2::Sha256::digest(data).to_vec()
}

/// `base64::engine::general_purpose::URL_SAFE_NO_PAD.encode`: `data` in
/// base64 with the URL-safe alphabet (letters, digits, `-`, `_`) and no
/// padding; decoding the text with the same engine gives `data` back.
#[verifier::external_body]
fn base64url_encode(data: &[u8]) -> (r: String)
    ensures
        r@ == base64url_of(data@),
        base64url_decoded(r@) == Some(data@),
        forall|i: int| 0 <= i < r@.len() ==> #[trigger] url_safe_char(r@[i]),
{
    base64::engine::general_purpose::URL_SAFE_NO_PAD.encode(data)
}

/// `base64::engine::general_purpose::URL_SAFE_NO_PAD.decode`: the bytes
/// `text` stands for, or `None` when it is not valid for that engine.
#[verifier::external_body]
fn base64url_decode(text: &str) -> (r: Option<Vec<u8>>)
    ensures
        match r {
            Some(v) => base64url_decoded(text@) == Some(v@),
            None => base64url_decoded(text@) is None,
        },
{
    base64::engine::general_purpose::URL_SAFE_NO_PAD.decode(text).ok()
}

/// `hmac::Hmac<Sha256>` keyed with `key` (`new_from_slice`, which takes a
/// key of any length), fed `msg` and finalized: the HMAC-SHA256 of `msg`.
#[verifier::external_body]
fn hmac_sha256(key: &[u8], msg: &[u8]) -> (r: Vec<u8>)
    ensures
        r@ == hmac_sha256_of(key@, msg@),
{
    let mut m = <hmac::Hmac<sha2::Sha256> as hmac::Mac>::new_from_slice(key).unwrap();
    m.update(msg);
    m.finalize().into_bytes().to_vec()
}

/// The eight bytes of `x` in two's complement, most significant first
/// (see `be_bytes_of`).
fn be_bytes(x: i64) -> (r: [u8; 8])
    ensures
        r@ == be_bytes_of(x),
{
    let u: u64 = if x < 0 {
        (x as i128 + 0x1_0000_0000_0000_0000i128) as u64
    } else {
        x as u64
    };
    let ghost ui: int = if x < 0 {
        x + 0x1_0000_0000_0000_0000
    } else {
        x as int
    };
    assert(u as int == ui);
    let mut out: [u8; 8] = [0u8; 8];
    let mut v: u64 = u;
    let mut k: usize = 0;
    proof {
        assert(pow256(0) == 1);
    }
    while k < 8
        invariant
            k <= 8,
            out@.len() == 8,
            v as int == ui / pow256(k as int),
            0 <= ui,
            forall|j: int| 8 - k <= j < 8 ==> out@[j] == ((ui / pow256(7 - j)) % 256) as u8,
        decreases 8 - k,
    {
        proof {
            lemma_pow256_pos(k as int);
            vstd::arithmetic::div_mod::lemma_div_denominator(ui, pow256(k as int), 256);
            assert(pow256(k + 1) == 256 * pow256(k as int));
            assert(pow256(k as int) * 256 == 256 * pow256(k as int)) by (nonlinear_arith);
        }
        let b: u8 = (v % 256) as u8;
        out.set(7 - k, b);
        v = v / 256;
        k = k + 1;
    }
    proof {
        assert forall|j: int| 0 <= j < 8 implies out@[j] == be_bytes_of(x)[j] by {}
        assert(out@ =~= be_bytes_of(x));
    }
    out
}

proof fn lemma_pow256_pos(k: int)
    ensures
        pow256(k) > 0,
    decreases k,
{
    if k > 0 {
        lemma_pow256_pos(k - 1);
    }
}

/// The big-endian two's-complement bytes of `x`.
pub open spec fn be_bytes_of(x: i64) -> Seq<u8> {
    let u: int = if x < 0 {
        x + 0x1_0000_0000_0000_0000
    } else {
        x as int
    };
    Seq::new(8, |i: int| ((u / pow256(7 - i)) % 256) as u8)
}

/// 256 to the power `k`.
pub open spec fn pow256(k: int) -> int
    decreases k,
{
    if k <= 0 {
        1
    } else {
        256 * pow256(k - 1)
    }
}

// ── Errors ────────────────────────────────────────────────────────

pub open spec fn oauth_error_is(e: OAuthError, status: u16, code: Seq<char>, description: Seq<char>) -> bool {
    e.status == status && e.code@ == code && e.description@ == description
}

pub open spec fn invalid_grant_text() -> Seq<char> {
    "authorization grant is invalid, expired, revoked, or does not match"@
}

impl OAuthError {
    /// 400 `invalid_request` with `msg`.
    pub fn invalid_request(msg: &str) -> (e: OAuthError)
        ensures
            oauth_error_is(e, 400, "invalid_request"@, msg@),
    {
        OAuthError { status: 400, code: to_owned("invalid_request"), description: to_owned(msg) }
    }

    /// 400 `invalid_grant`.
    pub fn invalid_grant() -> (e: OAuthError)
        ensures
            oauth_error_is(e, 400, "invalid_grant"@, invalid_grant_text()),
    {
        OAuthError {
            status: 400,
            code: to_owned("invalid_grant"),
            description: to_owned("authorization grant is invalid, expired, revoked, or does not match"),
        }
    }

    /// 400 `unsupported_response_type`.
    pub fn unsupported_response_type() -> (e: OAuthError)
        ensures
            oauth_error_is(e, 400, "unsupported_response_type"@, "only `code` is supported"@),
    {
        OAuthError {
            status: 400,
            code: to_owned("unsupported_response_type"),
            description: to_owned("only `code` is supported"),
        }
    }

    /// 400 `unsupported_grant_type` naming `grant`.
    pub fn unsupported_grant_type(grant: &str) -> (e: OAuthError)
        ensures
            oauth_error_is(e, 400, "unsupported_grant_type"@, joined(seq!["grant_type `"@, grant@, "` is not supported"@])),
    {
        let parts: [&str; 3] = ["grant_type `", grant, "` is not supported"];
        let d = concat(&parts);
        assert(views(parts@) =~= seq!["grant_type `"@, grant@, "` is not supported"@]);
        OAuthError { status: 400, code: to_owned("unsupported_grant_type"), description: d }
    }

    /// 500 `server_error` with `msg`.
    pub fn server_error(msg: String) -> (e: OAuthError)
        ensures
            oauth_error_is(e, 500, "server_error"@, msg@),
    {
        OAuthError { status: 500, code: to_owned("server_error"), description: msg }
    }
}

// ── Token endpoint ────────────────────────────────────────────────

/// The grant a token request asks for; `unsupported_grant_type` for any
/// other `grant_type`.
pub fn grant_of(grant_type: &str) -> (r: Result<Grant, OAuthError>)
    ensures
        grant_type@ == "authorization_code"@ ==> r == Ok::<Grant, OAuthError>(Grant::AuthorizationCode),
        grant_type@ == "refresh_token"@ ==> r == Ok::<Grant, OAuthError>(Grant::RefreshToken),
        grant_type@ != "authorization_code"@ && grant_type@ != "refresh_token"@ ==> (r matches Err(e)
            && oauth_error_is(e, 400, "unsupported_grant_type"@, joined(seq!["grant_type `"@, grant_type@, "` is not supported"@]))),
{
    proof {
        reveal_strlit("authorization_code");
        reveal_strlit("refresh_token");
        assert("authorization_code"@.len() != "refresh_token"@.len());
    }
    if str_eq(grant_type, "authorization_code") {
        Ok(Grant::AuthorizationCode)
    } else if str_eq(grant_type, "refresh_token") {
        Ok(Grant::RefreshToken)
    } else {
        Err(OAuthError::unsupported_grant_type(grant_type))
    }
}

/// The fields an authorization-code grant needs, in the order they are
/// checked: `code`, `code_verifier`, `redirect_uri`, `client_id`; the
/// first missing one is an `invalid_request` naming it.
pub fn code_grant_fields(req: &TokenRequest) -> (r: Result<(String, String, String, String), OAuthError>)
    ensures
        match r {
            Ok((c, v, u, i)) => req.code == Some(c) && req.code_verifier == Some(v) && req.redirect_uri == Some(u)
                && req.client_id == Some(i),
            Err(e) => if req.code is None {
                oauth_error_is(e, 400, "invalid_request"@, "code is required"@)
            } else if req.code_verifier is None {
                oauth_error_is(e, 400, "invalid_request"@, "code_verifier is required"@)
            } else if req.redirect_uri is None {
                oauth_error_is(e, 400, "invalid_request"@, "redirect_uri is required"@)
            } else {
                req.client_id is None && oauth_error_is(e, 400, "invalid_request"@, "client_id is required"@)
            },
        },
{
    let code = match &req.code {
        Some(c) => c.clone(),
        None => return Err(OAuthError::invalid_request("code is required")),
    };
    let verifier = match &req.code_verifier {
        Some(v) => v.clone(),
        None => return Err(OAuthError::invalid_request("code_verifier is required")),
    };
    let redirect = match &req.redirect_uri {
        Some(u) => u.clone(),
        None => return Err(OAuthError::invalid_request("redirect_uri is required")),
    };
    let client = match &req.client_id {
        Some(i) => i.clone(),
        None => return Err(OAuthError::invalid_request("client_id is required")),
    };
    Ok((code, verifier, redirect, client))
}

/// RFC 7636 S256: `BASE64URL(SHA256(verifier))` without padding.
pub fn pkce_s256(verifier: &str) -> (r: String)
    ensures
        r@ == base64url_of(sha256_of(verifier.spec_bytes())),
{
    let d = sha256(verifier.as_bytes());
    base64url_encode(d.as_slice())
}

/// The verdict on an authorization-code grant against its stored row, in
/// order: a used code, another client, another redirect URI, an expired
/// code and a verifier whose S256 is not the stored challenge are each
/// `invalid_grant`; an expiry that does not parse is a `server_error` with
/// the parse error's message. `now` is the current instant.
pub fn check_code_grant(row: &CodeRow, client_id: &str, redirect_uri: &str, verifier: &str, now: (i64, u32)) -> (r: Result<(), OAuthError>)
    ensures
        ({
            let bad = oauth_error_is(r->Err_0, 400, "invalid_grant"@, invalid_grant_text());
            if row.used_at is Some || row.client_id@ != client_id@ || row.redirect_uri@ != redirect_uri@ {
                r is Err && bad
            } else {
                match crate::db::rfc3339_parse(row.expires_at@) {
                    Err(m) => r is Err && oauth_error_is(r->Err_0, 500, "server_error"@, joined(
                        seq!["bad timestamp: "@, joined(seq![row.expires_at@, ": "@, m])],
                    )),
                    Ok(t) => if instant_lt(t, now) || base64url_of(sha256_of(verifier.spec_bytes())) != row.code_challenge@ {
                        r is Err && bad
                    } else {
                        r is Ok
                    },
                }
            }
        }),
{
    if row.used_at.is_some() {
        return Err(OAuthError::invalid_grant());
    }
    if !str_eq(row.client_id.as_str(), client_id) {
        return Err(OAuthError::invalid_grant());
    }
    if !str_eq(row.redirect_uri.as_str(), redirect_uri) {
        return Err(OAuthError::invalid_grant());
    }
    let exp = match parse_ts(row.expires_at.as_str()) {
        Ok(t) => t,
        Err(e) => {
            let m = e.message();
            return Err(OAuthError::server_error(m));
        },
    };
    if crate::db::instant_before(exp, now) {
        return Err(OAuthError::invalid_grant());
    }
    let p = pkce_s256(verifier);
    if !str_eq(p.as_str(), row.code_challenge.as_str()) {
        return Err(OAuthError::invalid_grant());
    }
    Ok(())
}

/// The verdict on a refresh grant against its stored row: an expiry that
/// does not parse is a `server_error` with the parse error's message; an
/// expired token, or a `client_id` pinned in the request that is not the
/// token's client, is `invalid_grant`.
pub fn check_refresh_grant(row: &RefreshRow, pinned_client: Option<&str>, now: (i64, u32)) -> (r: Result<(), OAuthError>)
    ensures
        match crate::db::rfc3339_parse(row.expires_at@) {
            Err(m) => r is Err && oauth_error_is(r->Err_0, 500, "server_error"@, joined(
                seq!["bad timestamp: "@, joined(seq![row.expires_at@, ": "@, m])],
            )),
            Ok(t) => if instant_lt(t, now) || (pinned_client matches Some(c) && c@ != row.client_id@) {
                r is Err && oauth_error_is(r->Err_0, 400, "invalid_grant"@, invalid_grant_text())
            } else {
                r is Ok
            },
        },
{
    let exp = match parse_ts(row.expires_at.as_str()) {
        Ok(t) => t,
        Err(e) => {
            let m = e.message();
            return Err(OAuthError::server_error(m));
        },
    };
    if crate::db::instant_before(exp, now) {
        return Err(OAuthError::invalid_grant());
    }
    if let Some(c) = pinned_client {
        if !str_eq(c, row.client_id.as_str()) {
            return Err(OAuthError::invalid_grant());
        }
    }
    Ok(())
}

/// The scope of a refreshed token pair: the requested one, else the one
/// stored with the refresh token.
pub fn refreshed_scope(requested: Option<String>, stored: Option<String>) -> (r: Option<String>)
    ensures
        r == (if requested is Some { requested } else { stored }),
{
    match requested {
        Some(s) => Some(s),
        None => stored,
    }
}

// ── Authorize endpoint ────────────────────────────────────────────

/// The checks of an authorize request that need no stored client, in
/// order: `response_type` must be `code` (`unsupported_response_type`),
/// the challenge method `S256` and the challenge non-empty (each an
/// `invalid_request`).
pub fn check_authorize_fields(response_type: &str, code_challenge_method: &str, code_challenge: &str) -> (r: Result<(), OAuthError>)
    ensures
        if response_type@ != "code"@ {
            r is Err && oauth_error_is(r->Err_0, 400, "unsupported_response_type"@, "only `code` is supported"@)
        } else if code_challenge_method@ != "S256"@ {
            r is Err && oauth_error_is(r->Err_0, 400, "invalid_request"@, "code_challenge_method must be S256"@)
        } else if code_challenge@.len() == 0 {
            r is Err && oauth_error_is(r->Err_0, 400, "invalid_request"@, "code_challenge is required"@)
        } else {
            r is Ok
        },
{
    if !str_eq(response_type, "code") {
        return Err(OAuthError::unsupported_response_type());
    }
    if !str_eq(code_challenge_method, "S256") {
        return Err(OAuthError::invalid_request("code_challenge_method must be S256"));
    }
    if chars_of(code_challenge).len() == 0 {
        return Err(OAuthError::invalid_request("code_challenge is required"));
    }
    Ok(())
}

/// The redirect URI of an authorize request must be one the client
/// registered; else an `invalid_request`.
pub fn check_redirect_uri(registered: &Vec<String>, redirect_uri: &str) -> (r: Result<(), OAuthError>)
    ensures
        match r {
            Ok(()) => exists|i: int| 0 <= i < registered@.len() && #[trigger] registered@[i]@ == redirect_uri@,
            Err(e) => (forall|i: int| 0 <= i < registered@.len() ==> #[trigger] registered@[i]@ != redirect_uri@)
                && oauth_error_is(e, 400, "invalid_request"@, "redirect_uri does not match any registered redirect URI for the client"@),
        },
{
    let mut i: usize = 0;
    while i < registered.len()
        invariant
            i <= registered@.len(),
            forall|k: int| 0 <= k < i ==> #[trigger] registered@[k]@ != redirect_uri@,
        decreases registered@.len() - i,
    {
        if str_eq(registered[i].as_str(), redirect_uri) {
            return Ok(());
        }
        i = i + 1;
    }
    Err(OAuthError::invalid_request("redirect_uri does not match any registered redirect URI for the client"))
}

// ── CSRF value of the login form ──────────────────────────────────

/// Position of the first `.` of `s`.
pub open spec fn dot_pos(s: Seq<char>) -> Option<int>
    decreases s.len(),
{
    if s.len() == 0 {
        None
    } else if s[0] == '.' {
        Some(0)
    } else {
        match dot_pos(s.drop_first()) {
            Some(k) => Some(k + 1),
            None => None,
        }
    }
}

/// The digits of an `i64` numeral: the text after an optional sign.
pub open spec fn signless(s: Seq<char>) -> Seq<char> {
    if s.len() > 0 && (s[0] == '+' || s[0] == '-') {
        s.drop_first()
    } else {
        s
    }
}

/// `i64::from_str`: an optional `+` or `-`, then at least one decimal
/// digit, and a value that fits in `i64`.
pub open spec fn parse_i64(s: Seq<char>) -> Option<i64> {
    let d = signless(s);
    let v: int = if s.len() > 0 && s[0] == '-' {
        -(digits_value(d) as int)
    } else {
        digits_value(d) as int
    };
    if d.len() > 0 && (forall|i: int| 0 <= i < d.len() ==> #[trigger] dec_digit(d[i])) && i64::MIN <= v <= i64::MAX {
        Some(v as i64)
    } else {
        None
    }
}

/// The message a CSRF MAC covers: the time's big-endian bytes, `.`, the
/// client id's bytes.
pub open spec fn csrf_msg(ts: i64, client: Seq<u8>) -> Seq<u8> {
    be_bytes_of(ts) + seq![46u8] + client
}

/// The CSRF value minted at `ts` for `client`: the time, `.`, the base64
/// of the MAC.
pub open spec fn csrf_token_of(key: Seq<u8>, client: Seq<u8>, ts: i64) -> Seq<char> {
    signed_decimal(ts as int) + seq!['.'] + base64url_of(hmac_sha256_of(key, csrf_msg(ts, client)))
}

/// A CSRF value verifies for `client` at time `now`: it is a time, `.`
/// and a base64 MAC; the time is at most `CSRF_TTL_SECS` in the past and
/// not in the future; the MAC is that of the time and the client.
pub open spec fn csrf_valid(key: Seq<u8>, client: Seq<u8>, token: Seq<char>, now: i64) -> bool {
    match dot_pos(token) {
        None => false,
        Some(d) => match parse_i64(token.take(d)) {
            None => false,
            Some(ts) => 0 <= now - ts <= CSRF_TTL_SECS && base64url_decoded(token.skip(d + 1)) == Some(
                hmac_sha256_of(key, csrf_msg(ts, client)),
            ),
        },
    }
}

/// `i64::from_str` (see `parse_i64`).
pub fn parse_i64_exec(s: &str) -> (r: Option<i64>)
    ensures
        r == parse_i64(s@),
{
    let n = s.unicode_len();
    let mut i: usize = 0;
    let mut neg = false;
    if n > 0 && (s.get_char(0) == '+' || s.get_char(0) == '-') {
        neg = s.get_char(0) == '-';
        i = 1;
    }
    let start = i;
    let ghost d = s@.skip(start as int);
    assert(d == signless(s@)) by {
        if start == 1 {
            assert(s@.skip(1) =~= s@.drop_first());
        } else {
            assert(s@.skip(0) =~= s@);
        }
    }
    assert(neg == (s@.len() > 0 && s@[0] == '-'));
    if i >= n {
        return None;
    }
    let mut v: u128 = 0;
    while i < n
        invariant
            start <= i <= n,
            n == s@.len(),
            start < n,
            d == s@.skip(start as int),
            d == signless(s@),
            forall|j: int| 0 <= j < i - start ==> #[trigger] dec_digit(d[j]),
            v == digits_value(d.take(i - start)),
            v <= 9223372036854775808u128,
        decreases n - i,
    {
        let c = s.get_char(i);
        assert(d[i - start] == c);
        if !((c as u32) >= 48 && (c as u32) <= 57) {
            assert(!dec_digit(d[i - start]));
            return None;
        }
        let digit: u128 = (c as u32 - 48) as u128;
        let nv = v * 10 + digit;
        assert(d.take(i - start + 1).drop_last() =~= d.take(i - start));
        assert(nv == digits_value(d.take(i - start + 1)));
        if nv > 9223372036854775808u128 {
            proof {
                lemma_digits_value_mono(d, i - start + 1);
            }
            return None;
        }
        v = nv;
        i = i + 1;
    }
    assert(d.take(n - start) =~= d);
    if neg {
        if v == 9223372036854775808u128 {
            Some(i64::MIN)
        } else {
            Some(-(v as i64))
        }
    } else if v > 9223372036854775807u128 {
        None
    } else {
        Some(v as i64)
    }
}

/// The MAC of a CSRF value minted at `ts` for `client_id`.
fn csrf_mac(key: &[u8; 32], ts: i64, client_id: &str) -> (r: Vec<u8>)
    ensures
        r@ == hmac_sha256_of(key@, csrf_msg(ts, client_id.spec_bytes())),
{
    let tb = be_bytes(ts);
    let cb = client_id.as_bytes();
    let mut msg: Vec<u8> = Vec::new();
    let mut i: usize = 0;
    while i < 8
        invariant
            i <= 8,
            tb@.len() == 8,
            msg@ == tb@.take(i as int),
        decreases 8 - i,
    {
        msg.push(tb[i]);
        assert(tb@.take(i + 1) =~= tb@.take(i as int).push(tb@[i as int]));
        i = i + 1;
    }
    msg.push(46u8);
    let mut j: usize = 0;
    while j < cb.len()
        invariant
            j <= cb@.len(),
            tb@.len() == 8,
            msg@ == tb@ + seq![46u8] + cb@.take(j as int),
        decreases cb@.len() - j,
    {
        msg.push(cb[j]);
        assert(cb@.take(j + 1) =~= cb@.take(j as int).push(cb@[j as int]));
        j = j + 1;
    }
    assert(tb@.take(8) =~= tb@);
    assert(cb@.take(cb@.len() as int) =~= cb@);
    assert(msg@ =~= csrf_msg(ts, client_id.spec_bytes()));
    hmac_sha256(key.as_slice(), msg.as_slice())
}

/// The numeral of an `i64` reads back as that number, and holds no `.`.
proof fn lemma_signed_decimal(t: i64)
    ensures
        parse_i64(signed_decimal(t as int)) == Some(t),
        dot_pos(signed_decimal(t as int)) is None,
        forall|i: int| 0 <= i < signed_decimal(t as int).len() ==> #[trigger] signed_decimal(t as int)[i] != '.',
{
    let s = signed_decimal(t as int);
    if t < 0 {
        let m: nat = (-(t as int)) as nat;
        lemma_decimal_digits(m);
        assert(s.drop_first() =~= decimal(m));
    } else {
        lemma_decimal_digits(t as nat);
        assert(decimal(t as nat)[0] != '+' && decimal(t as nat)[0] != '-') by {
            assert(dec_digit(decimal(t as nat)[0]));
        }
    }
    assert forall|i: int| 0 <= i < s.len() implies #[trigger] s[i] != '.' by {
        if t < 0 && i > 0 {
            assert(s[i] == decimal((-(t as int)) as nat)[i - 1]);
            assert(dec_digit(decimal((-(t as int)) as nat)[i - 1]));
        } else if t >= 0 {
            assert(dec_digit(decimal(t as nat)[i]));
        }
    }
    lemma_no_dot(s);
}

proof fn lemma_no_dot(s: Seq<char>)
    requires
        forall|i: int| 0 <= i < s.len() ==> #[trigger] s[i] != '.',
    ensures
        dot_pos(s) is None,
    decreases s.len(),
{
    if s.len() > 0 {
        assert forall|i: int| 0 <= i < s.drop_first().len() implies #[trigger] s.drop_first()[i] != '.' by {
            assert(s.drop_first()[i] == s[i + 1]);
        }
        lemma_no_dot(s.drop_first());
    }
}

proof fn lemma_dot_after(a: Seq<char>, b: Seq<char>)
    requires
        dot_pos(a) is None,
    ensures
        dot_pos(a + seq!['.'] + b) == Some(a.len() as int),
    decreases a.len(),
{
    if a.len() > 0 {
        assert((a + seq!['.'] + b).drop_first() =~= a.drop_first() + seq!['.'] + b);
        lemma_dot_after(a.drop_first(), b);
    } else {
        assert((a + seq!['.'] + b)[0] == '.');
    }
}

/// A CSRF value for the login form of `client_id`, minted at time `now`
/// (seconds since the Unix epoch). It verifies for that client at a time
/// `t` exactly when `t` is at most `CSRF_TTL_SECS` after `now` and not
/// before it.
pub fn csrf_mint(key: &[u8; 32], client_id: &str, now: i64) -> (r: String)
    ensures
        r@ == csrf_token_of(key@, client_id.spec_bytes(), now),
        forall|t: i64| #[trigger] csrf_valid(key@, client_id.spec_bytes(), r@, t) == (0 <= t - now <= CSRF_TTL_SECS),
{
    let mac = csrf_mac(key, now, client_id);
    let b64 = base64url_encode(mac.as_slice());
    let ts = signed_decimal_string(now);
    let parts: [&str; 3] = [ts.as_str(), ".", b64.as_str()];
    let r = concat(&parts);
    proof {
        reveal_strlit(".");
        assert(views(parts@) =~= seq![ts@, "."@, b64@]);
        assert(seq![ts@, "."@, b64@].flatten() =~= ts@ + seq!['.'] + b64@) by {
            assert("."@ =~= seq!['.']);
            seq![ts@].lemma_flatten_one_element();
            assert(seq![ts@, "."@] =~= seq![ts@].push("."@));
            seq![ts@].lemma_flatten_push("."@);
            assert(seq![ts@, "."@, b64@] =~= seq![ts@, "."@].push(b64@));
            seq![ts@, "."@].lemma_flatten_push(b64@);
        }
        lemma_signed_decimal(now);
        lemma_dot_after(ts@, b64@);
        let tok = r@;
        let d = ts@.len() as int;
        assert(tok.take(d) =~= ts@);
        assert(tok.skip(d + 1) =~= b64@);
    }
    r
}

/// Whether `token` is a CSRF value minted for `client_id` that is still
/// valid at time `now` (see `csrf_valid`). The age is computed exactly.
pub fn csrf_verify(key: &[u8; 32], client_id: &str, token: &str, now: i64) -> (r: bool)
    ensures
        r == csrf_valid(key@, client_id.spec_bytes(), token@, now),
{
    let cs = chars_of(token);
    let n = cs.len();
    let mut d: usize = 0;
    while d < n && cs[d] != '.'
        invariant
            d <= n,
            n == token@.len(),
            cs@ == token@,
            forall|k: int| 0 <= k < d ==> #[trigger] token@[k] != '.',
        decreases n - d,
    {
        d = d + 1;
    }
    if d == n {
        proof {
            lemma_no_dot(token@);
        }
        return false;
    }
    proof {
        assert(token@ =~= token@.take(d as int) + seq!['.'] + token@.skip(d + 1));
        assert forall|k: int| 0 <= k < token@.take(d as int).len() implies #[trigger] token@.take(d as int)[k] != '.' by {
            assert(token@.take(d as int)[k] == token@[k]);
        }
        lemma_no_dot(token@.take(d as int));
        lemma_dot_after(token@.take(d as int), token@.skip(d + 1));
    }
    let ts_str = token.substring_char(0, d);
    let mac_str = token.substring_char(d + 1, n);
    assert(ts_str@ =~= token@.take(d as int));
    assert(mac_str@ =~= token@.skip(d + 1));
    let ts = match parse_i64_exec(ts_str) {
        Some(t) => t,
        None => return false,
    };
    let age: i128 = now as i128 - ts as i128;
    if age < 0 || age > 900 {
        return false;
    }
    let provided = match base64url_decode(mac_str) {
        Some(p) => p,
        None => return false,
    };
    let expected = csrf_mac(key, ts, client_id);
    constant_time_eq(provided.as_slice(), expected.as_slice())
}


// ── Login form ────────────────────────────────────────────────────

/// The sign-in page up to the client id.
pub const FORM_HEAD: &'static str = r#"<!doctype html>
<html><head><meta charset="utf-8"><title>mt mcp — sign in</title>
<style>
body { font: 14px/1.5 system-ui, sans-serif; max-width: 22rem; margin: 4rem auto; padding: 0 1rem; }
h1 { font-size: 1.1rem; margin-bottom: 0.5rem; }
p { color: #555; }
input[type=password] { width: 100%; padding: 0.5rem; font-size: 1rem; box-sizing: border-box; }
button { margin-top: 1rem; padding: 0.5rem 1rem; font-size: 1rem; }
</style></head>
<body>
<h1>Sign in to mt mcp</h1>
<p>Authorizing client <code>"#;

/// The end of the introduction line.
pub const FORM_INTRO_END: &'static str = r#"</code>. Enter the admin password to grant access.</p>
"#;

/// Closes the previous value and opens the hidden `response_type` field.
pub const FIELD_RESPONSE_TYPE: &'static str = r#"
<form method="post" action="/oauth/authorize">
<input type="hidden" name="response_type" value=""#;

/// Closes the previous value and opens the hidden `client_id` field.
pub const FIELD_CLIENT_ID: &'static str = r#"">
<input type="hidden" name="client_id" value=""#;

/// Closes the previous value and opens the hidden `redirect_uri` field.
pub const FIELD_REDIRECT_URI: &'static str = r#"">
<input type="hidden" name="redirect_uri" value=""#;

/// Closes the previous value and opens the hidden `code_challenge` field.
pub const FIELD_CODE_CHALLENGE: &'static str = r#"">
<input type="hidden" name="code_challenge" value=""#;

/// Closes the previous value and opens the hidden `challenge_method` field.
pub const FIELD_CHALLENGE_METHOD: &'static str = r#"">
<input type="hidden" name="code_challenge_method" value=""#;

/// Closes the previous value and opens the hidden `state` field.
pub const FIELD_STATE: &'static str = r#"">
<input type="hidden" name="state" value=""#;

/// Closes the previous value and opens the hidden `scope` field.
pub const FIELD_SCOPE: &'static str = r#"">
<input type="hidden" name="scope" value=""#;

/// Closes the previous value and opens the hidden `resource` field.
pub const FIELD_RESOURCE: &'static str = r#"">
<input type="hidden" name="resource" value=""#;

/// Closes the previous value and opens the hidden `csrf` field.
pub const FIELD_CSRF: &'static str = r#"">
<input type="hidden" name="csrf" value=""#;

/// The password field, the button and the end of the page.
pub const FORM_TAIL: &'static str = r#"">
<label for="password">Password</label>
<input id="password" type="password" name="password" autocomplete="current-password" autofocus required>
<button type="submit">Sign in</button>
</form>
</body></html>"#;

/// Opens an error message on the sign-in page.
pub const ERROR_OPEN: &'static str = r#"<p style="color:#b00020">"#;

/// Closes an error message.
pub const ERROR_CLOSE: &'static str = "</p>";

/// The query of an authorization request, as the sign-in form echoes it.
pub struct AuthorizeQuery {
    pub response_type: String,
    pub client_id: String,
    pub redirect_uri: String,
    pub state: Option<String>,
    pub code_challenge: String,
    pub code_challenge_method: String,
    pub scope: Option<String>,
    pub resource: Option<String>,
}

/// The text of an optional string, empty when absent.
pub open spec fn opt_text(s: Option<String>) -> Seq<char> {
    match s {
        Some(x) => x@,
        None => Seq::empty(),
    }
}

/// A character as HTML text: `&`, `<`, `>` and `"` as entities, any
/// other character as itself.
pub open spec fn escape_char(c: char) -> Seq<char> {
    if c == '&' {
        "&amp;"@
    } else if c == '<' {
        "&lt;"@
    } else if c == '>' {
        "&gt;"@
    } else if c == '"' {
        "&quot;"@
    } else {
        seq![c]
    }
}

/// `s` with every character escaped for HTML.
pub open spec fn html_escaped(s: Seq<char>) -> Seq<char>
    decreases s.len(),
{
    if s.len() == 0 {
        Seq::empty()
    } else {
        html_escaped(s.drop_last()) + escape_char(s.last())
    }
}

/// The error paragraph of the sign-in page; empty without an error.
pub open spec fn error_html(error: Option<Seq<char>>) -> Seq<char> {
    match error {
        Some(m) => ERROR_OPEN@ + html_escaped(m) + ERROR_CLOSE@,
        None => Seq::empty(),
    }
}

/// The sign-in page for authorization request `q`: the client named, the
/// error if any, and every field of the request and the CSRF token carried
/// in hidden inputs, each escaped for HTML (an absent state, scope or
/// resource as an empty value).
pub open spec fn login_form_text(q: AuthorizeQuery, csrf: Seq<char>, error: Option<Seq<char>>) -> Seq<char> {
    joined(seq![FORM_HEAD@, html_escaped(q.client_id@), FORM_INTRO_END@, error_html(error), FIELD_RESPONSE_TYPE@, html_escaped(q.response_type@), FIELD_CLIENT_ID@, html_escaped(q.client_id@), FIELD_REDIRECT_URI@, html_escaped(q.redirect_uri@), FIELD_CODE_CHALLENGE@, html_escaped(q.code_challenge@), FIELD_CHALLENGE_METHOD@, html_escaped(q.code_challenge_method@), FIELD_STATE@, html_escaped(opt_text(q.state)), FIELD_SCOPE@, html_escaped(opt_text(q.scope)), FIELD_RESOURCE@, html_escaped(opt_text(q.resource)), FIELD_CSRF@, html_escaped(csrf), FORM_TAIL@])
}

/// `s` escaped for HTML (see `html_escaped`).
pub fn html_escape(s: &str) -> (r: String)
    ensures
        r@ == html_escaped(s@),
{
    let n = s.unicode_len();
    let mut r = String::new();
    let mut i: usize = 0;
    while i < n
        invariant
            n == s@.len(),
            i <= n,
            r@ == html_escaped(s@.take(i as int)),
        decreases n - i,
    {
        let c = s.get_char(i);
        assert(s@.take(i + 1).drop_last() =~= s@.take(i as int));
        if c == '&' {
            r.append("&amp;");
        } else if c == '<' {
            r.append("&lt;");
        } else if c == '>' {
            r.append("&gt;");
        } else if c == '"' {
            r.append("&quot;");
        } else {
            let one = s.substring_char(i, i + 1);
            assert(one@ =~= seq![c]);
            r.append(one);
        }
        i = i + 1;
    }
    assert(s@.take(n as int) =~= s@);
    r
}

fn opt_str(s: &Option<String>) -> (r: &str)
    ensures
        r@ == opt_text(*s),
{
    match s {
        Some(x) => x.as_str(),
        None => {
            proof {
                reveal_strlit("");
            }
            ""
        },
    }
}

/// The sign-in page (see `login_form_text`).
pub fn render_login_form(q: &AuthorizeQuery, csrf: &str, error: Option<&str>) -> (r: String)
    ensures
        r@ == login_form_text(*q, csrf@, match error { Some(m) => Some(m@), None => None }),
{
    let err = match error {
        Some(m) => {
            let e = html_escape(m);
            let parts: [&str; 3] = [ERROR_OPEN, e.as_str(), ERROR_CLOSE];
            let x = concat(&parts);
            assert(views(parts@) =~= seq![ERROR_OPEN@, e@, ERROR_CLOSE@]);
            assert(joined(seq![ERROR_OPEN@, e@, ERROR_CLOSE@]) =~= ERROR_OPEN@ + e@ + ERROR_CLOSE@) by {
                seq![ERROR_OPEN@, e@].lemma_flatten_push(ERROR_CLOSE@);
                seq![ERROR_OPEN@].lemma_flatten_push(e@);
                Seq::<Seq<char>>::empty().lemma_flatten_push(ERROR_OPEN@);
                assert(seq![ERROR_OPEN@] =~= Seq::<Seq<char>>::empty().push(ERROR_OPEN@));
                assert(seq![ERROR_OPEN@, e@] =~= seq![ERROR_OPEN@].push(e@));
                assert(seq![ERROR_OPEN@, e@, ERROR_CLOSE@] =~= seq![ERROR_OPEN@, e@].push(ERROR_CLOSE@));
            }
            x
        },
        None => String::new(),
    };
    let client_id = html_escape(q.client_id.as_str());
    let response_type = html_escape(q.response_type.as_str());
    let redirect_uri = html_escape(q.redirect_uri.as_str());
    let code_challenge = html_escape(q.code_challenge.as_str());
    let ccm = html_escape(q.code_challenge_method.as_str());
    let state = html_escape(opt_str(&q.state));
    let scope = html_escape(opt_str(&q.scope));
    let resource = html_escape(opt_str(&q.resource));
    let csrf_e = html_escape(csrf);
    let parts: [&str; 23] = [FORM_HEAD, client_id.as_str(), FORM_INTRO_END, err.as_str(), FIELD_RESPONSE_TYPE, response_type.as_str(), FIELD_CLIENT_ID, client_id.as_str(), FIELD_REDIRECT_URI, redirect_uri.as_str(), FIELD_CODE_CHALLENGE, code_challenge.as_str(), FIELD_CHALLENGE_METHOD, ccm.as_str(), FIELD_STATE, state.as_str(), FIELD_SCOPE, scope.as_str(), FIELD_RESOURCE, resource.as_str(), FIELD_CSRF, csrf_e.as_str(), FORM_TAIL];
    let r = concat(&parts);
    assert(views(parts@) =~= seq![FORM_HEAD@, client_id@, FORM_INTRO_END@, err@, FIELD_RESPONSE_TYPE@, response_type@, FIELD_CLIENT_ID@, client_id@, FIELD_REDIRECT_URI@, redirect_uri@, FIELD_CODE_CHALLENGE@, code_challenge@, FIELD_CHALLENGE_METHOD@, ccm@, FIELD_STATE@, state@, FIELD_SCOPE@, scope@, FIELD_RESOURCE@, resource@, FIELD_CSRF@, csrf_e@, FORM_TAIL@]);
    r
}


/// The verdict on a stored access token: the client it was issued to
/// while it is unexpired (its expiry is not before `now`), `None` once it
/// has expired; `BadTimestamp` when the stored expiry does not parse.
pub fn access_token_client(client_id: String, expires_at: &str, now: (i64, u32)) -> (r: Result<Option<String>, Error>)
    ensures
        match rfc3339_parse(expires_at@) {
            Ok(t) => r matches Ok(v) && if instant_lt(t, now) {
                v is None
            } else {
                v == Some(client_id)
            },
            Err(m) => r matches Err(Error::BadTimestamp(x)) && x@ == joined(seq![expires_at@, ": "@, m]),
        },
{
    let t = parse_ts(expires_at)?;
    if instant_before(t, now) {
        Ok(None)
    } else {
        Ok(Some(client_id))
    }
}


// ── Discovery and registration ────────────────────────────────────

/// `s` without its trailing slashes.
pub open spec fn trim_slashes(s: Seq<char>) -> Seq<char>
    decreases s.len(),
{
    if s.len() > 0 && s.last() == '/' {
        trim_slashes(s.drop_last())
    } else {
        s
    }
}

/// The URLs a client discovers the authorization server by.
pub struct ServerMetadata {
    pub issuer: String,
    pub authorization_endpoint: String,
    pub token_endpoint: String,
    pub registration_endpoint: String,
}

/// The discovery URLs under public URL `url`: the issuer is the URL
/// without trailing slashes, each endpoint the issuer and its route.
pub open spec fn metadata_of(m: ServerMetadata, url: Seq<char>) -> bool {
    let issuer = trim_slashes(url);
    &&& m.issuer@ == issuer
    &&& m.authorization_endpoint@ == issuer + "/oauth/authorize"@
    &&& m.token_endpoint@ == issuer + "/oauth/token"@
    &&& m.registration_endpoint@ == issuer + "/oauth/register"@
}

/// The public URL without its trailing slashes.
pub fn issuer_of(url: &str) -> (r: &str)
    ensures
        r@ == trim_slashes(url@),
{
    let n = url.unicode_len();
    let mut k: usize = n;
    assert(url@.subrange(0, k as int) =~= url@);
    while k > 0 && url.get_char(k - 1) == '/'
        invariant
            n == url@.len(),
            k <= n,
            trim_slashes(url@.subrange(0, k as int)) == trim_slashes(url@),
        decreases k,
    {
        assert(url@.subrange(0, k as int).drop_last() =~= url@.subrange(0, k - 1));
        k = k - 1;
    }
    url.substring_char(0, k)
}

fn joined2(a: &str, b: &str) -> (r: String)
    ensures
        r@ == a@ + b@,
{
    let parts: [&str; 2] = [a, b];
    let r = concat(&parts);
    proof {
        assert(views(parts@) =~= seq![a@, b@]);
        assert(seq![a@, b@] =~= seq![a@].push(b@));
        seq![a@].lemma_flatten_push(b@);
        assert(seq![a@] =~= Seq::<Seq<char>>::empty().push(a@));
        Seq::<Seq<char>>::empty().lemma_flatten_push(a@);
    }
    r
}

/// The discovery URLs under public URL `url` (see `metadata_of`).
pub fn server_metadata(url: &str) -> (m: ServerMetadata)
    ensures
        metadata_of(m, url@),
{
    let issuer = issuer_of(url);
    ServerMetadata {
        issuer: to_owned(issuer),
        authorization_endpoint: joined2(issuer, "/oauth/authorize"),
        token_endpoint: joined2(issuer, "/oauth/token"),
        registration_endpoint: joined2(issuer, "/oauth/register"),
    }
}

/// The refusal of a registration that names no redirect URI.
pub open spec fn no_redirect_text() -> Seq<char> {
    "redirect_uris must include at least one URI"@
}

/// A client registration is accepted when it names at least one redirect
/// URI, else refused with 400 `invalid_request`.
pub fn check_registration(redirect_uris: &Vec<String>) -> (r: Result<(), OAuthError>)
    ensures
        redirect_uris@.len() > 0 <==> r is Ok,
        r matches Err(e) ==> oauth_error_is(e, 400, "invalid_request"@, no_redirect_text()),
{
    if redirect_uris.len() == 0 {
        Err(OAuthError::invalid_request("redirect_uris must include at least one URI"))
    } else {
        Ok(())
    }
}


// ── Authorize and token issuance ──────────────────────────────────

/// Seconds an authorization code stays redeemable.
pub const AUTHORIZATION_CODE_TTL_SECS: i64 = 60;

/// Seconds a refresh token lives (thirty days).
pub const REFRESH_TOKEN_TTL_SECS: i64 = 2_592_000;

/// What the sign-in form's submission comes to.
#[derive(Debug)]
pub enum LoginOutcome {
    /// The CSRF value does not verify: 400 `invalid_request`.
    Refused(OAuthError),
    /// The password is wrong: 401 and the form again, with a fresh CSRF
    /// value and an inline error.
    WrongPassword { status: u16, page: String },
    /// The password is right: a code is issued.
    Granted,
}

/// The message the form shows beside a wrong password.
pub open spec fn wrong_password_text() -> Seq<char> {
    "Incorrect password."@
}

/// The verdict on a submitted sign-in form for an already validated
/// request `q` of client `client_id` at time `now`: refused when the CSRF
/// value does not verify; 401 with the form again (CSRF value minted at
/// `now`, error `Incorrect password.`) when the password differs from the admin
/// password (compared in constant time); granted otherwise.
pub fn login_outcome(
    key: &[u8; 32],
    q: &AuthorizeQuery,
    csrf: &str,
    admin_password: &str,
    password: &str,
    now: i64,
) -> (r: LoginOutcome)
    ensures
        !csrf_valid(key@, vstd::utf8::encode_utf8(q.client_id@), csrf@, now) ==> (r matches LoginOutcome::Refused(e)
            && oauth_error_is(e, 400, "invalid_request"@, "invalid or expired csrf token"@)),
        csrf_valid(key@, vstd::utf8::encode_utf8(q.client_id@), csrf@, now) && password.spec_bytes() != admin_password.spec_bytes() ==> (
            r matches LoginOutcome::WrongPassword { status, page } && status == 401 && page@ == login_form_text(
                *q, csrf_token_of(key@, vstd::utf8::encode_utf8(q.client_id@), now), Some(wrong_password_text()),
            )),
        csrf_valid(key@, vstd::utf8::encode_utf8(q.client_id@), csrf@, now) && password.spec_bytes() == admin_password.spec_bytes() ==> r is Granted,
{
    let client_id = q.client_id.as_str();
    if !csrf_verify(key, client_id, csrf, now) {
        return LoginOutcome::Refused(OAuthError::invalid_request("invalid or expired csrf token"));
    }
    if !constant_time_eq(admin_password.as_bytes(), password.as_bytes()) {
        let fresh = csrf_mint(key, client_id, now);
        let page = render_login_form(q, fresh.as_str(), Some("Incorrect password."));
        return LoginOutcome::WrongPassword { status: 401, page };
    }
    LoginOutcome::Granted
}

/// What the `url` crate makes of redirect URI `raw` with the query pairs
/// `code` and, when given, `state` appended (`Url::parse`, then
/// `query_pairs_mut().append_pair`, then `as_str`); `None` when `raw`
/// does not parse.
pub uninterp spec fn url_with_code(raw: Seq<char>, code: Seq<char>, state: Option<Seq<char>>) -> Option<Seq<char>>;

/// `url::Url::parse(raw)`, the pairs `code` and `state` appended to its
/// query, written back with `as_str`.
#[verifier::external_body]
fn append_code(raw: &str, code: &str, state: Option<&str>) -> (r: Option<String>)
    ensures
        match r {
            Some(u) => url_with_code(raw@, code@, match state { Some(x) => Some(x@), None => None }) == Some(u@),
            None => url_with_code(raw@, code@, match state { Some(x) => Some(x@), None => None }) is None,
        },
{
    let mut u = url::Url::parse(raw).ok()?;
    {
        let mut pairs = u.query_pairs_mut();
        pairs.append_pair("code", code);
        if let Some(st) = state {
            pairs.append_pair("state", st);
        }
    }
    Some(u.as_str().to_string())
}

/// Where a granted sign-in sends the browser: the request's redirect URI
/// with the issued `code` and the request's `state` appended; 400
/// `invalid_request` when the redirect URI is not a URL.
pub fn authorize_redirect(q: &AuthorizeQuery, code: &str) -> (r: Result<String, OAuthError>)
    ensures
        match url_with_code(q.redirect_uri@, code@, opt_view(q.state)) {
            Some(u) => r matches Ok(x) && x@ == u,
            None => r matches Err(e) && oauth_error_is(e, 400, "invalid_request"@, "redirect_uri is not a valid URL"@),
        },
{
    let state = match &q.state {
        Some(s) => Some(s.as_str()),
        None => None,
    };
    match append_code(q.redirect_uri.as_str(), code, state) {
        Some(u) => Ok(u),
        None => Err(OAuthError::invalid_request("redirect_uri is not a valid URL")),
    }
}

/// The instant `secs` seconds after `t`.
pub open spec fn later_by(t: (i64, u32), secs: i64) -> (i64, u32) {
    ((t.0 + secs) as i64, t.1)
}

/// When a code issued at `now` stops being redeemable.
pub fn code_expiry(now: (i64, u32)) -> (r: (i64, u32))
    requires
        now.0 <= i64::MAX - AUTHORIZATION_CODE_TTL_SECS,
    ensures
        r == later_by(now, AUTHORIZATION_CODE_TTL_SECS),
{
    (now.0 + AUTHORIZATION_CODE_TTL_SECS, now.1)
}

/// The token endpoint's reply.
#[derive(Debug)]
pub struct TokenResponse {
    pub access_token: String,
    pub token_type: String,
    pub expires_in: i64,
    pub refresh_token: String,
    pub scope: Option<String>,
}

/// A freshly issued token pair: the reply, and when each token expires.
#[derive(Debug)]
pub struct IssuedTokens {
    pub response: TokenResponse,
    pub access_expires_at: (i64, u32),
    pub refresh_expires_at: (i64, u32),
}

/// The issue of access token `access` and refresh token `refresh` for
/// `scope` at `now`: a `Bearer` reply good for `ACCESS_TOKEN_TTL_SECS`
/// seconds, the access token expiring then and the refresh token after
/// `REFRESH_TOKEN_TTL_SECS`.
pub fn issue_tokens(access: String, refresh: String, scope: Option<String>, now: (i64, u32)) -> (r: IssuedTokens)
    requires
        now.0 <= i64::MAX - REFRESH_TOKEN_TTL_SECS,
    ensures
        r.response.access_token == access,
        r.response.refresh_token == refresh,
        r.response.scope == scope,
        r.response.token_type@ == "Bearer"@,
        r.response.expires_in == ACCESS_TOKEN_TTL_SECS,
        r.access_expires_at == later_by(now, ACCESS_TOKEN_TTL_SECS),
        r.refresh_expires_at == later_by(now, REFRESH_TOKEN_TTL_SECS),
{
    IssuedTokens {
        response: TokenResponse {
            access_token: access,
            token_type: to_owned("Bearer"),
            expires_in: ACCESS_TOKEN_TTL_SECS,
            refresh_token: refresh,
            scope,
        },
        access_expires_at: (now.0 + ACCESS_TOKEN_TTL_SECS, now.1),
        refresh_expires_at: (now.0 + REFRESH_TOKEN_TTL_SECS, now.1),
    }
}

} // verus!

//! The token endpoint's stored grants: authorization codes, each spent at
//! most once, and refresh tokens, each replaced when it is used.
use crate::db::{instant_lt, rfc3339_parse};
use crate::ids::str_eq;
use crate::oauth::{
    base64url_of, check_code_grant, check_refresh_grant, invalid_grant_text, issue_tokens, refreshed_scope, sha256_of,
    CodeRow, IssuedTokens, OAuthError, RefreshRow, TokenRequest, ACCESS_TOKEN_TTL_SECS, REFRESH_TOKEN_TTL_SECS,
};
use crate::oauth::{code_grant_fields, later_by};
use crate::ids::opt_view;
use crate::text::joined;
use vstd::prelude::*;
use vstd::string::*;

verus! {

/// An OAuth error as its status, error code and description.
pub open spec fn err_view(e: OAuthError) -> (u16, Seq<char>, Seq<char>) {
    (e.status, e.code@, e.description@)
}

/// 400 `invalid_grant`.
pub open spec fn invalid_grant_view() -> (u16, Seq<char>, Seq<char>) {
    (400, "invalid_grant"@, invalid_grant_text())
}

/// 400 `invalid_request` with `msg`.
pub open spec fn invalid_request_view(msg: Seq<char>) -> (u16, Seq<char>, Seq<char>) {
    (400, "invalid_request"@, msg)
}

/// 500 `server_error` for a stored expiry `text` that does not parse, the
/// parser saying `m`.
pub open spec fn bad_expiry_view(text: Seq<char>, m: Seq<char>) -> (u16, Seq<char>, Seq<char>) {
    (500, "server_error"@, joined(seq!["bad timestamp: "@, joined(seq![text, ": "@, m])]))
}

/// The verdict on redeeming the stored code `row` for `client_id`,
/// `redirect_uri` and PKCE verifier bytes `verifier` at `now`: nothing
/// when it may be redeemed, else the error (see `check_code_grant`).
pub open spec fn code_verdict(
    row: CodeRow,
    client_id: Seq<char>,
    redirect_uri: Seq<char>,
    verifier: Seq<u8>,
    now: (i64, u32),
) -> Option<(u16, Seq<char>, Seq<char>)> {
    if row.used_at is Some || row.client_id@ != client_id || row.redirect_uri@ != redirect_uri {
        Some(invalid_grant_view())
    } else {
        match rfc3339_parse(row.expires_at@) {
            Err(m) => Some(bad_expiry_view(row.expires_at@, m)),
            Ok(t) => if instant_lt(t, now) || base64url_of(sha256_of(verifier)) != row.code_challenge@ {
                Some(invalid_grant_view())
            } else {
                None
            },
        }
    }
}

/// The verdict on using the stored refresh token `row` at `now`, the
/// request pinning `pinned` as its client when given: nothing when it may
/// be used, else the error (see `check_refresh_grant`).
pub open spec fn refresh_verdict(row: RefreshRow, pinned: Option<Seq<char>>, now: (i64, u32)) -> Option<
    (u16, Seq<char>, Seq<char>),
> {
    match rfc3339_parse(row.expires_at@) {
        Err(m) => Some(bad_expiry_view(row.expires_at@, m)),
        Ok(t) => if instant_lt(t, now) || (pinned matches Some(c) && c != row.client_id@) {
            Some(invalid_grant_view())
        } else {
            None
        },
    }
}

// ── Keyed rows ───────────────────────────────────────────────────────

/// Some row of `rows` is stored under `key`.
pub open spec fn has_key<R>(rows: Seq<(String, R)>, key: Seq<char>) -> bool {
    exists|i: int| 0 <= i < rows.len() && #[trigger] rows[i].0@ == key
}

/// No two rows of `rows` share a key.
pub open spec fn keys_distinct<R>(rows: Seq<(String, R)>) -> bool {
    forall|i: int, j: int| 0 <= i < j < rows.len() ==> #[trigger] rows[i].0@ != #[trigger] rows[j].0@
}

/// The place of the row stored under `key` (meaningful when there is one).
pub open spec fn key_index<R>(rows: Seq<(String, R)>, key: Seq<char>) -> int {
    choose|i: int| 0 <= i < rows.len() && #[trigger] rows[i].0@ == key
}

/// With distinct keys, the row under `key` is at `i` exactly when row `i`
/// has that key.
pub proof fn lemma_key_index<R>(rows: Seq<(String, R)>, key: Seq<char>, i: int)
    requires
        keys_distinct(rows),
        0 <= i < rows.len(),
        rows[i].0@ == key,
    ensures
        has_key(rows, key),
        key_index(rows, key) == i,
{
    assert(has_key(rows, key));
    let k = key_index(rows, key);
    assert(0 <= k < rows.len() && rows[k].0@ == key);
    if k < i {
        assert(rows[k].0@ != rows[i].0@);
    } else if i < k {
        assert(rows[i].0@ != rows[k].0@);
    }
}

/// Rows stored under text keys, each key at most once, as in a table
/// whose primary key is that text.
#[derive(Debug)]
pub struct Table<R> {
    rows: Vec<(String, R)>,
}

impl<R> Table<R> {
    /// The stored rows with their keys, in the order they were added.
    pub closed spec fn entries(&self) -> Seq<(String, R)> {
        self.rows@
    }

    /// No key occurs twice.
    pub open spec fn wf(&self) -> bool {
        keys_distinct(self.entries())
    }

    /// An empty table.
    pub fn new() -> (t: Self)
        ensures
            t.wf(),
            t.entries().len() == 0,
    {
        Table { rows: Vec::new() }
    }

    /// The place of the row stored under `key`, if any.
    fn position(&self, key: &str) -> (r: Option<usize>)
        requires
            self.wf(),
        ensures
            match r {
                Some(i) => has_key(self.entries(), key@) && i == key_index(self.entries(), key@) && i
                    < self.entries().len(),
                None => !has_key(self.entries(), key@),
            },
    {
        let mut i: usize = 0;
        while i < self.rows.len()
            invariant
                i <= self.rows@.len(),
                keys_distinct(self.rows@),
                forall|j: int| 0 <= j < i ==> self.rows@[j].0@ != key@,
            decreases self.rows@.len() - i,
        {
            if str_eq(self.rows[i].0.as_str(), key) {
                proof {
                    lemma_key_index(self.rows@, key@, i as int);
                }
                return Some(i);
            }
            i = i + 1;
        }
        None
    }

    /// Whether a row is stored under `key`.
    pub fn contains(&self, key: &str) -> (r: bool)
        requires
            self.wf(),
        ensures
            r == has_key(self.entries(), key@),
    {
        self.position(key).is_some()
    }

    /// Stores `row` under `key` unless a row is stored there already (the
    /// table then stays as it was); says whether it was stored.
    pub fn insert(&mut self, key: String, row: R) -> (added: bool)
        requires
            old(self).wf(),
        ensures
            final(self).wf(),
            added == !has_key(old(self).entries(), key@),
            added ==> final(self).entries() == old(self).entries().push((key, row)),
            !added ==> final(self).entries() == old(self).entries(),
    {
        if self.position(key.as_str()).is_some() {
            return false;
        }
        let ghost k = key@;
        self.rows.push((key, row));
        proof {
            assert forall|i: int, j: int| 0 <= i < j < self.rows@.len() implies #[trigger] self.rows@[i].0@
                != #[trigger] self.rows@[j].0@ by {
                if j == self.rows@.len() - 1 {
                    assert(old(self).rows@[i].0@ != k);
                }
            }
        }
        true
    }
}

// ── Authorization codes ──────────────────────────────────────────────

/// The stored code `row` marked used at `stamp`.
pub open spec fn mark_used(row: CodeRow, stamp: String) -> CodeRow {
    CodeRow {
        client_id: row.client_id,
        redirect_uri: row.redirect_uri,
        scope: row.scope,
        code_challenge: row.code_challenge,
        expires_at: row.expires_at,
        used_at: Some(stamp),
    }
}

/// What redeeming `code` does to the stored codes `rows`: a code not
/// stored, or one its verdict refuses, leaves them as they are and gives
/// the error; otherwise the code is marked used at `stamp` and its stored
/// scope is given.
pub open spec fn redeem_spec(
    rows: Seq<(String, CodeRow)>,
    code: Seq<char>,
    client_id: Seq<char>,
    redirect_uri: Seq<char>,
    verifier: Seq<u8>,
    now: (i64, u32),
    stamp: String,
) -> (Seq<(String, CodeRow)>, Result<Option<String>, (u16, Seq<char>, Seq<char>)>) {
    if !has_key(rows, code) {
        (rows, Err(invalid_grant_view()))
    } else {
        let i = key_index(rows, code);
        let row = rows[i].1;
        match code_verdict(row, client_id, redirect_uri, verifier, now) {
            Some(e) => (rows, Err(e)),
            None => (rows.update(i, (rows[i].0, mark_used(row, stamp))), Ok(row.scope)),
        }
    }
}

/// Redeems `code` for `client_id`, `redirect_uri` and PKCE `verifier` at
/// `now` (see `redeem_spec`): on success the code is marked used at
/// `stamp`, the stored text of `now`, and its scope is returned.
pub fn redeem_code(
    codes: &mut Table<CodeRow>,
    code: &str,
    client_id: &str,
    redirect_uri: &str,
    verifier: &str,
    now: (i64, u32),
    stamp: String,
) -> (r: Result<Option<String>, OAuthError>)
    requires
        old(codes).wf(),
    ensures
        final(codes).wf(),
        ({
            let s = redeem_spec(old(codes).entries(), code@, client_id@, redirect_uri@, verifier.spec_bytes(), now, stamp);
            &&& final(codes).entries() == s.0
            &&& match s.1 {
                Ok(scope) => r == Ok::<Option<String>, OAuthError>(scope),
                Err(e) => r matches Err(x) && err_view(x) == e,
            }
        }),
{
    let ghost old_rows = codes.rows@;
    let i = match codes.position(code) {
        Some(i) => i,
        None => return Err(OAuthError::invalid_grant()),
    };
    match check_code_grant(&codes.rows[i].1, client_id, redirect_uri, verifier, now) {
        Ok(()) => {},
        Err(e) => return Err(e),
    }
    let scope = match &codes.rows[i].1.scope {
        Some(s) => Some(s.clone()),
        None => None,
    };
    codes.rows[i].1.used_at = Some(stamp);
    proof {
        assert(codes.rows@ =~= old_rows.update(i as int, (old_rows[i as int].0, mark_used(old_rows[i as int].1, stamp))));
        assert forall|a: int, b: int| 0 <= a < b < codes.rows@.len() implies #[trigger] codes.rows@[a].0@
            != #[trigger] codes.rows@[b].0@ by {
            assert(old_rows[a].0@ != old_rows[b].0@);
        }
    }
    Ok(scope)
}

// ── Refresh tokens ───────────────────────────────────────────────────

/// What using refresh token `token` does to the stored tokens `rows`: a
/// token not stored, or one its verdict refuses, leaves them as they are
/// and gives the error; otherwise the token is removed and its client and
/// stored scope are given.
pub open spec fn refresh_spec(
    rows: Seq<(String, RefreshRow)>,
    token: Seq<char>,
    pinned: Option<Seq<char>>,
    now: (i64, u32),
) -> (Seq<(String, RefreshRow)>, Result<(String, Option<String>), (u16, Seq<char>, Seq<char>)>) {
    if !has_key(rows, token) {
        (rows, Err(invalid_grant_view()))
    } else {
        let i = key_index(rows, token);
        let row = rows[i].1;
        match refresh_verdict(row, pinned, now) {
            Some(e) => (rows, Err(e)),
            None => (rows.remove(i), Ok((row.client_id, row.scope))),
        }
    }
}

/// Uses refresh token `token` at `now`, the request pinning `pinned` as
/// its client when given (see `refresh_spec`): on success the token is
/// removed, so that it serves once, and its client and scope are
/// returned.
pub fn take_refresh_token(
    tokens: &mut Table<RefreshRow>,
    token: &str,
    pinned: Option<&str>,
    now: (i64, u32),
) -> (r: Result<(String, Option<String>), OAuthError>)
    requires
        old(tokens).wf(),
    ensures
        final(tokens).wf(),
        ({
            let s = refresh_spec(old(tokens).entries(), token@, match pinned {
                Some(c) => Some(c@),
                None => None,
            }, now);
            &&& final(tokens).entries() == s.0
            &&& match s.1 {
                Ok(v) => r == Ok::<(String, Option<String>), OAuthError>(v),
                Err(e) => r matches Err(x) && err_view(x) == e,
            }
        }),
{
    let ghost old_rows = tokens.rows@;
    let i = match tokens.position(token) {
        Some(i) => i,
        None => return Err(OAuthError::invalid_grant()),
    };
    match check_refresh_grant(&tokens.rows[i].1, pinned, now) {
        Ok(()) => {},
        Err(e) => return Err(e),
    }
    let (_, row) = tokens.rows.remove(i);
    proof {
        assert forall|a: int, b: int| 0 <= a < b < tokens.rows@.len() implies #[trigger] tokens.rows@[a].0@
            != #[trigger] tokens.rows@[b].0@ by {
            if b < i {
                assert(old_rows[a].0@ != old_rows[b].0@);
            } else if a < i {
                assert(old_rows[a].0@ != old_rows[b + 1].0@);
            } else {
                assert(old_rows[a + 1].0@ != old_rows[b + 1].0@);
            }
        }
    }
    Ok((row.client_id, row.scope))
}

// ── The token endpoint ──────────────────────────────────────────────

/// The message for the first field an authorization-code grant lacks, in
/// the order they are checked (see `code_grant_fields`).
pub open spec fn missing_code_field(req: TokenRequest) -> Option<Seq<char>> {
    if req.code is None {
        Some("code is required"@)
    } else if req.code_verifier is None {
        Some("code_verifier is required"@)
    } else if req.redirect_uri is None {
        Some("redirect_uri is required"@)
    } else if req.client_id is None {
        Some("client_id is required"@)
    } else {
        None
    }
}

/// `t` is the pair of access token `access` and refresh token `refresh`
/// issued for `scope` at `now` (see `issue_tokens`).
pub open spec fn issued_as(t: IssuedTokens, access: String, refresh: String, scope: Option<String>, now: (i64, u32)) -> bool {
    &&& t.response.access_token == access
    &&& t.response.refresh_token == refresh
    &&& t.response.scope == scope
    &&& t.response.token_type@ == "Bearer"@
    &&& t.response.expires_in == ACCESS_TOKEN_TTL_SECS
    &&& t.access_expires_at == later_by(now, ACCESS_TOKEN_TTL_SECS)
    &&& t.refresh_expires_at == later_by(now, REFRESH_TOKEN_TTL_SECS)
}

/// The authorization-code grant at `now`: the request's fields (the first
/// missing one is an `invalid_request`), then the code redeemed against
/// the stored codes (see `redeem_spec`; `stamp` is the stored text of
/// `now`), then the fresh tokens `access` and `refresh` issued with the
/// code's stored scope. Storing the issued tokens is left to the caller.
pub fn token_authorization_code(
    codes: &mut Table<CodeRow>,
    req: &TokenRequest,
    now: (i64, u32),
    stamp: String,
    access: String,
    refresh: String,
) -> (r: Result<IssuedTokens, OAuthError>)
    requires
        old(codes).wf(),
        now.0 <= i64::MAX - REFRESH_TOKEN_TTL_SECS,
    ensures
        final(codes).wf(),
        missing_code_field(*req) matches Some(m) ==> (final(codes).entries() == old(codes).entries() && (r matches Err(
            x,
        ) && err_view(x) == invalid_request_view(m))),
        missing_code_field(*req) is None ==> ({
            let s = redeem_spec(
                old(codes).entries(),
                req.code.unwrap()@,
                req.client_id.unwrap()@,
                req.redirect_uri.unwrap()@,
                vstd::utf8::encode_utf8(req.code_verifier.unwrap()@),
                now,
                stamp,
            );
            &&& final(codes).entries() == s.0
            &&& match s.1 {
                Ok(scope) => r matches Ok(t) && issued_as(t, access, refresh, scope, now),
                Err(e) => r matches Err(x) && err_view(x) == e,
            }
        }),
{
    let (code, verifier, redirect_uri, client_id) = match code_grant_fields(req) {
        Ok(f) => f,
        Err(e) => return Err(e),
    };
    let scope = match redeem_code(codes, code.as_str(), client_id.as_str(), redirect_uri.as_str(), verifier.as_str(), now, stamp) {
        Ok(s) => s,
        Err(e) => return Err(e),
    };
    Ok(issue_tokens(access, refresh, scope, now))
}

/// The refresh grant at `now`: the request must carry a refresh token
/// (else `invalid_request`); that token is used against the stored ones,
/// pinned to the request's `client_id` when it gives one (see
/// `refresh_spec`), and the fresh tokens `access` and `refresh` are issued
/// for the requested scope, else the one stored with the used token.
/// Storing the issued tokens is left to the caller.
pub fn token_refresh(
    tokens: &mut Table<RefreshRow>,
    req: &TokenRequest,
    now: (i64, u32),
    access: String,
    refresh: String,
) -> (r: Result<IssuedTokens, OAuthError>)
    requires
        old(tokens).wf(),
        now.0 <= i64::MAX - REFRESH_TOKEN_TTL_SECS,
    ensures
        final(tokens).wf(),
        req.refresh_token is None ==> (final(tokens).entries() == old(tokens).entries() && (r matches Err(x) && err_view(x)
            == invalid_request_view("refresh_token is required"@))),
        req.refresh_token matches Some(p) ==> ({
            let s = refresh_spec(old(tokens).entries(), p@, opt_view(req.client_id), now);
            &&& final(tokens).entries() == s.0
            &&& match s.1 {
                Ok(v) => r matches Ok(t) && issued_as(t, access, refresh, if req.scope is Some {
                    req.scope
                } else {
                    v.1
                }, now),
                Err(e) => r matches Err(x) && err_view(x) == e,
            }
        }),
{
    let provided = match &req.refresh_token {
        Some(p) => p.as_str(),
        None => return Err(OAuthError::invalid_request("refresh_token is required")),
    };
    let pinned: Option<&str> = match &req.client_id {
        Some(c) => Some(c.as_str()),
        None => None,
    };
    let (_client, stored) = match take_refresh_token(tokens, provided, pinned, now) {
        Ok(v) => v,
        Err(e) => return Err(e),
    };
    let requested = match &req.scope {
        Some(s) => Some(s.clone()),
        None => None,
    };
    let scope = refreshed_scope(requested, stored);
    Ok(issue_tokens(access, refresh, scope, now))
}

// ── Laws ─────────────────────────────────────────────────────────────

/// An authorization code is spent once: after it has been redeemed, any
/// further attempt to redeem it, with whatever client, redirect URI,
/// verifier and time, is `invalid_grant` and changes nothing.
pub proof fn law_code_single_use(
    rows: Seq<(String, CodeRow)>,
    code: Seq<char>,
    client_id: Seq<char>,
    redirect_uri: Seq<char>,
    verifier: Seq<u8>,
    now: (i64, u32),
    stamp: String,
    client_id2: Seq<char>,
    redirect_uri2: Seq<char>,
    verifier2: Seq<u8>,
    now2: (i64, u32),
    stamp2: String,
)
    requires
        keys_distinct(rows),
        redeem_spec(rows, code, client_id, redirect_uri, verifier, now, stamp).1 is Ok,
    ensures
        ({
            let after = redeem_spec(rows, code, client_id, redirect_uri, verifier, now, stamp).0;
            &&& keys_distinct(after)
            &&& redeem_spec(after, code, client_id2, redirect_uri2, verifier2, now2, stamp2) == (
                after,
                Err::<Option<String>, (u16, Seq<char>, Seq<char>)>(invalid_grant_view()),
            )
        }),
{
    let i = key_index(rows, code);
    let after = rows.update(i, (rows[i].0, mark_used(rows[i].1, stamp)));
    assert forall|a: int, b: int| 0 <= a < b < after.len() implies #[trigger] after[a].0@ != #[trigger] after[b].0@ by {
        assert(rows[a].0@ != rows[b].0@);
    }
    lemma_key_index(after, code, i);
}

/// A refresh token serves once: after it has been used it is no longer
/// stored, and any further use of it, with whatever pinned client and
/// time, is `invalid_grant` and changes nothing.
pub proof fn law_refresh_token_rotates(
    rows: Seq<(String, RefreshRow)>,
    token: Seq<char>,
    pinned: Option<Seq<char>>,
    now: (i64, u32),
    pinned2: Option<Seq<char>>,
    now2: (i64, u32),
)
    requires
        keys_distinct(rows),
        refresh_spec(rows, token, pinned, now).1 is Ok,
    ensures
        ({
            let after = refresh_spec(rows, token, pinned, now).0;
            &&& keys_distinct(after)
            &&& !has_key(after, token)
            &&& after.len() + 1 == rows.len()
            &&& refresh_spec(after, token, pinned2, now2) == (
                after,
                Err::<(String, Option<String>), (u16, Seq<char>, Seq<char>)>(invalid_grant_view()),
            )
        }),
{
    let i = key_index(rows, token);
    let after = rows.remove(i);
    assert forall|a: int, b: int| 0 <= a < b < after.len() implies #[trigger] after[a].0@ != #[trigger] after[b].0@ by {
        if b < i {
            assert(rows[a].0@ != rows[b].0@);
        } else if a < i {
            assert(rows[a].0@ != rows[b + 1].0@);
        } else {
            assert(rows[a + 1].0@ != rows[b + 1].0@);
        }
    }
    if has_key(after, token) {
        let j = choose|j: int| 0 <= j < after.len() && #[trigger] after[j].0@ == token;
        if j < i {
            assert(rows[j].0@ != rows[i].0@);
        } else {
            assert(rows[i].0@ != rows[j + 1].0@);
        }
    }
}

} // verus!

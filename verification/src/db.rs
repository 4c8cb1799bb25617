//! Where the user database lives and how it syncs: the resolved settings
//! for opening it, computed from the values of the environment.
use crate::error::Error;
use crate::ids::{chars_of, to_owned};
use crate::text::{concat, joined, views};
use vstd::prelude::*;

verus! {

/// Credentials for syncing the local replica to a server.
#[derive(Debug, Clone)]
pub struct SyncConfig {
    pub url: String,
    pub auth_token: String,
}

/// Resolved settings for opening the user database.
#[derive(Debug, Clone)]
pub struct DbConfig {
    pub local_path: String,
    pub sync: Option<SyncConfig>,
}

/// `name` appended to `base` as a path component: a separator goes
/// between them unless `base` is empty or already ends with one.
pub open spec fn path_join(base: Seq<char>, name: Seq<char>) -> Seq<char> {
    if base.len() == 0 {
        name
    } else if base.last() == '/' {
        base + name
    } else {
        base + seq!['/'] + name
    }
}

/// `name` (a relative path) appended to `base` as a path component.
pub fn join_path(base: &str, name: &str) -> (r: String)
    ensures
        r@ == path_join(base@, name@),
{
    let cs = chars_of(base);
    let n = cs.len();
    if n == 0 {
        to_owned(name)
    } else if cs[n - 1] == '/' {
        let parts: [&str; 2] = [base, name];
        let r = concat(&parts);
        assert(views(parts@) =~= seq![base@, name@]);
        proof {
            lemma_joined_two(base@, name@);
        }
        r
    } else {
        let parts: [&str; 3] = [base, "/", name];
        let r = concat(&parts);
        assert(views(parts@) =~= seq![base@, "/"@, name@]);
        proof {
            reveal_strlit("/");
            lemma_joined_three(base@, "/"@, name@);
            assert("/"@ =~= seq!['/']);
        }
        r
    }
}

proof fn lemma_joined_two(a: Seq<char>, b: Seq<char>)
    ensures
        seq![a, b].flatten() == a + b,
{
    seq![a].lemma_flatten_one_element();
    assert(seq![a, b] =~= seq![a].push(b));
    seq![a].lemma_flatten_push(b);
}

proof fn lemma_joined_three(a: Seq<char>, b: Seq<char>, c: Seq<char>)
    ensures
        seq![a, b, c].flatten() == a + b + c,
{
    lemma_joined_two(a, b);
    assert(seq![a, b, c] =~= seq![a, b].push(c));
    seq![a, b].lemma_flatten_push(c);
}

/// The state directory: `MATHTUTOR_HOME` when set, else `.mathtutor`
/// under `HOME`; `NoHome` when neither is set.
pub fn mt_home(mathtutor_home: Option<String>, home: Option<String>) -> (r: Result<String, Error>)
    ensures
        match mathtutor_home {
            Some(p) => r matches Ok(x) && x@ == p@,
            None => match home {
                Some(h) => r matches Ok(x) && x@ == path_join(h@, ".mathtutor"@),
                None => r == Err::<String, Error>(Error::NoHome),
            },
        },
{
    match mathtutor_home {
        Some(p) => Ok(p),
        None => match home {
            Some(h) => Ok(join_path(h.as_str(), ".mathtutor")),
            None => Err(Error::NoHome),
        },
    }
}

/// The database file under the state directory `home`: `mt.db`.
pub fn default_path(home: &str) -> (r: String)
    ensures
        r@ == path_join(home@, "mt.db"@),
{
    join_path(home, "mt.db")
}

impl SyncConfig {
    /// Sync credentials from explicit values; `None` when either is empty.
    pub fn new(url: String, auth_token: String) -> (r: Option<SyncConfig>)
        ensures
            match r {
                Some(c) => url@.len() > 0 && auth_token@.len() > 0 && c.url == url && c.auth_token == auth_token,
                None => url@.len() == 0 || auth_token@.len() == 0,
            },
    {
        if chars_of(url.as_str()).len() == 0 || chars_of(auth_token.as_str()).len() == 0 {
            return None;
        }
        Some(SyncConfig { url, auth_token })
    }

    /// Sync credentials from the values of `TURSO_URL` and
    /// `TURSO_AUTH_TOKEN`; `None` when either is unset or empty.
    pub fn from_env(url: Option<String>, auth_token: Option<String>) -> (r: Option<SyncConfig>)
        ensures
            match (url, auth_token) {
                (Some(u), Some(t)) => match r {
                    Some(c) => u@.len() > 0 && t@.len() > 0 && c.url == u && c.auth_token == t,
                    None => u@.len() == 0 || t@.len() == 0,
                },
                _ => r is None,
            },
    {
        match (url, auth_token) {
            (Some(u), Some(t)) => SyncConfig::new(u, t),
            _ => None,
        }
    }
}

impl DbConfig {
    /// Settings from the environment: the database under the state
    /// directory (see `mt_home`), sync from `TURSO_URL` and
    /// `TURSO_AUTH_TOKEN` (see `SyncConfig::from_env`).
    pub fn from_env(
        mathtutor_home: Option<String>,
        home: Option<String>,
        turso_url: Option<String>,
        turso_auth_token: Option<String>,
    ) -> (r: Result<DbConfig, Error>)
        ensures
            match r {
                Ok(c) => exists|h: String| #[trigger] mt_home_is(mathtutor_home, home, h)
                    && c.local_path@ == path_join(h@, "mt.db"@)
                    && c.sync == sync_of(turso_url, turso_auth_token),
                Err(e) => mathtutor_home is None && home is None && e == Error::NoHome,
            },
    {
        let h = match mt_home(mathtutor_home, home) {
            Ok(h) => h,
            Err(e) => return Err(e),
        };
        let local_path = default_path(h.as_str());
        let sync = SyncConfig::from_env(turso_url, turso_auth_token);
        proof {
            assert(mt_home_is(mathtutor_home, home, h));
        }
        Ok(DbConfig { local_path, sync })
    }

    /// Settings for an explicit local file, without sync.
    pub fn local(local_path: String) -> (r: DbConfig)
        ensures
            r.local_path == local_path,
            r.sync is None,
    {
        DbConfig { local_path, sync: None }
    }
}

/// `h` is the state directory the environment values give (see `mt_home`).
pub open spec fn mt_home_is(mathtutor_home: Option<String>, home: Option<String>, h: String) -> bool {
    match mathtutor_home {
        Some(p) => h@ == p@,
        None => home matches Some(x) && h@ == path_join(x@, ".mathtutor"@),
    }
}

/// The sync credentials the environment values give.
pub open spec fn sync_of(url: Option<String>, token: Option<String>) -> Option<SyncConfig> {
    match (url, token) {
        (Some(u), Some(t)) => if u@.len() > 0 && t@.len() > 0 {
            Some(SyncConfig { url: u, auth_token: t })
        } else {
            None
        },
        _ => None,
    }
}


// ── Timestamps ────────────────────────────────────────────────────

/// What `chrono::DateTime::parse_from_rfc3339` makes of `s`: the instant
/// as whole seconds and nanoseconds since the Unix epoch, or the message of
/// its parse error.
pub uninterp spec fn rfc3339_parse(s: Seq<char>) -> Result<(i64, u32), Seq<char>>;

/// `chrono::DateTime::parse_from_rfc3339`, read as an instant (seconds and
/// nanoseconds since the Unix epoch) or as the message of its error.
#[verifier::external_body]
fn parse_rfc3339(s: &str) -> (r: Result<(i64, u32), String>)
    ensures
        match r {
            Ok(t) => rfc3339_parse(s@) == Ok::<(i64, u32), Seq<char>>(t),
            Err(m) => rfc3339_parse(s@) == Err::<(i64, u32), Seq<char>>(m@),
        },
{
    match chrono::DateTime::parse_from_rfc3339(s) {
        Ok(dt) => Ok((dt.timestamp(), dt.timestamp_subsec_nanos())),
        Err(e) => Err(e.to_string()),
    }
}

/// Instant `a` comes before instant `b`.
pub open spec fn instant_lt(a: (i64, u32), b: (i64, u32)) -> bool {
    a.0 < b.0 || (a.0 == b.0 && a.1 < b.1)
}

/// A stored timestamp (any RFC 3339 form) as an instant; `BadTimestamp`
/// with the text and the parser's message when it does not parse.
pub fn parse_ts(s: &str) -> (r: Result<(i64, u32), Error>)
    ensures
        match rfc3339_parse(s@) {
            Ok(t) => r == Ok::<(i64, u32), Error>(t),
            Err(m) => r matches Err(Error::BadTimestamp(x)) && x@ == joined(seq![s@, ": "@, m]),
        },
{
    match parse_rfc3339(s) {
        Ok(t) => Ok(t),
        Err(m) => {
            let parts: [&str; 3] = [s, ": ", m.as_str()];
            let x = concat(&parts);
            assert(views(parts@) =~= seq![s@, ": "@, m@]);
            Err(Error::BadTimestamp(x))
        },
    }
}

/// Whether instant `a` comes before instant `b`.
pub fn instant_before(a: (i64, u32), b: (i64, u32)) -> (r: bool)
    ensures
        r == instant_lt(a, b),
{
    a.0 < b.0 || (a.0 == b.0 && a.1 < b.1)
}


/// What chrono writes for the UTC instant `secs`/`nanos` (seconds and
/// nanoseconds since the Unix epoch) under the `strftime`-style `pattern`;
/// `None` when chrono has no date-time for the instant.
pub uninterp spec fn utc_formatted(secs: i64, nanos: u32, pattern: Seq<char>) -> Option<Seq<char>>;

/// `chrono::DateTime::<Utc>::from_timestamp` followed by `format(pattern)`.
/// Writing out a malformed pattern panics, so only the library's own
/// patterns are handed to it.
#[verifier::external_body]
fn format_utc(secs: i64, nanos: u32, pattern: &str) -> (r: Option<String>)
    requires
        pattern@ == STORED_TS_PATTERN@ || pattern@ == DISPLAY_TS_PATTERN@ || pattern@ == PATH_STAMP_PATTERN@,
    ensures
        match r {
            Some(x) => utc_formatted(secs, nanos, pattern@) == Some(x@),
            None => utc_formatted(secs, nanos, pattern@) is None,
        },
{
    chrono::DateTime::from_timestamp(secs, nanos).map(|dt| dt.format(pattern).to_string())
}

/// The layout of every timestamp the library writes to a `DATETIME`
/// column: milliseconds and a `Z`, so text order is time order.
pub const STORED_TS_PATTERN: &'static str = "%Y-%m-%dT%H:%M:%S%.3fZ";

/// The stored text of instant `t` (see `STORED_TS_PATTERN`); `None` for an
/// instant chrono cannot represent.
pub fn format_ts(t: (i64, u32)) -> (r: Option<String>)
    ensures
        match r {
            Some(x) => utc_formatted(t.0, t.1, STORED_TS_PATTERN@) == Some(x@),
            None => utc_formatted(t.0, t.1, STORED_TS_PATTERN@) is None,
        },
{
    format_utc(t.0, t.1, STORED_TS_PATTERN)
}

/// The layout of a timestamp shown to a learner: whole seconds and a `Z`.
pub const DISPLAY_TS_PATTERN: &'static str = "%Y-%m-%dT%H:%M:%SZ";

/// The displayed text of instant `t` (see `DISPLAY_TS_PATTERN`); `None`
/// for an instant chrono cannot represent.
pub fn display_ts(t: (i64, u32)) -> (r: Option<String>)
    ensures
        match r {
            Some(x) => utc_formatted(t.0, t.1, DISPLAY_TS_PATTERN@) == Some(x@),
            None => utc_formatted(t.0, t.1, DISPLAY_TS_PATTERN@) is None,
        },
{
    format_utc(t.0, t.1, DISPLAY_TS_PATTERN)
}

/// The layout of the stamp in a generated path id.
pub const PATH_STAMP_PATTERN: &'static str = "%Y_%m_%d_%H%M%S";

/// The id of a path created at instant `now`: `p_` and the stamp of
/// `now` (see `PATH_STAMP_PATTERN`); `None` for an instant chrono cannot
/// represent.
pub fn generate_path_id(now: (i64, u32)) -> (r: Option<String>)
    ensures
        match utc_formatted(now.0, now.1, PATH_STAMP_PATTERN@) {
            Some(x) => r matches Some(id) && id@ == "p_"@ + x,
            None => r is None,
        },
{
    match format_utc(now.0, now.1, PATH_STAMP_PATTERN) {
        Some(x) => Some(path_id_of(x.as_str())),
        None => None,
    }
}

/// The path id for stamp `stamp`: `p_` and the stamp.
pub fn path_id_of(stamp: &str) -> (r: String)
    ensures
        r@ == "p_"@ + stamp@,
{
    let parts: [&str; 2] = ["p_", stamp];
    let id = concat(&parts);
    proof {
        assert(views(parts@) =~= seq!["p_"@, stamp@]);
        assert(seq!["p_"@, stamp@] =~= seq!["p_"@].push(stamp@));
        seq!["p_"@].lemma_flatten_push(stamp@);
        assert(seq!["p_"@] =~= Seq::<Seq<char>>::empty().push("p_"@));
        Seq::<Seq<char>>::empty().lemma_flatten_push("p_"@);
    }
    id
}

} // verus!

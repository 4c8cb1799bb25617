//! Start-up decisions of the MCP server: which auth modes are on, and the
//! public URL it advertises.
use crate::auth::AuthConfig;
use crate::error::Error;
use crate::ids::{copy_opt, opt_view, to_owned};
use crate::text::{concat, views};
use vstd::prelude::*;

verus! {

/// What `url::Url::parse` makes of `raw`, written back with `as_str`
/// (the URL in its normalized form); `None` when it does not parse.
pub uninterp spec fn parsed_url(raw: Seq<char>) -> Option<Seq<char>>;

/// `url::Url::parse(raw)` and `Url::as_str`: the normalized URL, or
/// `None` when `raw` is not a URL.
#[verifier::external_body]
fn parse_url(raw: &str) -> (r: Option<String>)
    ensures
        match r {
            Some(u) => parsed_url(raw@) == Some(u@),
            None => parsed_url(raw@) is None,
        },
{
    url::Url::parse(raw).ok().map(|u| u.as_str().to_string())
}

/// The text the public URL is read from: the explicit one, else `http://`
/// and the bind address.
pub open spec fn public_url_text(explicit: Option<Seq<char>>, bind: Seq<char>) -> Seq<char> {
    match explicit {
        Some(s) => s,
        None => "http://"@ + bind,
    }
}

/// The public URL the server advertises (see `public_url_text`), as the
/// URL parser normalizes it; `BadPublicUrl` with the text when it is not
/// a URL. `bind` is the bind address as the socket address writes it.
pub fn resolve_public_url(explicit: Option<&str>, bind: &str) -> (r: Result<String, Error>)
    ensures
        ({
            let raw = public_url_text(
                match explicit {
                    Some(s) => Some(s@),
                    None => None,
                },
                bind@,
            );
            match parsed_url(raw) {
                Some(u) => r matches Ok(x) && x@ == u,
                None => r matches Err(Error::BadPublicUrl(x)) && x@ == raw,
            }
        }),
{
    let raw = match explicit {
        Some(s) => to_owned(s),
        None => {
            let parts: [&str; 2] = ["http://", bind];
            let t = concat(&parts);
            proof {
                assert(views(parts@) =~= seq!["http://"@, bind@]);
                assert(seq!["http://"@, bind@] =~= seq!["http://"@].push(bind@));
                seq!["http://"@].lemma_flatten_push(bind@);
                assert(seq!["http://"@] =~= Seq::<Seq<char>>::empty().push("http://"@));
                Seq::<Seq<char>>::empty().lemma_flatten_push("http://"@);
            }
            t
        },
    };
    match parse_url(raw.as_str()) {
        Some(u) => Ok(u),
        None => Err(Error::BadPublicUrl(raw)),
    }
}

/// How the server starts: the static API key if any, whether the OAuth
/// authorization server runs, and the public URL it advertises.
#[derive(Debug)]
pub struct ServerPlan {
    pub api_key: Option<String>,
    pub oauth: bool,
    pub public_url: String,
}

/// The start-up decision for auth settings `auth` and bind address `bind`:
/// `MissingAuth` when neither auth mode is on, else the public URL (see
/// `resolve_public_url`, whose error comes through), with OAuth on exactly
/// when an admin password is set.
pub fn plan_server(auth: &AuthConfig, bind: &str) -> (r: Result<ServerPlan, Error>)
    ensures
        auth.api_key is None && auth.admin_password is None ==> r == Err::<ServerPlan, Error>(Error::MissingAuth),
        !(auth.api_key is None && auth.admin_password is None) ==> {
            let raw = public_url_text(opt_view(auth.public_url), bind@);
            match parsed_url(raw) {
                Some(u) => r matches Ok(p) && p.public_url@ == u && p.oauth == (auth.admin_password is Some)
                    && opt_view(p.api_key) == opt_view(auth.api_key),
                None => r matches Err(Error::BadPublicUrl(x)) && x@ == raw,
            }
        },
{
    auth.validate()?;
    let explicit = match &auth.public_url {
        Some(u) => Some(u.as_str()),
        None => None,
    };
    let public_url = resolve_public_url(explicit, bind)?;
    Ok(ServerPlan { api_key: copy_opt(&auth.api_key), oauth: auth.admin_password.is_some(), public_url })
}

} // verus!

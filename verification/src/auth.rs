//! Access to the MCP server: which auth modes are on, and whether a
//! presented bearer token is the static API key.
use crate::error::Error;
use crate::ids::to_owned;
use subtle::ConstantTimeEq;
use vstd::prelude::*;
use vstd::string::StringSliceAdditionalSpecFns;

verus! {

/// Auth settings of the MCP server. At least one mode must be on.
#[derive(Clone, Debug, Default)]
pub struct AuthConfig {
    /// Static-bearer mode: the raw token value clients present.
    pub api_key: Option<String>,
    /// OAuth mode: the password the authorize form asks for.
    pub admin_password: Option<String>,
    /// The URL advertised in OAuth discovery metadata.
    pub public_url: Option<String>,
}

impl AuthConfig {
    /// `MissingAuth` when neither the API key nor the admin password is set.
    pub fn validate(&self) -> (r: Result<(), Error>)
        ensures
            r is Ok <==> (self.api_key is Some || self.admin_password is Some),
            r is Err ==> r == Err::<(), Error>(Error::MissingAuth),
    {
        if self.api_key.is_none() && self.admin_password.is_none() {
            return Err(Error::MissingAuth);
        }
        Ok(())
    }
}

/// `subtle`'s `ConstantTimeEq::ct_eq` on byte slices, read as a `bool`:
/// true exactly when both slices have the same length and the same bytes
/// (its running time depends on the lengths only).
#[verifier::external_body]
pub(crate) fn constant_time_eq(a: &[u8], b: &[u8]) -> (r: bool)
    ensures
        r == (a@ == b@),
{
    a.ct_eq(b).into()
}

/// Whether `token` is the configured API key (compared in constant time);
/// false when no key is configured.
pub fn api_key_matches(api_key: Option<&str>, token: &str) -> (r: bool)
    ensures
        r == (api_key matches Some(k) && token.spec_bytes() == k.spec_bytes()),
{
    match api_key {
        Some(k) => constant_time_eq(token.as_bytes(), k.as_bytes()),
        None => false,
    }
}

/// The token a request presents: the `Authorization` header's value after
/// `Bearer `, else the `token` query parameter.
pub fn provided_token(authorization: Option<&str>, query_token: Option<String>) -> (r: Option<String>)
    ensures
        match authorization {
            Some(h) if "Bearer "@.is_prefix_of(h@) => r matches Some(t) && t@ == h@.skip(7),
            _ => r == query_token,
        },
{
    proof {
        reveal_strlit("Bearer ");
    }
    match authorization {
        Some(h) => match strip_bearer(h) {
            Some(t) => Some(t),
            None => query_token,
        },
        None => query_token,
    }
}

/// `h` without its leading `Bearer `, when it has one.
fn strip_bearer(h: &str) -> (r: Option<String>)
    ensures
        match r {
            Some(t) => "Bearer "@.is_prefix_of(h@) && t@ == h@.skip(7),
            None => !"Bearer "@.is_prefix_of(h@),
        },
{
    proof {
        reveal_strlit("Bearer ");
    }
    let cs = crate::ids::chars_of(h);
    let p = crate::ids::chars_of("Bearer ");
    if cs.len() < p.len() {
        return None;
    }
    let mut i: usize = 0;
    while i < p.len()
        invariant
            p@ == "Bearer "@,
            cs@ == h@,
            p@.len() <= cs@.len(),
            i <= p@.len(),
            forall|k: int| 0 <= k < i ==> cs@[k] == p@[k],
        decreases p@.len() - i,
    {
        if cs[i] != p[i] {
            return None;
        }
        i = i + 1;
    }
    assert(h@.take(7) =~= "Bearer "@);
    let n = h.unicode_len();
    let t = h.substring_char(7, n);
    assert(t@ =~= h@.skip(7));
    Some(t.to_owned())
}

} // verus!

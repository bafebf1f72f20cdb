//! The database endpoint: the configured base URL with the user's
//! credentials embedded as query parameters. URL syntax and
//! normalization are the url crate's work, a deterministic function of
//! the two texts; the credential query string is built and checked here.

use vstd::prelude::*;

verus! {

/// Whether the url crate can parse `base` as an absolute URL and resolve
/// `reference` against it.
pub uninterp spec fn url_join_ok(base: Seq<char>, reference: Seq<char>) -> bool;

/// The serialization of `reference` resolved against `base`, where the
/// url crate accepts both.
pub uninterp spec fn joined_url_of(base: Seq<char>, reference: Seq<char>) -> Seq<char>;

/// Relies on url::Url::parse, url::Url::join and url::Url::as_str: the
/// base is parsed, `reference` is resolved against it, and the result is
/// serialized — a deterministic function of the two texts alone. `None`
/// exactly when parsing or resolving fails; neither call panics.
#[verifier::external_body]
fn join_url(base: &str, reference: &str) -> (r: Option<String>)
    ensures
        (r is Some) == url_join_ok(base@, reference@),
        r matches Some(s) ==> s@ == joined_url_of(base@, reference@),
{
    match url::Url::parse(base) {
        Ok(u) => match u.join(reference) {
            Ok(j) => Some(j.as_str().to_owned()),
            Err(_) => None,
        },
        Err(_) => None,
    }
}

/// Rejection of a base URL the url crate cannot parse or join against.
#[derive(Clone, Copy, Debug, PartialEq, Eq, Structural)]
pub enum EndpointError {
    InvalidBaseUrl,
}

/// The credential query string attached to the database endpoint.
pub open spec fn spec_credential_query(user: Seq<char>, password: Seq<char>) -> Seq<char> {
    "?user="@ + user + "&password="@ + password
}

/// Builds the credential query string for the endpoint.
pub fn credential_query(user: &str, password: &str) -> (r: String)
    ensures
        r@ == spec_credential_query(user@, password@),
{
    let mut s = ("?user=").to_owned();
    s.append(user);
    s.append("&password=");
    s.append(password);
    s
}

/// The endpoint the executor posts to: the credential query string
/// joined onto the base URL, serialized by the url crate. Succeeds
/// exactly when the url crate accepts the base and the join; a base it
/// cannot handle is the one rejection.
pub fn endpoint_url(base: &str, user: &str, password: &str) -> (r: Result<String, EndpointError>)
    ensures
        (r is Ok) == url_join_ok(base@, spec_credential_query(user@, password@)),
        r matches Ok(s) ==> s@ == joined_url_of(base@, spec_credential_query(user@, password@)),
        r matches Err(e) ==> e == EndpointError::InvalidBaseUrl,
{
    let qs = credential_query(user, password);
    match join_url(base, qs.as_str()) {
        Some(s) => Ok(s),
        None => Err(EndpointError::InvalidBaseUrl),
    }
}

} // verus!

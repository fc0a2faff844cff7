//! Page addresses: how a reference resolves against a base, and what path an
//! address has. Both questions are answered by the `url` crate.

use vstd::prelude::*;
use url::Url;

verus! {

/// The address that `reference` resolves to against the address `base`; `None`
/// where `base` is no absolute URL or `reference` cannot be resolved against it.
pub uninterp spec fn joined_url(base: Seq<char>, reference: Seq<char>) -> Option<Seq<char>>;

/// The path component of the address `url`; `None` where `url` is no absolute URL.
pub uninterp spec fn path_of_url(url: Seq<char>) -> Option<Seq<char>>;

/// Resolves `reference` against `base`: `base` is read with `Url::parse`, the
/// reference resolved with `Url::join`, and the result handed back as text.
/// Nothing is claimed of the address but that it is the one `url` computes
/// from these two texts.
#[verifier::external_body]
pub(crate) fn join_url(base: &str, reference: &str) -> (joined: Option<String>)
    ensures
        joined is Some <==> joined_url(base@, reference@) is Some,
        joined matches Some(address) ==> joined_url(base@, reference@) == Some(address@),
{
    let base = Url::parse(base).ok()?;
    base.join(reference).ok().map(String::from)
}

/// The path of `url`: `url` is read with `Url::parse` and `Url::path` is
/// handed back as text. Nothing is claimed of the path but that it is the one
/// `url` computes from this text.
#[verifier::external_body]
pub(crate) fn url_path(url: &str) -> (path: Option<String>)
    ensures
        path is Some <==> path_of_url(url@) is Some,
        path matches Some(text) ==> path_of_url(url@) == Some(text@),
{
    let url = Url::parse(url).ok()?;
    Some(String::from(url.path()))
}

} // verus!

use vstd::prelude::*;

verus! {

/// A normalized absolute URL together with its host component, held as
/// plain strings. Every URL that enters the frontier is of this shape:
/// candidates that do not parse as absolute URLs with a host are
/// resolved against the page that contained them or dropped.
pub struct CrawlUrl {
    pub full: String,
    pub host: String,
}

/// The pair of (serialization, host) that the `url` crate gives for a
/// string parsed as an absolute URL, or nothing when the string does
/// not parse or has no host. A function of the string alone.
pub uninterp spec fn url_parts_of(s: Seq<char>) -> Option<(Seq<char>, Seq<char>)>;

/// The pair of (serialization, host) that the `url` crate gives for a
/// candidate resolved against a base URL, or nothing when the base does
/// not parse, the join fails, or the result has no host. A function of
/// the two strings alone.
pub uninterp spec fn url_join_of(base: Seq<char>, rel: Seq<char>) -> Option<(Seq<char>, Seq<char>)>;

/// Relies on `url::Url::parse`, `url::Url::host_str` and
/// `url::Url::as_str`: parsing normalizes the URL and exposes its host,
/// and the outcome depends on the input string alone.
#[verifier::external_body]
pub(crate) fn parse_url(s: &str) -> (r: Option<CrawlUrl>)
    ensures
        match r {
            Some(u) => url_parts_of(s@) == Some((u.full@, u.host@)),
            None => url_parts_of(s@) is None,
        },
{
    match url::Url::parse(s) {
        Ok(u) => {
            let host = u.host_str().map(|h| h.to_owned());
            match host {
                Some(host) => Some(CrawlUrl { full: u.as_str().to_owned(), host }),
                None => None,
            }
        },
        Err(_) => None,
    }
}

/// Relies on `url::Url::parse`, `url::Url::join`, `url::Url::host_str`
/// and `url::Url::as_str`: joining resolves a (possibly relative)
/// candidate against a base URL, and the outcome depends on the two
/// strings alone.
#[verifier::external_body]
pub(crate) fn join_url(base: &str, rel: &str) -> (r: Option<CrawlUrl>)
    ensures
        match r {
            Some(u) => url_join_of(base@, rel@) == Some((u.full@, u.host@)),
            None => url_join_of(base@, rel@) is None,
        },
{
    match url::Url::parse(base).and_then(|b| b.join(rel)) {
        Ok(u) => {
            let host = u.host_str().map(|h| h.to_owned());
            match host {
                Some(host) => Some(CrawlUrl { full: u.as_str().to_owned(), host }),
                None => None,
            }
        },
        Err(_) => None,
    }
}

/// What a candidate token resolves to: itself if it is already an
/// absolute URL with a host, otherwise the candidate resolved against
/// the URL of the page it was found on.
pub open spec fn resolve_spec(tok: Seq<char>, base: Seq<char>) -> Option<(Seq<char>, Seq<char>)> {
    if url_parts_of(tok) is Some {
        url_parts_of(tok)
    } else {
        url_join_of(base, tok)
    }
}

/// Turn one candidate token into an absolute URL, resolving relative
/// candidates against the page URL `base`.
pub fn resolve_candidate(tok: &str, base: &str) -> (r: Option<CrawlUrl>)
    ensures
        match r {
            Some(u) => resolve_spec(tok@, base@) == Some((u.full@, u.host@)),
            None => resolve_spec(tok@, base@) is None,
        },
{
    match parse_url(tok) {
        Some(u) => Some(u),
        None => join_url(base, tok),
    }
}

} // verus!

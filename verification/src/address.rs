//! Absolute URLs as the crawler sees them.

use vstd::prelude::*;

verus! {

/// An absolute URL, reduced to the parts that the crawler reads: its
/// serialization, its scheme, its host and its query.
pub struct WebUrl {
    pub href: String,
    pub scheme: String,
    pub host: Option<String>,
    pub query: Option<String>,
}

/// The mathematical value of a [`WebUrl`].
pub struct UrlView {
    pub href: Seq<char>,
    pub scheme: Seq<char>,
    pub host: Option<Seq<char>>,
    pub query: Option<Seq<char>>,
}

impl View for WebUrl {
    type V = UrlView;

    open spec fn view(&self) -> UrlView {
        UrlView {
            href: self.href@,
            scheme: self.scheme@,
            host: self.host.deep_view(),
            query: self.query.deep_view(),
        }
    }
}

impl DeepView for WebUrl {
    type V = UrlView;

    open spec fn deep_view(&self) -> UrlView {
        self@
    }
}

/// What `url::Url::parse` makes of a string, if it accepts it.
pub uninterp spec fn parsed_url(input: Seq<char>) -> Option<UrlView>;

/// What `url::Url::join` makes of a reference resolved against the URL that
/// `url::Url::parse` makes of `base`, if both succeed.
pub uninterp spec fn joined_url(base: Seq<char>, reference: Seq<char>) -> Option<UrlView>;

/// Calls `url::Url::parse`. The result is `parsed_url` of the input: a URL
/// whose parts are the serialization (`as_str`), `scheme`, `host_str` and
/// `query` of the parsed value, or `None` where the crate returns an error.
#[verifier::external_body]
pub(crate) fn url_parse(input: &str) -> (r: Option<WebUrl>)
    ensures
        r.deep_view() == parsed_url(input@),
{
    match url::Url::parse(input) {
        Ok(u) => Some(WebUrl {
            href: u.as_str().to_owned(),
            scheme: u.scheme().to_owned(),
            host: u.host_str().map(str::to_owned),
            query: u.query().map(str::to_owned),
        }),
        Err(_) => None,
    }
}

/// Calls `url::Url::parse` on `base` and then `url::Url::join` on the result.
/// The result is `joined_url` of the two strings, or `None` where either call
/// returns an error.
#[verifier::external_body]
pub(crate) fn url_join(base: &str, reference: &str) -> (r: Option<WebUrl>)
    ensures
        r.deep_view() == joined_url(base@, reference@),
{
    let joined = match url::Url::parse(base) {
        Ok(b) => b.join(reference),
        Err(e) => Err(e),
    };
    match joined {
        Ok(u) => Some(WebUrl {
            href: u.as_str().to_owned(),
            scheme: u.scheme().to_owned(),
            host: u.host_str().map(str::to_owned),
            query: u.query().map(str::to_owned),
        }),
        Err(_) => None,
    }
}

impl WebUrl {
    /// A copy of this URL.
    pub fn duplicate(&self) -> (r: WebUrl)
        ensures
            r@ == self@,
    {
        WebUrl {
            href: self.href.clone(),
            scheme: self.scheme.clone(),
            host: match &self.host {
                Some(h) => Some(h.clone()),
                None => None,
            },
            query: match &self.query {
                Some(q) => Some(q.clone()),
                None => None,
            },
        }
    }

    /// Parses an absolute URL.
    pub fn parse(input: &str) -> (r: Option<WebUrl>)
        ensures
            r.deep_view() == parsed_url(input@),
    {
        url_parse(input)
    }
}

} // verus!

//! URLs as plain values, and the operations that the `url` crate does on them.
use crate::text;
use vstd::prelude::*;

verus! {

/// Why a text is not a URL.
#[derive(Debug, Clone, Copy, PartialEq, Eq, Structural)]
pub enum UrlError {
    /// The text has no scheme, so it could only be read against a base.
    RelativeUrlWithoutBase,
    /// The text is malformed in some other way.
    Malformed,
}

/// What the library reads of a URL.
#[derive(Debug, Clone, PartialEq, Eq)]
pub struct UrlParts {
    /// The whole URL as it is written out.
    pub href: String,
    /// The scheme, without the colon.
    pub scheme: String,
    /// The host, where there is one.
    pub host: Option<String>,
    /// The path, percent-encoded.
    pub path: String,
    /// The query, percent-encoded, where there is one.
    pub query: Option<String>,
    /// The decoded pairs of the query.
    pub pairs: Vec<(String, String)>,
}

/// The mathematical form of a URL.
#[verifier::ext_equal]
pub struct UrlView {
    pub href: Seq<char>,
    pub scheme: Seq<char>,
    pub host: Option<Seq<char>>,
    pub path: Seq<char>,
    pub query: Option<Seq<char>>,
    pub pairs: Seq<(Seq<char>, Seq<char>)>,
}

/// The view of an optional string.
pub open spec fn option_view(s: Option<String>) -> Option<Seq<char>> {
    match s {
        Some(s) => Some(s@),
        None => None,
    }
}

/// The views of a list of pairs.
pub open spec fn pair_views(pairs: Seq<(String, String)>) -> Seq<(Seq<char>, Seq<char>)> {
    Seq::new(pairs.len(), |i: int| (pairs[i].0@, pairs[i].1@))
}

impl View for UrlParts {
    type V = UrlView;

    open spec fn view(&self) -> UrlView {
        UrlView {
            href: self.href@,
            scheme: self.scheme@,
            host: option_view(self.host),
            path: self.path@,
            query: option_view(self.query),
            pairs: pair_views(self.pairs@),
        }
    }
}

/// The view of a parse result.
pub open spec fn parse_view(r: Result<UrlParts, UrlError>) -> Result<UrlView, UrlError> {
    match r {
        Ok(parts) => Ok(parts@),
        Err(e) => Err(e),
    }
}

/// Whether a URL has pairs only where it has a query that is not empty.
pub open spec fn pairs_come_from_query(url: UrlView) -> bool {
    (url.query matches Some(q) && q.len() > 0) || url.pairs.len() == 0
}

/// Whether a character is a lower-case letter of ASCII.
pub open spec fn lower_letter(c: char) -> bool {
    'a' <= c && c <= 'z'
}

/// Whether a character is a digit of ASCII.
pub open spec fn ascii_digit(c: char) -> bool {
    '0' <= c && c <= '9'
}

/// Whether a label of a host name stands for itself: lower-case letters, digits and hyphens, with a
/// letter in front, no hyphen at the end, and not the two hyphens of an encoded label.
pub open spec fn simple_label(label: Seq<char>) -> bool {
    &&& label.len() > 0
    &&& lower_letter(label[0])
    &&& label.last() != '-'
    &&& !(label.len() >= 4 && label[2] == '-' && label[3] == '-')
    &&& forall|i: int|
        0 <= i < label.len() ==> lower_letter(#[trigger] label[i]) || ascii_digit(label[i])
            || label[i] == '-'
}

/// Whether a host name stands for itself: dots with simple labels between them.
pub open spec fn simple_host(host: Seq<char>) -> bool {
    let labels = text::split(host, '.');
    forall|i: int| 0 <= i < labels.len() ==> simple_label(#[trigger] labels[i])
}

/// Whether a name stands for itself in the path of a URL: lower-case letters, digits, hyphens,
/// underscores and dots, with no dot in front or at the end.
pub open spec fn simple_name(name: Seq<char>) -> bool {
    &&& name.len() > 0
    &&& name[0] != '.'
    &&& name.last() != '.'
    &&& forall|i: int|
        0 <= i < name.len() ==> lower_letter(#[trigger] name[i]) || ascii_digit(name[i]) || name[i]
            == '-' || name[i] == '_' || name[i] == '.'
}

/// Whether names stand for themselves in the path of a URL.
pub open spec fn simple_names(names: Seq<Seq<char>>) -> bool {
    forall|i: int| 0 <= i < names.len() ==> simple_name(#[trigger] names[i])
}

/// The parts that the address of a file is written with.
#[verifier::ext_equal]
pub struct Address {
    pub scheme: Seq<char>,
    pub host: Seq<char>,
    /// The port and its colon, or nothing.
    pub port: Seq<char>,
    pub names: Seq<Seq<char>>,
}

impl Address {
    /// The address as it is written.
    pub open spec fn text(self) -> Seq<char> {
        self.scheme + "://"@ + self.host + self.port + "/"@ + text::join(self.names, "/"@)
    }

    /// Whether the parts can be read off the address as they stand: a web address of a simple host
    /// and simple names, without a port or with the default one, and of a length that a position in
    /// a URL can have.
    pub open spec fn is_simple(self) -> bool {
        &&& self.scheme == "http"@ || self.scheme == "https"@
        &&& self.port == ""@ || (self.scheme == "http"@ && self.port == ":80"@)
        &&& simple_host(self.host)
        &&& simple_names(self.names)
        &&& self.text().len() <= u32::MAX
    }

    /// The URL that the address is.
    pub open spec fn url(self) -> UrlView {
        UrlView {
            href: Address { port: ""@, ..self }.text(),
            scheme: self.scheme,
            host: Some(self.host),
            path: "/"@ + text::join(self.names, "/"@),
            query: None,
            pairs: Seq::empty(),
        }
    }
}

/// Whether a text that is a simple address reads as the URL with its parts; the slash behind a host
/// may be missing.
pub open spec fn reads_as_written(input: Seq<char>, read: Result<UrlView, UrlError>) -> bool {
    forall|address: Address| #[trigger]
        address.is_simple() && (address.text() == input || (address.names.len() == 0
            && address.text() == input + "/"@)) ==> read == Ok::<UrlView, UrlError>(address.url())
}

/// Whether a text has no scheme, as it has no colon behind one.
pub open spec fn lacks_scheme(input: Seq<char>) -> bool {
    !input.contains(':')
}

/// The error for a text that could only be read against a base.
pub open spec fn relative_url() -> Result<UrlView, UrlError> {
    Err(UrlError::RelativeUrlWithoutBase)
}

/// What `url::Url::parse` makes of a text.
pub uninterp spec fn url_parse(input: Seq<char>) -> Result<UrlView, UrlError>;

/// What `url::Url::join` makes of a reference against a base.
pub uninterp spec fn url_join(base: Seq<char>, reference: Seq<char>) -> Option<UrlView>;

/// A URL after `url::Url::set_fragment(None)`.
pub uninterp spec fn url_without_fragment(href: Seq<char>) -> Option<Seq<char>>;

/// A URL after `url::Url::set_host(Some(host))`.
pub uninterp spec fn url_with_host(href: Seq<char>, host: Seq<char>) -> Option<Seq<char>>;

/// A URL after `url::Url::set_query(query)`.
pub uninterp spec fn url_with_query(href: Seq<char>, query: Option<Seq<char>>) -> Option<Seq<char>>;

/// A URL after `url::PathSegmentsMut::extend(segments)`.
pub uninterp spec fn url_with_segments(href: Seq<char>, segments: Seq<Seq<char>>) -> Option<
    Seq<char>,
>;

/// A URL after `url::Url::query_pairs_mut` has appended the pairs.
pub uninterp spec fn url_with_pairs(
    href: Seq<char>,
    pairs: Seq<(Seq<char>, Seq<char>)>,
) -> Option<Seq<char>>;

/// The `application/x-www-form-urlencoded` form of the pairs.
pub uninterp spec fn form_encoded(pairs: Seq<(Seq<char>, Seq<char>)>) -> Seq<char>;

/// `url::Url::parse`, with what the library reads of the URL copied out (`as_str`, `scheme`,
/// `host_str`, `path`, `query` and `query_pairs`). The result is named. The pairs are those of the
/// query, so that there is none where the query is missing or empty. A simple address reads as it is
/// written, but for the default port. A text without a colon has no scheme.
#[verifier::external_body]
pub(crate) fn parse_url(input: &str) -> (r: Result<UrlParts, UrlError>)
    ensures
        parse_view(r) == url_parse(input@),
        r matches Ok(url) ==> pairs_come_from_query(url@),
        reads_as_written(input@, parse_view(r)),
        lacks_scheme(input@) ==> parse_view(r) == relative_url(),
{
    match url::Url::parse(input) {
        Ok(url) => Ok(UrlParts {
            href: url.as_str().to_owned(),
            scheme: url.scheme().to_owned(),
            host: url.host_str().map(str::to_owned),
            path: url.path().to_owned(),
            query: url.query().map(str::to_owned),
            pairs: url.query_pairs().into_owned().collect(),
        }),
        Err(url::ParseError::RelativeUrlWithoutBase) => Err(UrlError::RelativeUrlWithoutBase),
        Err(_) => Err(UrlError::Malformed),
    }
}

/// `url::Url::join` on the URL that `base` is, with what the library reads of the result copied
/// out; `None` where either fails. The result is named.
#[verifier::external_body]
pub(crate) fn join_url(base: &str, reference: &str) -> (r: Option<UrlParts>)
    ensures
        match r {
            Some(parts) => url_join(base@, reference@) == Some(parts@),
            None => url_join(base@, reference@) is None,
        },
{
    let base = url::Url::parse(base).ok()?;
    let url = base.join(reference).ok()?;
    Some(UrlParts {
        href: url.as_str().to_owned(),
        scheme: url.scheme().to_owned(),
        host: url.host_str().map(str::to_owned),
        path: url.path().to_owned(),
        query: url.query().map(str::to_owned),
        pairs: url.query_pairs().into_owned().collect(),
    })
}

/// `url::Url::set_fragment(None)` on the URL that `href` is; `None` where it is none. The result is
/// named.
#[verifier::external_body]
pub(crate) fn without_fragment(href: &str) -> (r: Option<String>)
    ensures
        option_view(r) == url_without_fragment(href@),
{
    let mut url = url::Url::parse(href).ok()?;
    url.set_fragment(None);
    Some(url.into())
}

/// `url::Url::set_host` on the URL that `href` is; `None` where it is none. A host that the URL
/// cannot take leaves it as it is. The result is named.
#[verifier::external_body]
pub(crate) fn with_host(href: &str, host: &str) -> (r: Option<String>)
    ensures
        option_view(r) == url_with_host(href@, host@),
{
    let mut url = url::Url::parse(href).ok()?;
    let _ = url.set_host(Some(host));
    Some(url.into())
}

/// `url::Url::set_query` on the URL that `href` is; `None` where it is none. The result is named.
#[verifier::external_body]
pub(crate) fn with_query(href: &str, query: &Option<String>) -> (r: Option<String>)
    ensures
        option_view(r) == url_with_query(href@, option_view(*query)),
{
    let mut url = url::Url::parse(href).ok()?;
    url.set_query(query.as_deref());
    Some(url.into())
}

/// `url::PathSegmentsMut::extend` on the URL that `href` is; `None` where it is none or cannot have
/// segments. The result is named. Simple names behind the root of a simple host make the address of
/// both.
#[verifier::external_body]
pub(crate) fn with_segments(href: &str, segments: &Vec<String>) -> (r: Option<String>)
    ensures
        option_view(r) == url_with_segments(href@, text::views(segments@)),
        forall|address: Address| #[trigger]
            address.is_simple() && address.port == ""@ && address.names == text::views(segments@)
                && href@ == address.scheme + "://"@ + address.host + "/"@ ==> option_view(r) == Some(
                address.text(),
            ),
{
    let mut url = url::Url::parse(href).ok()?;
    url.path_segments_mut().ok()?.extend(segments);
    Some(url.into())
}

/// `form_urlencoded::Serializer::extend_pairs` on the query of the URL that `href` is; `None` where
/// it is none. The result is named.
#[verifier::external_body]
pub(crate) fn with_pairs(href: &str, pairs: &Vec<(String, String)>) -> (r: Option<String>)
    ensures
        option_view(r) == url_with_pairs(href@, pair_views(pairs@)),
{
    let mut url = url::Url::parse(href).ok()?;
    url.query_pairs_mut().extend_pairs(pairs);
    Some(url.into())
}

/// `form_urlencoded::Serializer::extend_pairs` on an empty string. The result is named.
#[verifier::external_body]
pub(crate) fn form_encode(pairs: &Vec<(String, String)>) -> (r: String)
    ensures
        r@ == form_encoded(pair_views(pairs@)),
{
    url::form_urlencoded::Serializer::new(String::new()).extend_pairs(pairs).finish()
}

/// The segments of a path that starts with a slash: the pieces between its slashes.
pub open spec fn segments_of(path: Seq<char>) -> Option<Seq<Seq<char>>> {
    if path.len() > 0 && path[0] == '/' {
        Some(text::split(path.skip(1), '/'))
    } else {
        None
    }
}

/// The segments of a path that starts with a slash.
pub fn path_segments(path: &str) -> (r: Option<Vec<String>>)
    ensures
        match r {
            Some(segments) => segments_of(path@) == Some(text::views(segments@)) && segments@.len() > 0,
            None => segments_of(path@) is None,
        },
{
    let chars = text::chars_of(path);
    if chars.len() > 0 && chars[0] == '/' {
        let rest = text::part(&chars, 1, chars.len());
        proof {
            assert(rest@ == path@.skip(1));
        }
        Some(text::split_at_char(&rest, '/'))
    } else {
        None
    }
}

impl UrlParts {
    /// A copy of the parts.
    pub fn duplicate(&self) -> (r: UrlParts)
        ensures
            r@ == self@,
    {
        let host = match &self.host {
            Some(h) => Some(h.clone()),
            None => None,
        };
        let query = match &self.query {
            Some(q) => Some(q.clone()),
            None => None,
        };
        UrlParts {
            href: self.href.clone(),
            scheme: self.scheme.clone(),
            host,
            path: self.path.clone(),
            query,
            pairs: clone_pairs(&self.pairs),
        }
    }
}

/// A copy of a list of pairs.
pub fn clone_pairs(v: &Vec<(String, String)>) -> (r: Vec<(String, String)>)
    ensures
        pair_views(r@) == pair_views(v@),
{
    let mut r: Vec<(String, String)> = Vec::new();
    let mut i: usize = 0;
    while i < v.len()
        invariant
            i <= v@.len(),
            pair_views(r@) == pair_views(v@).take(i as int),
        decreases v@.len() - i,
    {
        let ghost before = pair_views(r@);
        r.push((v[i].0.clone(), v[i].1.clone()));
        i += 1;
        proof {
            assert(pair_views(r@) == before.push(pair_views(v@)[i - 1]));
            assert(pair_views(v@).take(i as int) == pair_views(v@).take(i - 1).push(pair_views(v@)[i - 1]));
        }
    }
    proof {
        assert(pair_views(v@).take(v@.len() as int) == pair_views(v@));
    }
    r
}

} // verus!

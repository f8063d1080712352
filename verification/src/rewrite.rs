//! Turning the references of archived documents into links between the files of the saved site.
use crate::css_refs;
use crate::download_refs;
use crate::html;
use crate::link_validation;
use crate::maps::TextMap;
use crate::noise;
use crate::order;
use crate::path;
use crate::pathmap;
use crate::scan;
use crate::text;
use crate::urls;
use css_refs::{CssReference, CssReferenceView};
use html::{EditKind, HtmlEdit, HtmlNode, NodeKind};
use path::LocalPath;
use pathmap::SiteMapper;
use urls::{UrlError, UrlParts};
use vstd::prelude::*;

verus! {

/// The document whose references are rewritten, and what is known of the site.
#[derive(Clone)]
pub struct RewriteContext<'a> {
    current_original: UrlParts,
    current_local_path: LocalPath,
    known_paths: &'a TextMap<LocalPath>,
    mapper: Option<&'a SiteMapper>,
}

/// The mathematical form of a context.
#[verifier::ext_equal]
pub struct ContextView {
    pub original: urls::UrlView,
    pub local: path::PathView,
    pub known: Map<Seq<char>, path::PathView>,
    pub mapper: Option<pathmap::MapperView>,
}

impl<'a> View for RewriteContext<'a> {
    type V = ContextView;

    closed spec fn view(&self) -> ContextView {
        ContextView {
            original: self.current_original@,
            local: self.current_local_path@,
            known: self.known_paths@,
            mapper: match self.mapper {
                Some(mapper) => Some(mapper@),
                None => None,
            },
        }
    }
}

/// What becomes of a reference.
#[derive(Debug, Clone, PartialEq, Eq)]
pub enum UrlRewrite {
    /// It leads to a file of the saved site by this link.
    Rewrite(String),
    /// It leads to nothing worth keeping.
    Suppress,
}

/// The mathematical form of what becomes of a reference.
#[verifier::ext_equal]
pub enum RewriteView {
    Rewrite(Seq<char>),
    Suppress,
}

impl View for UrlRewrite {
    type V = RewriteView;

    open spec fn view(&self) -> RewriteView {
        match self {
            UrlRewrite::Rewrite(link) => RewriteView::Rewrite(link@),
            UrlRewrite::Suppress => RewriteView::Suppress,
        }
    }
}

/// Whether a reference leads to a page or to something that a page shows.
#[derive(Debug, Clone, Copy, PartialEq, Eq, Structural)]
pub enum ReferenceKind {
    Document,
    Resource,
}

/// A host as it is compared.
pub open spec fn comparable_host(host: Seq<char>) -> Seq<char> {
    let bare = text::trim_end_char(host, '.');
    if text::starts_with(bare, "www."@) {
        bare.skip("www."@.len() as int)
    } else {
        bare
    }
}

/// Whether two hosts serve the same site.
pub open spec fn same_site(left: Seq<char>, right: Seq<char>) -> bool {
    text::same_ignoring_case(comparable_host(left), comparable_host(right))
}

/// The names of the local path of a URL that is not known to have been captured.
pub open spec fn uncaptured_names(url_path: Seq<char>, kind: ReferenceKind) -> Seq<Seq<char>> {
    let names = pathmap::path_names(url_path);
    if names.len() == 0 || text::ends_with(url_path, "/"@) {
        names.push("index.html"@)
    } else {
        match (kind, text::after_last_dot(names.last())) {
            (ReferenceKind::Resource, _) => names,
            (ReferenceKind::Document, None) => names.push("index.html"@),
            (ReferenceKind::Document, Some(e)) => if pathmap::html_extension(e) {
                names
            } else {
                names.drop_last().push(names.last() + ".html"@)
            },
        }
    }
}

impl ContextView {
    /// The URL that a reference leads to.
    pub open spec fn lookup(self, value: Seq<char>) -> Option<urls::UrlView> {
        match urls::url_join(self.original.href, pathmap::unwrapped_path(value)) {
            Some(url) => match urls::url_without_fragment(url.href) {
                Some(href) => Some(urls::UrlView { href, ..url }),
                None => None,
            },
            None => None,
        }
    }

    /// Whether a URL is one of the document's own site.
    pub open spec fn is_own(self, url: urls::UrlView) -> bool {
        match (self.original.host, url.host) {
            (Some(left), Some(right)) => same_site(left, right),
            _ => false,
        }
    }

    /// Where a URL of the own site would be kept.
    pub open spec fn own_path(self, url: urls::UrlView, kind: ReferenceKind) -> Option<
        path::PathView,
    > {
        if self.is_own(url) {
            let whole = pathmap::queried_path(uncaptured_names(url.path, kind), url);
            Some(path::PathView { parts: pathmap::kept_apart(whole.parts), ..whole })
        } else {
            None
        }
    }

    /// Where a file of a related host would be kept.
    pub open spec fn related_path(self, url: urls::UrlView) -> Option<path::PathView> {
        match (self.mapper, url.host, urls::url_parse(url.href)) {
            (Some(mapper), Some(host), Ok(parsed)) => if mapper.is_related(host) {
                Some(pathmap::local_path(mapper, parsed, "application/octet-stream"@))
            } else {
                None
            },
            _ => None,
        }
    }

    /// What becomes of a URL: the file that it leads to, or nothing worth keeping; none where it
    /// stays as it is.
    pub open spec fn target(self, url: urls::UrlView, kind: ReferenceKind) -> Option<
        Option<path::PathView>,
    > {
        let key = pathmap::lookup_key(url.href);
        let kept = if download_refs::extra_file(url) && url.host is Some && self.original.host is Some
            && !self.is_own(url) {
            self.related_path(url)
        } else {
            self.own_path(url, kind)
        };
        if self.known.contains_key(key) {
            Some(Some(self.known[key]))
        } else if noise::noise_reference(url.href) {
            Some(None)
        } else if download_refs::downloadable_file(url) {
            Some(self.related_path(url))
        } else {
            match kept {
                Some(p) => Some(Some(p)),
                None => None,
            }
        }
    }

    /// What becomes of a reference; none where it stays as it is.
    pub open spec fn rewrite(self, value: Seq<char>, kind: ReferenceKind) -> Option<RewriteView> {
        let t = text::trim(value);
        let bare = scan::before_char(t, '#');
        if t.len() == 0 || scan::is_skipped(t) {
            None
        } else {
            match self.lookup(bare) {
                Some(url) => match self.target(url, kind) {
                    Some(Some(p)) => Some(
                        RewriteView::Rewrite(
                            path::relative_link_of(self.local, p) + t.skip(bare.len() as int),
                        ),
                    ),
                    Some(None) => Some(RewriteView::Suppress),
                    None => None,
                },
                None => None,
            }
        }
    }
}

/// A host as it is compared.
fn comparable(host: &str) -> (r: Vec<char>)
    ensures
        r@ == comparable_host(host@),
{
    let bare = text::trim_end_chars(&text::chars_of(host), '.');
    let www = text::chars_of("www.");
    if text::is_at(&bare, &www, 0) {
        proof {
            assert(bare@.subrange(www@.len() as int, bare@.len() as int) == bare@.skip(
                www@.len() as int,
            ));
        }
        text::part(&bare, www.len(), bare.len())
    } else {
        bare
    }
}

/// Whether two hosts serve the same site.
pub fn hosts_are_same_site(left: &str, right: &str) -> (r: bool)
    ensures
        r == same_site(left@, right@),
{
    text::equal(&text::lower_chars(&comparable(left)), &text::lower_chars(&comparable(right)))
}

/// The names of the local path of a URL that is not known to have been captured.
pub fn path_names_without_capture(url_path: &str, kind: ReferenceKind) -> (r: Vec<String>)
    ensures
        text::views(r@) == uncaptured_names(url_path@, kind),
{
    let mut names = pathmap::sanitized_path_names(url_path);
    let ghost all = text::views(names@);
    let n: usize = names.len();
    proof {
        assert(all.len() == names@.len());
    }
    if n == 0 || text::has_suffix(url_path, "/") {
        names.push("index.html".to_owned());
        proof {
            assert(text::views(names@) == all.push("index.html"@));
        }
        return names;
    }
    if kind == ReferenceKind::Resource {
        return names;
    }
    let last = names[n - 1].clone();
    proof {
        assert(all.last() == last@);
    }
    match text::lower_extension(last.as_str()) {
        None => {
            names.push("index.html".to_owned());
            proof {
                assert(text::views(names@) == all.push("index.html"@));
            }
        },
        Some(e) => {
            proof {
                assert(text::lower(e@) == e@);
            }
            if !pathmap::is_html_extension(text::string_of(&e).as_str()) {
                let longer = text::concat(last.as_str(), ".html");
                names.pop();
                names.push(longer);
                proof {
                    assert(text::views(names@) == all.drop_last().push(longer@));
                }
            }
        },
    }
    names
}

impl<'a> RewriteContext<'a> {
    /// The context of a document that was captured from a URL and is kept in a file.
    pub fn new(
        current_original: &str,
        current_local_path: LocalPath,
        known_paths: &'a TextMap<LocalPath>,
    ) -> (r: Result<RewriteContext<'a>, UrlError>)
        ensures
            match r {
                Ok(context) => urls::url_parse(current_original@) matches Ok(url) && context@ == (
                ContextView {
                    original: url,
                    local: current_local_path@,
                    known: known_paths@,
                    mapper: None,
                }),
                Err(e) => urls::url_parse(current_original@) == Err::<urls::UrlView, UrlError>(e),
            },
    {
        match urls::parse_url(current_original) {
            Ok(url) => Ok(
                RewriteContext {
                    current_original: url,
                    current_local_path,
                    known_paths,
                    mapper: None,
                },
            ),
            Err(e) => Err(e),
        }
    }

    /// The context of a document of a site that may have related hosts.
    pub fn new_with_mapper(
        current_original: &str,
        current_local_path: LocalPath,
        known_paths: &'a TextMap<LocalPath>,
        mapper: &'a SiteMapper,
    ) -> (r: Result<RewriteContext<'a>, UrlError>)
        ensures
            match r {
                Ok(context) => urls::url_parse(current_original@) matches Ok(url) && context@ == (
                ContextView {
                    original: url,
                    local: current_local_path@,
                    known: known_paths@,
                    mapper: Some(mapper@),
                }),
                Err(e) => urls::url_parse(current_original@) == Err::<urls::UrlView, UrlError>(e),
            },
    {
        match urls::parse_url(current_original) {
            Ok(url) => Ok(
                RewriteContext {
                    current_original: url,
                    current_local_path,
                    known_paths,
                    mapper: Some(mapper),
                },
            ),
            Err(e) => Err(e),
        }
    }

    /// The URL that a reference leads to.
    fn look_up(&self, value: &str) -> (r: Option<UrlParts>)
        ensures
            match r {
                Some(url) => self@.lookup(value@) == Some(url@),
                None => self@.lookup(value@) is None,
            },
    {
        let unwrapped = pathmap::unwrap_wayback_path(value);
        match urls::join_url(self.current_original.href.as_str(), unwrapped.as_str()) {
            Some(url) => match urls::without_fragment(url.href.as_str()) {
                Some(href) => {
                    let mut bare = url;
                    bare.href = href;
                    Some(bare)
                },
                None => None,
            },
            None => None,
        }
    }

    /// Whether a URL is one of the document's own site.
    fn is_own(&self, url: &UrlParts) -> (r: bool)
        ensures
            r == self@.is_own(url@),
    {
        match (&self.current_original.host, &url.host) {
            (Some(left), Some(right)) => hosts_are_same_site(left.as_str(), right.as_str()),
            _ => false,
        }
    }

    /// Where a URL of the own site would be kept.
    pub fn fallback_same_site_path(&self, url: &UrlParts, kind: ReferenceKind) -> (r: Option<
        LocalPath,
    >)
        ensures
            match r {
                Some(p) => self@.own_path(url@, kind) == Some(p@),
                None => self@.own_path(url@, kind) is None,
            },
    {
        if !self.is_own(url) {
            return None;
        }
        let plain = LocalPath {
            absolute: false,
            parts: path_names_without_capture(url.path.as_str(), kind),
        };
        let mut whole = match pathmap::canonical_query_without_volatile_params(url) {
            Some(query) => pathmap::append_query_hash(&plain, query.as_str()),
            None => plain,
        };
        pathmap::keep_apart(&mut whole);
        Some(whole)
    }

    /// Where a file of a related host would be kept.
    fn downloadable_fallback_path(&self, url: &UrlParts) -> (r: Option<LocalPath>)
        ensures
            match r {
                Some(p) => self@.related_path(url@) == Some(p@),
                None => self@.related_path(url@) is None,
            },
    {
        match (self.mapper, &url.host) {
            (Some(mapper), Some(host)) => if mapper.is_related_host(host.as_str()) {
                match mapper.local_path_for_url(url.href.as_str(), "application/octet-stream") {
                    Ok(p) => Some(p),
                    Err(_) => None,
                }
            } else {
                None
            },
            _ => None,
        }
    }

    /// What becomes of a reference of a kind; none where it stays as it is.
    pub fn rewrite_url_reference_as(&self, value: &str, kind: ReferenceKind) -> (r: Option<
        UrlRewrite,
    >)
        ensures
            match r {
                Some(rewrite) => self@.rewrite(value@, kind) == Some(rewrite@),
                None => self@.rewrite(value@, kind) is None,
            },
    {
        let trimmed = text::trimmed(value);
        if trimmed.as_str().is_empty() || scan::should_skip_reference(trimmed.as_str()) {
            return None;
        }
        let t = text::chars_of(trimmed.as_str());
        let bare = scan::cut_before(&t, '#');
        let url = match self.look_up(text::string_of(&bare).as_str()) {
            Some(url) => url,
            None => {
                return None;
            },
        };
        let key = pathmap::normalize_lookup_url(url.href.as_str());
        let local = if let Some(known) = self.known_paths.get(key.as_str()) {
            known.duplicate()
        } else if noise::is_archive_noise_reference(url.href.as_str()) {
            return Some(UrlRewrite::Suppress);
        } else if download_refs::is_downloadable_file_url(&url) {
            match self.downloadable_fallback_path(&url) {
                Some(p) => p,
                None => {
                    return Some(UrlRewrite::Suppress);
                },
            }
        } else {
            let elsewhere = download_refs::is_extra_file_url(&url) && url.host.is_some()
                && self.current_original.host.is_some() && !self.is_own(&url);
            let kept = if elsewhere {
                self.downloadable_fallback_path(&url)
            } else {
                self.fallback_same_site_path(&url, kind)
            };
            match kept {
                Some(p) => p,
                None => {
                    return None;
                },
            }
        };
        let mut link = text::chars_of(
            pathmap::relative_link(&self.current_local_path, &local).as_str(),
        );
        proof {
            text::lemma_index_of(t@, '#', 0);
            assert(t@.subrange(bare@.len() as int, t@.len() as int) == t@.skip(bare@.len() as int));
        }
        text::push_chars(&mut link, &text::part(&t, bare.len(), t.len()));
        Some(UrlRewrite::Rewrite(text::string_of(&link)))
    }

    /// What becomes of a reference to something that a page shows; none where it stays as it is.
    pub fn rewrite_url_reference(&self, value: &str) -> (r: Option<UrlRewrite>)
        ensures
            match r {
                Some(rewrite) => self@.rewrite(value@, ReferenceKind::Resource) == Some(rewrite@),
                None => self@.rewrite(value@, ReferenceKind::Resource) is None,
            },
    {
        self.rewrite_url_reference_as(value, ReferenceKind::Resource)
    }
}

/// The quote around a value in a `url(` function, if there is one, and the value.
pub open spec fn quoted_url(raw: Seq<char>) -> (Option<char>, Seq<char>) {
    let t = text::trim(raw);
    if t.len() >= 2 && scan::is_quote(t[0]) && t.last() == t[0] {
        (Some(t[0]), t.subrange(1, t.len() - 1))
    } else {
        (None, t)
    }
}

/// What takes the place of a value in a `url(` function.
pub open spec fn css_replacement(context: ContextView, raw: Seq<char>) -> Option<Seq<char>> {
    let (quote, value) = quoted_url(raw);
    match context.rewrite(value, ReferenceKind::Resource) {
        Some(RewriteView::Rewrite(link)) => match quote {
            Some(q) => Some(seq![q] + link + seq![q]),
            None => Some(link),
        },
        Some(RewriteView::Suppress) => Some("\"\""@),
        None => None,
    }
}

/// The value of a `style` attribute with its URLs rewritten.
pub open spec fn rewritten_style(context: ContextView, s: Seq<char>) -> Seq<char> {
    let spans = scan::url_spans(s, s, 0);
    scan::splice(
        s,
        spans,
        Seq::new(
            spans.len(),
            |i: int| css_replacement(context, s.subrange(spans[i].0, spans[i].1)),
        ),
    )
}

/// The quote around a value in a `url(` function, if there is one, and the value.
fn split_css_url(raw: &[char]) -> (r: (Option<char>, String))
    ensures
        (r.0, r.1@) == quoted_url(raw@),
{
    let t = text::trim_chars(raw);
    let n: usize = t.len();
    if n >= 2 && (t[0] == '\'' || t[0] == '"') && t[n - 1] == t[0] {
        (Some(t[0]), text::cut_string(&t, 1, n - 1))
    } else {
        (None, text::string_of(&t))
    }
}

/// What takes the place of a value in a `url(` function.
fn replace_css_url(context: &RewriteContext<'_>, raw: &[char]) -> (r: Option<String>)
    ensures
        urls::option_view(r) == css_replacement(context@, raw@),
{
    let (quote, value) = split_css_url(raw);
    match context.rewrite_url_reference(value.as_str()) {
        Some(UrlRewrite::Rewrite(link)) => match quote {
            Some(q) => {
                let mut out: Vec<char> = Vec::new();
                out.push(q);
                text::push_text(&mut out, link.as_str());
                out.push(q);
                proof {
                    assert(out@ == seq![q] + link@ + seq![q]);
                }
                Some(text::string_of(&out))
            },
            None => Some(link),
        },
        Some(UrlRewrite::Suppress) => Some("\"\"".to_owned()),
        None => None,
    }
}

/// Rewrites the URLs in the value of a `style` attribute.
pub fn rewrite_style(input: &str, context: &RewriteContext<'_>) -> (r: String)
    ensures
        r@ == rewritten_style(context@, input@),
{
    let s = text::chars_of(input);
    let spans = scan::find_url_spans(&s, &s);
    let ghost all = scan::span_views(spans@);
    let ghost whole = Seq::new(
        all.len(),
        |i: int| css_replacement(context@, s@.subrange(all[i].0, all[i].1)),
    );
    let mut reps: Vec<Option<String>> = Vec::new();
    let mut i: usize = 0;
    proof {
        assert(scan::option_views(reps@) == whole.take(0));
    }
    while i < spans.len()
        invariant
            i <= spans@.len(),
            all == scan::span_views(spans@),
            scan::in_order(all, s@.len() as int),
            whole == Seq::new(
                all.len(),
                |i: int| css_replacement(context@, s@.subrange(all[i].0, all[i].1)),
            ),
            scan::option_views(reps@) == whole.take(i as int),
        decreases spans@.len() - i,
    {
        let ghost before = scan::option_views(reps@);
        let (a, b): (usize, usize) = spans[i];
        assert(all[i as int] == (a as int, b as int));
        let rep = replace_css_url(context, &text::part(&s, a, b));
        reps.push(rep);
        i += 1;
        proof {
            assert(scan::option_views(reps@) == before.push(urls::option_view(rep)));
            assert(whole.take(i as int) == whole.take(i - 1).push(whole[i - 1]));
        }
    }
    proof {
        assert(whole.take(spans@.len() as int) == whole);
        assert(reps@.len() == scan::option_views(reps@).len());
    }
    text::string_of(&scan::splice_text(&s, &spans, &reps))
}

/// What takes the place of the token of a reference in a style sheet.
pub open spec fn token_replacement(context: ContextView, reference: CssReferenceView) -> Option<
    Seq<char>,
> {
    match context.rewrite(reference.value, ReferenceKind::Resource) {
        Some(RewriteView::Rewrite(link)) => Some(reference.replacement(link)),
        Some(RewriteView::Suppress) => Some(reference.emptied()),
        None => None,
    }
}

/// A style sheet with its references rewritten.
pub open spec fn rewritten_css(context: ContextView, s: Seq<char>) -> Seq<char> {
    let refs = css_refs::css_references(s);
    css_refs::with_tokens(
        s,
        Seq::new(refs.len(), |i: int| token_replacement(context, refs[i])),
    )
}

/// What takes the place of the token of a reference in a style sheet.
fn replace_token(context: &RewriteContext<'_>, reference: &CssReference) -> (r: Option<String>)
    ensures
        urls::option_view(r) == token_replacement(context@, reference@),
{
    match context.rewrite_url_reference(reference.value.as_str()) {
        Some(UrlRewrite::Rewrite(link)) => Some(reference.replacement(link.as_str())),
        Some(UrlRewrite::Suppress) => Some(reference.emptied()),
        None => None,
    }
}

/// Rewrites the references in a style sheet.
pub fn rewrite_css(input: &str, context: &RewriteContext<'_>) -> (r: String)
    ensures
        r@ == rewritten_css(context@, input@),
{
    let refs = css_refs::references(input);
    let ghost all = css_refs::css_references(input@);
    let ghost whole = Seq::new(all.len(), |i: int| token_replacement(context@, all[i]));
    let mut reps: Vec<Option<String>> = Vec::new();
    let mut i: usize = 0;
    proof {
        assert(css_refs::css_reference_views(refs@).len() == refs@.len());
        assert(scan::option_views(reps@) == whole.take(0));
    }
    while i < refs.len()
        invariant
            i <= refs@.len(),
            all == css_refs::css_reference_views(refs@),
            whole == Seq::new(all.len(), |i: int| token_replacement(context@, all[i])),
            scan::option_views(reps@) == whole.take(i as int),
        decreases refs@.len() - i,
    {
        let ghost before = scan::option_views(reps@);
        let rep = replace_token(context, &refs[i]);
        reps.push(rep);
        i += 1;
        proof {
            assert(scan::option_views(reps@) == before.push(urls::option_view(rep)));
            assert(whole.take(i as int) == whole.take(i - 1).push(whole[i - 1]));
        }
    }
    proof {
        assert(whole.take(refs@.len() as int) == whole);
        assert(reps@.len() == scan::option_views(reps@).len());
    }
    css_refs::replace_tokens(input, &refs, &reps)
}

/// Whether a script string looks like a URL.
pub open spec fn looks_like_url(s: Seq<char>) -> bool {
    &&& s.len() > 0
    &&& text::trim(s) == s
    &&& {
        ||| text::starts_with(s, "/"@) && !text::starts_with(s, "//"@)
        ||| text::starts_with(s, "./"@)
        ||| text::starts_with(s, "../"@)
        ||| text::starts_with(s, "http://"@)
        ||| text::starts_with(s, "https://"@)
    }
}

/// Whether a script string looks like a URL.
pub fn looks_like_javascript_url_reference(value: &str) -> (r: bool)
    ensures
        r == looks_like_url(value@),
{
    !value.is_empty() && text::same(text::trimmed(value).as_str(), value) && ((text::has_prefix(
        value,
        "/",
    ) && !text::has_prefix(value, "//")) || text::has_prefix(value, "./") || text::has_prefix(
        value,
        "../",
    ) || text::has_prefix(value, "http://") || text::has_prefix(value, "https://"))
}

/// What takes the place of a text where a reference is not wanted: its link, or nothing.
pub open spec fn link_or_nothing(rewrite: RewriteView) -> Seq<char> {
    match rewrite {
        RewriteView::Rewrite(link) => link,
        RewriteView::Suppress => Seq::empty(),
    }
}

/// The link of a rewritten reference, or nothing.
fn url_rewrite_to_string(rewrite: UrlRewrite) -> (r: String)
    ensures
        r@ == link_or_nothing(rewrite@),
{
    match rewrite {
        UrlRewrite::Rewrite(link) => link,
        UrlRewrite::Suppress => String::new(),
    }
}

/// A word of a text with its place taken by what becomes of it as a reference.
pub open spec fn rewritten_between(
    context: ContextView,
    s: Seq<char>,
    from: int,
    to: int,
    kind: ReferenceKind,
) -> Seq<char> {
    match context.rewrite(s.subrange(from, to), kind) {
        Some(rewrite) => s.take(from) + link_or_nothing(rewrite) + s.skip(to),
        None => s,
    }
}

/// A candidate of a `srcset` value with its reference rewritten.
pub open spec fn rewritten_candidate(context: ContextView, s: Seq<char>) -> Seq<char> {
    let from = scan::skip_white(s, 0);
    rewritten_between(context, s, from, text::word_end(s, from), ReferenceKind::Resource)
}

/// An item of a list of archives with its reference rewritten.
pub open spec fn rewritten_archive(context: ContextView, s: Seq<char>) -> Seq<char> {
    let from = scan::skip_white(s, 0);
    let t = text::trim(s);
    if link_validation::looks_like_reference(t) {
        rewritten_between(context, s, from, from + t.len(), ReferenceKind::Resource)
    } else {
        s
    }
}

/// A `srcset` value with its references rewritten.
pub open spec fn rewritten_srcset(context: ContextView, s: Seq<char>) -> Seq<char> {
    let candidates = text::split(s, ',');
    text::join(
        Seq::new(candidates.len(), |i: int| rewritten_candidate(context, candidates[i])),
        ","@,
    )
}

/// A list of archives with its references rewritten.
pub open spec fn rewritten_archives(context: ContextView, s: Seq<char>) -> Seq<char> {
    let items = text::split(s, ',');
    text::join(Seq::new(items.len(), |i: int| rewritten_archive(context, items[i])), ","@)
}

/// An edit that gives an attribute a value, unless it has it.
pub open spec fn setting(n: html::NodeView, name: Seq<char>, old_value: Seq<char>, value: Seq<char>) -> Seq<
    html::EditView,
> {
    if value == old_value {
        Seq::empty()
    } else {
        seq![html::EditView { kind: EditKind::SetAttribute, at: n.at, name, value }]
    }
}

/// Whether an element goes with its reference.
pub open spec fn goes_with_reference(tag: Seq<char>) -> bool {
    ||| tag == "audio"@
    ||| tag == "embed"@
    ||| tag == "frame"@
    ||| tag == "iframe"@
    ||| tag == "img"@
    ||| tag == "link"@
    ||| tag == "object"@
    ||| tag == "script"@
    ||| tag == "source"@
    ||| tag == "track"@
    ||| tag == "video"@
}

/// The edit that takes a reference away, with its element where that shows nothing else.
pub open spec fn suppression(n: html::NodeView, name: Seq<char>) -> html::EditView {
    if goes_with_reference(n.tag) {
        html::EditView {
            kind: EditKind::RemoveElement,
            at: n.at,
            name: Seq::empty(),
            value: Seq::empty(),
        }
    } else {
        html::EditView { kind: EditKind::RemoveAttribute, at: n.at, name, value: Seq::empty() }
    }
}

/// The edit of an attribute that is a reference.
pub open spec fn reference_edits(
    context: ContextView,
    n: html::NodeView,
    name: Seq<char>,
    value: Seq<char>,
    kind: ReferenceKind,
) -> Seq<html::EditView> {
    match context.rewrite(value, kind) {
        Some(RewriteView::Rewrite(link)) => seq![
            html::EditView { kind: EditKind::SetAttribute, at: n.at, name, value: link },
        ],
        Some(RewriteView::Suppress) => seq![suppression(n, name)],
        None => Seq::empty(),
    }
}

/// The edit of an attribute that is a reference.
pub open spec fn url_edits(
    context: ContextView,
    n: html::NodeView,
    name: Seq<char>,
    kind: ReferenceKind,
) -> Seq<html::EditView> {
    match html::attribute(n.attributes, name) {
        Some(value) => reference_edits(context, n, name, value, kind),
        None => Seq::empty(),
    }
}

/// The edit of an attribute that is a reference, for elements with a name.
pub open spec fn tagged_edits(
    context: ContextView,
    n: html::NodeView,
    tag: Seq<char>,
    name: Seq<char>,
    kind: ReferenceKind,
) -> Seq<html::EditView> {
    if n.tag == tag {
        url_edits(context, n, name, kind)
    } else {
        Seq::empty()
    }
}

/// The edit of an attribute that may be a reference, for elements with a name.
pub open spec fn guarded_edits(
    context: ContextView,
    n: html::NodeView,
    tag: Seq<char>,
    name: Seq<char>,
    kind: ReferenceKind,
) -> Seq<html::EditView> {
    match html::attribute(n.attributes, name) {
        Some(value) => if n.tag == tag && link_validation::looks_like_reference(value) {
            reference_edits(context, n, name, value, kind)
        } else {
            Seq::empty()
        },
        None => Seq::empty(),
    }
}

/// The edit of a `srcset` attribute.
pub open spec fn srcset_edits(context: ContextView, n: html::NodeView) -> Seq<html::EditView> {
    match html::attribute(n.attributes, "srcset"@) {
        Some(value) => setting(n, "srcset"@, value, rewritten_srcset(context, value)),
        None => Seq::empty(),
    }
}

/// The edit of the archives of an applet.
pub open spec fn archive_edits(context: ContextView, n: html::NodeView) -> Seq<html::EditView> {
    match html::attribute(n.attributes, "archive"@) {
        Some(value) => if n.tag == "applet"@ {
            setting(n, "archive"@, value, rewritten_archives(context, value))
        } else {
            Seq::empty()
        },
        None => Seq::empty(),
    }
}

/// The edit of a refresh.
pub open spec fn refresh_edits(context: ContextView, n: html::NodeView) -> Seq<html::EditView> {
    match html::attribute(n.attributes, "content"@) {
        Some(value) => match scan::refresh_span(value) {
            Some(span) => if link_validation::is_refresh(n) {
                match context.rewrite(value.subrange(span.0, span.1), ReferenceKind::Document) {
                    Some(RewriteView::Rewrite(link)) => setting(
                        n,
                        "content"@,
                        value,
                        value.take(span.0) + link + value.skip(span.1),
                    ),
                    Some(RewriteView::Suppress) => seq![suppression(n, "content"@)],
                    None => Seq::empty(),
                }
            } else {
                Seq::empty()
            },
            None => Seq::empty(),
        },
        None => Seq::empty(),
    }
}

/// The edit of a `style` attribute.
pub open spec fn style_edits(context: ContextView, n: html::NodeView) -> Seq<html::EditView> {
    match html::attribute(n.attributes, "style"@) {
        Some(value) => setting(n, "style"@, value, rewritten_style(context, value)),
        None => Seq::empty(),
    }
}

/// What takes the place of a script string: the link of a URL, or the markup that it holds with its
/// references rewritten. Strings are shorter than the document that they stand in, which is at most
/// `bound` long.
pub open spec fn string_replacement(context: ContextView, s: Seq<char>, bound: nat) -> Option<
    Seq<char>,
>
    decreases bound, 0int, 0int,
{
    if text::index_of(s, '\\', 0) is None && looks_like_url(s) {
        match context.rewrite(s, ReferenceKind::Resource) {
            Some(rewrite) => Some(link_or_nothing(rewrite)),
            None => None,
        }
    } else if text::index_of(s, '<', 0) is Some && text::index_of(s, '>', 0) is Some && s.len()
        < bound {
        rewritten_html(context, s)
    } else {
        None
    }
}

/// What takes the place of script strings.
pub open spec fn string_replacements(
    context: ContextView,
    strings: Seq<Seq<char>>,
    bound: nat,
) -> Seq<Option<Seq<char>>>
    decreases bound, 1int, strings.len(),
{
    if strings.len() == 0 {
        Seq::empty()
    } else {
        string_replacements(context, strings.drop_last(), bound).push(
            string_replacement(context, strings.last(), bound),
        )
    }
}

/// A script with the references in its strings rewritten.
pub open spec fn rewritten_script(context: ContextView, s: Seq<char>, bound: nat) -> Seq<char>
    decreases bound, 2int, 0int,
{
    let spans = scan::string_spans(s, 0);
    scan::splice(s, spans, string_replacements(context, scan::pieces(s, spans), bound))
}

/// The edit of an attribute that is a script.
pub open spec fn script_edits(
    context: ContextView,
    n: html::NodeView,
    name: Seq<char>,
    bound: nat,
) -> Seq<html::EditView>
    decreases bound, 3int, 0int,
{
    match html::attribute(n.attributes, name) {
        Some(value) => setting(n, name, value, rewritten_script(context, value, bound)),
        None => Seq::empty(),
    }
}

/// The edits of an element.
pub open spec fn element_edits(context: ContextView, n: html::NodeView, bound: nat) -> Seq<
    html::EditView,
>
    decreases bound, 4int, 0int,
{
    Seq::empty()
        + tagged_edits(context, n, "a"@, "href"@, ReferenceKind::Document)
        + tagged_edits(context, n, "area"@, "href"@, ReferenceKind::Document)
        + tagged_edits(context, n, "audio"@, "src"@, ReferenceKind::Resource)
        + tagged_edits(context, n, "embed"@, "src"@, ReferenceKind::Resource)
        + tagged_edits(context, n, "form"@, "action"@, ReferenceKind::Document)
        + tagged_edits(context, n, "frame"@, "src"@, ReferenceKind::Document)
        + tagged_edits(context, n, "iframe"@, "src"@, ReferenceKind::Document)
        + tagged_edits(context, n, "img"@, "src"@, ReferenceKind::Resource)
        + tagged_edits(context, n, "input"@, "src"@, ReferenceKind::Resource)
        + tagged_edits(context, n, "link"@, "href"@, ReferenceKind::Resource)
        + tagged_edits(context, n, "object"@, "data"@, ReferenceKind::Resource)
        + tagged_edits(context, n, "script"@, "src"@, ReferenceKind::Resource)
        + tagged_edits(context, n, "source"@, "src"@, ReferenceKind::Resource)
        + tagged_edits(context, n, "track"@, "src"@, ReferenceKind::Resource)
        + tagged_edits(context, n, "video"@, "poster"@, ReferenceKind::Resource)
        + tagged_edits(context, n, "video"@, "src"@, ReferenceKind::Resource)
        + url_edits(context, n, "background"@, ReferenceKind::Resource)
        + guarded_edits(context, n, "option"@, "value"@, ReferenceKind::Document)
        + guarded_edits(context, n, "param"@, "value"@, ReferenceKind::Resource)
        + guarded_edits(context, n, "object"@, "codebase"@, ReferenceKind::Resource)
        + guarded_edits(context, n, "applet"@, "code"@, ReferenceKind::Resource)
        + srcset_edits(context, n)
        + archive_edits(context, n)
        + refresh_edits(context, n)
        + style_edits(context, n)
        + script_edits(context, n, "onmouseover"@, bound)
        + script_edits(context, n, "onmouseout"@, bound)
}

/// The edits of a node.
pub open spec fn node_edits(context: ContextView, n: html::NodeView, bound: nat) -> Seq<
    html::EditView,
>
    decreases bound, 5int, 0int,
{
    match n.kind {
        NodeKind::Element => element_edits(context, n, bound),
        NodeKind::StyleText => seq![
            html::EditView {
                kind: EditKind::ReplaceText,
                at: n.at,
                name: Seq::empty(),
                value: rewritten_css(context, n.text),
            },
        ],
        NodeKind::ScriptText => seq![
            html::EditView {
                kind: EditKind::ReplaceText,
                at: n.at,
                name: Seq::empty(),
                value: rewritten_script(context, n.text, bound),
            },
        ],
    }
}

/// The edits of nodes, in order.
pub open spec fn document_edits(
    context: ContextView,
    nodes: Seq<html::NodeView>,
    bound: nat,
) -> Seq<html::EditView>
    decreases bound, 6int, nodes.len(),
{
    if nodes.len() == 0 {
        Seq::empty()
    } else {
        document_edits(context, nodes.drop_last(), bound) + node_edits(
            context,
            nodes.last(),
            bound,
        )
    }
}

/// A page with its references rewritten; none where it cannot be read.
pub open spec fn rewritten_html(context: ContextView, s: Seq<char>) -> Option<Seq<char>>
    decreases s.len(), 7int, 0int,
{
    match html::html_nodes(s) {
        Some(nodes) => html::html_edited(s, document_edits(context, nodes, s.len())),
        None => None,
    }
}

/// Whether an element goes with its reference.
fn is_removed_with_reference(tag: &str) -> (r: bool)
    ensures
        r == goes_with_reference(tag@),
{
    let t = text::chars_of(tag);
    text::is(&t, "audio") || text::is(&t, "embed") || text::is(&t, "frame") || text::is(&t, "iframe") || text::is(&t, "img") || text::is(&t, "link") || text::is(&t, "object") || text::is(&t, "script") || text::is(&t, "source") || text::is(&t, "track") || text::is(&t, "video")
}

/// Appends an edit.
fn push_edit(out: &mut Vec<HtmlEdit>, kind: EditKind, at: usize, name: &str, value: String)
    ensures
        html::edit_views(final(out)@) == html::edit_views(old(out)@) + seq![
            html::EditView { kind, at, name: name@, value: value@ },
        ],
{
    let ghost before = html::edit_views(out@);
    let edit = HtmlEdit { kind, at, name: name.to_owned(), value };
    out.push(edit);
    proof {
        assert(html::edit_views(out@) == before + seq![edit@]);
    }
}

/// Takes a reference away, with its element where that shows nothing else.
fn suppress_attr_url(out: &mut Vec<HtmlEdit>, node: &HtmlNode, name: &str)
    ensures
        html::edit_views(final(out)@) == html::edit_views(old(out)@) + seq![
            suppression(node@, name@),
        ],
{
    let empty = String::new();
    proof {
        reveal_strlit("");
        assert(empty@ == Seq::<char>::empty());
        assert(""@ == Seq::<char>::empty());
    }
    if is_removed_with_reference(node.tag.as_str()) {
        push_edit(out, EditKind::RemoveElement, node.at, "", empty);
    } else {
        push_edit(out, EditKind::RemoveAttribute, node.at, name, empty);
    }
}

/// Gives an attribute a value, unless it has it.
fn push_setting(out: &mut Vec<HtmlEdit>, node: &HtmlNode, name: &str, old_value: &str, value: String)
    ensures
        html::edit_views(final(out)@) == html::edit_views(old(out)@) + setting(
            node@,
            name@,
            old_value@,
            value@,
        ),
{
    if text::same(value.as_str(), old_value) {
        proof {
            assert(html::edit_views(out@) + Seq::<html::EditView>::empty() == html::edit_views(
                out@,
            ));
        }
    } else {
        push_edit(out, EditKind::SetAttribute, node.at, name, value);
    }
}

/// Rewrites an attribute that is a reference.
fn push_reference(
    out: &mut Vec<HtmlEdit>,
    context: &RewriteContext<'_>,
    node: &HtmlNode,
    name: &str,
    value: &str,
    kind: ReferenceKind,
)
    ensures
        html::edit_views(final(out)@) == html::edit_views(old(out)@) + reference_edits(
            context@,
            node@,
            name@,
            value@,
            kind,
        ),
{
    match context.rewrite_url_reference_as(value, kind) {
        Some(UrlRewrite::Rewrite(link)) => push_edit(
            out,
            EditKind::SetAttribute,
            node.at,
            name,
            link,
        ),
        Some(UrlRewrite::Suppress) => suppress_attr_url(out, node, name),
        None => {
            proof {
                assert(html::edit_views(out@) + Seq::<html::EditView>::empty() == html::edit_views(
                    out@,
                ));
            }
        },
    }
}

/// Rewrites an attribute that is a reference.
fn push_url(
    out: &mut Vec<HtmlEdit>,
    context: &RewriteContext<'_>,
    node: &HtmlNode,
    name: &str,
    kind: ReferenceKind,
)
    ensures
        html::edit_views(final(out)@) == html::edit_views(old(out)@) + url_edits(
            context@,
            node@,
            name@,
            kind,
        ),
{
    match node.get_attribute(name) {
        Some(value) => push_reference(out, context, node, name, value.as_str(), kind),
        None => {
            proof {
                assert(html::edit_views(out@) + Seq::<html::EditView>::empty() == html::edit_views(
                    out@,
                ));
            }
        },
    }
}

/// Rewrites an attribute that is a reference, for elements with a name.
fn push_tagged(
    out: &mut Vec<HtmlEdit>,
    context: &RewriteContext<'_>,
    node: &HtmlNode,
    tag: &str,
    name: &str,
    kind: ReferenceKind,
)
    ensures
        html::edit_views(final(out)@) == html::edit_views(old(out)@) + tagged_edits(
            context@,
            node@,
            tag@,
            name@,
            kind,
        ),
{
    if text::same(node.tag.as_str(), tag) {
        push_url(out, context, node, name, kind);
    } else {
        proof {
            assert(html::edit_views(out@) + Seq::<html::EditView>::empty() == html::edit_views(
                out@,
            ));
        }
    }
}

/// Rewrites an attribute that may be a reference, for elements with a name.
fn push_guarded(
    out: &mut Vec<HtmlEdit>,
    context: &RewriteContext<'_>,
    node: &HtmlNode,
    tag: &str,
    name: &str,
    kind: ReferenceKind,
)
    ensures
        html::edit_views(final(out)@) == html::edit_views(old(out)@) + guarded_edits(
            context@,
            node@,
            tag@,
            name@,
            kind,
        ),
{
    proof {
        assert(html::edit_views(out@) + Seq::<html::EditView>::empty() == html::edit_views(out@));
    }
    if let Some(value) = node.get_attribute(name) {
        if text::same(node.tag.as_str(), tag) && link_validation::looks_like_url_reference_or_file(
            value.as_str(),
        ) {
            push_reference(out, context, node, name, value.as_str(), kind);
        }
    }
}

/// A word of a text with its place taken by what becomes of it as a reference.
fn rewrite_between(
    context: &RewriteContext<'_>,
    s: &[char],
    from: usize,
    to: usize,
    kind: ReferenceKind,
) -> (r: Vec<char>)
    requires
        from <= to <= s@.len(),
    ensures
        r@ == rewritten_between(context@, s@, from as int, to as int, kind),
{
    match context.rewrite_url_reference_as(text::cut_string(s, from, to).as_str(), kind) {
        Some(rewrite) => {
            let mut out = text::part(s, 0, from);
            text::push_text(&mut out, url_rewrite_to_string(rewrite).as_str());
            text::push_chars(&mut out, &text::part(s, to, s.len()));
            proof {
                assert(s@.subrange(0, from as int) == s@.take(from as int));
                assert(s@.subrange(to as int, s@.len() as int) == s@.skip(to as int));
            }
            out
        },
        None => {
            proof {
                assert(s@.subrange(0, s@.len() as int) == s@);
            }
            text::part(s, 0, s.len())
        },
    }
}

/// The first position that holds no white space.
fn first_visible(s: &[char]) -> (r: usize)
    ensures
        r == scan::skip_white(s@, 0),
        r <= s@.len(),
{
    let mut i: usize = 0;
    while i < s.len() && s[i].is_whitespace()
        invariant
            i <= s@.len(),
            scan::skip_white(s@, 0) == scan::skip_white(s@, i as int),
        decreases s@.len() - i,
    {
        i += 1;
    }
    i
}

/// A candidate of a `srcset` value with its reference rewritten.
fn rewrite_candidate(context: &RewriteContext<'_>, candidate: &str) -> (r: String)
    ensures
        r@ == rewritten_candidate(context@, candidate@),
{
    let s = text::chars_of(candidate);
    let from = first_visible(&s);
    let mut to: usize = from;
    while to < s.len() && !s[to].is_whitespace()
        invariant
            from <= to <= s@.len(),
            text::word_end(s@, from as int) == text::word_end(s@, to as int),
        decreases s@.len() - to,
    {
        to += 1;
    }
    text::string_of(&rewrite_between(context, &s, from, to, ReferenceKind::Resource))
}

/// White space before a text is not part of what is left when it is trimmed.
proof fn lemma_trim_fits(s: Seq<char>)
    ensures
        scan::skip_white(s, 0) + text::trim(s).len() <= s.len(),
{
    assert(s.skip(0) == s);
    lemma_trim_start_fits(s, 0);
    lemma_trim_end_fits(text::trim_start_by(s, text::white()));
}

/// Skipping white space leaves what trimming the start leaves.
proof fn lemma_trim_start_fits(s: Seq<char>, from: int)
    requires
        0 <= from <= s.len(),
    ensures
        scan::skip_white(s, from) + text::trim_start_by(
            s.skip(from),
            text::white(),
        ).len() == s.len(),
    decreases s.len() - from,
{
    if from < s.len() {
        assert(s.skip(from)[0] == s[from]);
        if text::is_white(s[from]) {
            lemma_trim_start_fits(s, from + 1);
            assert(s.skip(from).drop_first() == s.skip(from + 1));
        }
    }
}

/// Trimming the end leaves nothing longer.
proof fn lemma_trim_end_fits(s: Seq<char>)
    ensures
        text::trim_end_by(s, text::white()).len() <= s.len(),
    decreases s.len(),
{
    if s.len() > 0 {
        lemma_trim_end_fits(s.drop_last());
    }
}

/// An item of a list of archives with its reference rewritten.
fn rewrite_archive(context: &RewriteContext<'_>, item: &str) -> (r: String)
    ensures
        r@ == rewritten_archive(context@, item@),
{
    let t = text::trimmed(item);
    if !link_validation::looks_like_url_reference_or_file(t.as_str()) {
        return item.to_owned();
    }
    let s = text::chars_of(item);
    let whole: usize = s.len();
    let size: usize = text::chars_of(t.as_str()).len();
    let from = first_visible(&s);
    proof {
        lemma_trim_fits(s@);
        assert(from + size <= whole);
    }
    text::string_of(&rewrite_between(context, &s, from, from + size, ReferenceKind::Resource))
}

/// A `srcset` value, or a list of archives, with its references rewritten.
fn rewrite_list(context: &RewriteContext<'_>, value: &str, archives: bool) -> (r: String)
    ensures
        r@ == (if archives {
            rewritten_archives(context@, value@)
        } else {
            rewritten_srcset(context@, value@)
        }),
{
    let items = text::split_at_char(&text::chars_of(value), ',');
    let ghost all = text::views(items@);
    let ghost whole = Seq::new(
        all.len(),
        |i: int|
            if archives {
                rewritten_archive(context@, all[i])
            } else {
                rewritten_candidate(context@, all[i])
            },
    );
    let mut out: Vec<String> = Vec::new();
    let mut i: usize = 0;
    proof {
        assert(text::views(out@) == whole.take(0));
    }
    while i < items.len()
        invariant
            i <= items@.len(),
            all == text::views(items@),
            whole == Seq::new(
                all.len(),
                |i: int|
                    if archives {
                        rewritten_archive(context@, all[i])
                    } else {
                        rewritten_candidate(context@, all[i])
                    },
            ),
            text::views(out@) == whole.take(i as int),
        decreases items@.len() - i,
    {
        let ghost before = text::views(out@);
        let item = if archives {
            rewrite_archive(context, items[i].as_str())
        } else {
            rewrite_candidate(context, items[i].as_str())
        };
        out.push(item);
        i += 1;
        proof {
            assert(all[i - 1] == items@[i - 1]@);
            assert(text::views(out@) == before.push(item@));
            assert(whole.take(i as int) == whole.take(i - 1).push(whole[i - 1]));
        }
    }
    proof {
        assert(whole.take(items@.len() as int) == whole);
        if archives {
            assert(whole == Seq::new(all.len(), |i: int| rewritten_archive(context@, all[i])));
        } else {
            assert(whole == Seq::new(all.len(), |i: int| rewritten_candidate(context@, all[i])));
        }
    }
    text::join_strings(&out, ",")
}

/// Rewrites a `srcset` attribute.
fn push_srcset(out: &mut Vec<HtmlEdit>, context: &RewriteContext<'_>, node: &HtmlNode)
    ensures
        html::edit_views(final(out)@) == html::edit_views(old(out)@) + srcset_edits(context@, node@),
{
    match node.get_attribute("srcset") {
        Some(value) => {
            let changed = rewrite_list(context, value.as_str(), false);
            push_setting(out, node, "srcset", value.as_str(), changed);
        },
        None => {
            proof {
                assert(html::edit_views(out@) + Seq::<html::EditView>::empty() == html::edit_views(
                    out@,
                ));
            }
        },
    }
}

/// Rewrites the archives of an applet.
fn push_archives(out: &mut Vec<HtmlEdit>, context: &RewriteContext<'_>, node: &HtmlNode)
    ensures
        html::edit_views(final(out)@) == html::edit_views(old(out)@) + archive_edits(
            context@,
            node@,
        ),
{
    proof {
        assert(html::edit_views(out@) + Seq::<html::EditView>::empty() == html::edit_views(out@));
    }
    if let Some(value) = node.get_attribute("archive") {
        if text::same(node.tag.as_str(), "applet") {
            let changed = rewrite_list(context, value.as_str(), true);
            push_setting(out, node, "archive", value.as_str(), changed);
        }
    }
}

/// Rewrites the target of a refresh.
fn push_refresh(out: &mut Vec<HtmlEdit>, context: &RewriteContext<'_>, node: &HtmlNode)
    ensures
        html::edit_views(final(out)@) == html::edit_views(old(out)@) + refresh_edits(
            context@,
            node@,
        ),
{
    proof {
        assert(html::edit_views(out@) + Seq::<html::EditView>::empty() == html::edit_views(out@));
    }
    if let Some(value) = node.get_attribute("content") {
        let s = text::chars_of(value.as_str());
        if let Some((a, b)) = scan::find_refresh_span(&s) {
            if link_validation::is_refresh_element(node) {
                let target = text::cut_string(&s, a, b);
                match context.rewrite_url_reference_as(target.as_str(), ReferenceKind::Document) {
                    Some(UrlRewrite::Rewrite(link)) => {
                        let mut changed = text::part(&s, 0, a);
                        text::push_text(&mut changed, link.as_str());
                        text::push_chars(&mut changed, &text::part(&s, b, s.len()));
                        proof {
                            assert(s@.subrange(0, a as int) == s@.take(a as int));
                            assert(s@.subrange(b as int, s@.len() as int) == s@.skip(b as int));
                        }
                        push_setting(
                            out,
                            node,
                            "content",
                            value.as_str(),
                            text::string_of(&changed),
                        );
                    },
                    Some(UrlRewrite::Suppress) => suppress_attr_url(out, node, "content"),
                    None => {},
                }
            }
        }
    }
}

/// Rewrites a `style` attribute.
fn push_style(out: &mut Vec<HtmlEdit>, context: &RewriteContext<'_>, node: &HtmlNode)
    ensures
        html::edit_views(final(out)@) == html::edit_views(old(out)@) + style_edits(context@, node@),
{
    match node.get_attribute("style") {
        Some(value) => {
            let changed = rewrite_style(value.as_str(), context);
            push_setting(out, node, "style", value.as_str(), changed);
        },
        None => {
            proof {
                assert(html::edit_views(out@) + Seq::<html::EditView>::empty() == html::edit_views(
                    out@,
                ));
            }
        },
    }
}

/// What takes the place of a script string.
fn replace_string(context: &RewriteContext<'_>, value: &str, bound: usize) -> (r: Option<String>)
    ensures
        urls::option_view(r) == string_replacement(context@, value@, bound as nat),
    decreases bound, 0int, 0int,
{
    let s = text::chars_of(value);
    if text::index_from(&s, '\\', 0).is_none() && looks_like_javascript_url_reference(value) {
        match context.rewrite_url_reference(value) {
            Some(rewrite) => Some(url_rewrite_to_string(rewrite)),
            None => None,
        }
    } else if text::index_from(&s, '<', 0).is_some() && text::index_from(&s, '>', 0).is_some()
        && s.len() < bound {
        rewrite_markup(value, context)
    } else {
        None
    }
}

/// Rewrites the references in the strings of a script.
fn rewrite_javascript_string_urls(input: &str, context: &RewriteContext<'_>, bound: usize) -> (r:
    String)
    ensures
        r@ == rewritten_script(context@, input@, bound as nat),
    decreases bound, 2int, 0int,
{
    let s = text::chars_of(input);
    let spans = scan::find_string_spans(&s);
    let strings = link_validation::piece_strings(&s, &spans);
    let ghost all = text::views(strings@);
    let mut reps: Vec<Option<String>> = Vec::new();
    let mut i: usize = 0;
    proof {
        assert(scan::span_views(spans@).len() == spans@.len());
        assert(all.len() == strings@.len());
        assert(scan::option_views(reps@) == string_replacements(context@, all.take(0), bound as nat));
    }
    while i < strings.len()
        invariant
            i <= strings@.len(),
            all == text::views(strings@),
            scan::option_views(reps@) == string_replacements(
                context@,
                all.take(i as int),
                bound as nat,
            ),
            reps@.len() == i,
        decreases strings@.len() - i,
    {
        let ghost before = scan::option_views(reps@);
        proof {
            assert(all.take(i + 1).drop_last() == all.take(i as int));
            assert(all.take(i + 1).last() == strings@[i as int]@);
        }
        let rep = replace_string(context, strings[i].as_str(), bound);
        reps.push(rep);
        i += 1;
        proof {
            assert(scan::option_views(reps@) == before.push(urls::option_view(rep)));
        }
    }
    proof {
        assert(all.take(all.len() as int) == all);
    }
    text::string_of(&scan::splice_text(&s, &spans, &reps))
}

/// Rewrites an attribute that is a script.
fn push_script(
    out: &mut Vec<HtmlEdit>,
    context: &RewriteContext<'_>,
    node: &HtmlNode,
    name: &str,
    bound: usize,
)
    ensures
        html::edit_views(final(out)@) == html::edit_views(old(out)@) + script_edits(
            context@,
            node@,
            name@,
            bound as nat,
        ),
    decreases bound, 3int, 0int,
{
    match node.get_attribute(name) {
        Some(value) => {
            let changed = rewrite_javascript_string_urls(value.as_str(), context, bound);
            push_setting(out, node, name, value.as_str(), changed);
        },
        None => {
            proof {
                assert(html::edit_views(out@) + Seq::<html::EditView>::empty() == html::edit_views(
                    out@,
                ));
            }
        },
    }
}

/// The edits of an element.
fn collect_element_edits(context: &RewriteContext<'_>, node: &HtmlNode, bound: usize) -> (r: Vec<
    HtmlEdit,
>)
    ensures
        html::edit_views(r@) == element_edits(context@, node@, bound as nat),
    decreases bound, 4int, 0int,
{
    let mut out: Vec<HtmlEdit> = Vec::new();
    proof {
        assert(html::edit_views(out@) == Seq::<html::EditView>::empty());
    }
    push_tagged(&mut out, context, node, "a", "href", ReferenceKind::Document);
    push_tagged(&mut out, context, node, "area", "href", ReferenceKind::Document);
    push_tagged(&mut out, context, node, "audio", "src", ReferenceKind::Resource);
    push_tagged(&mut out, context, node, "embed", "src", ReferenceKind::Resource);
    push_tagged(&mut out, context, node, "form", "action", ReferenceKind::Document);
    push_tagged(&mut out, context, node, "frame", "src", ReferenceKind::Document);
    push_tagged(&mut out, context, node, "iframe", "src", ReferenceKind::Document);
    push_tagged(&mut out, context, node, "img", "src", ReferenceKind::Resource);
    push_tagged(&mut out, context, node, "input", "src", ReferenceKind::Resource);
    push_tagged(&mut out, context, node, "link", "href", ReferenceKind::Resource);
    push_tagged(&mut out, context, node, "object", "data", ReferenceKind::Resource);
    push_tagged(&mut out, context, node, "script", "src", ReferenceKind::Resource);
    push_tagged(&mut out, context, node, "source", "src", ReferenceKind::Resource);
    push_tagged(&mut out, context, node, "track", "src", ReferenceKind::Resource);
    push_tagged(&mut out, context, node, "video", "poster", ReferenceKind::Resource);
    push_tagged(&mut out, context, node, "video", "src", ReferenceKind::Resource);
    push_url(&mut out, context, node, "background", ReferenceKind::Resource);
    push_guarded(&mut out, context, node, "option", "value", ReferenceKind::Document);
    push_guarded(&mut out, context, node, "param", "value", ReferenceKind::Resource);
    push_guarded(&mut out, context, node, "object", "codebase", ReferenceKind::Resource);
    push_guarded(&mut out, context, node, "applet", "code", ReferenceKind::Resource);
    push_srcset(&mut out, context, node);
    push_archives(&mut out, context, node);
    push_refresh(&mut out, context, node);
    push_style(&mut out, context, node);
    push_script(&mut out, context, node, "onmouseover", bound);
    push_script(&mut out, context, node, "onmouseout", bound);
    out
}

/// The edits of nodes, in order.
fn collect_edits(context: &RewriteContext<'_>, nodes: &Vec<HtmlNode>, bound: usize) -> (r: Vec<
    HtmlEdit,
>)
    ensures
        html::edit_views(r@) == document_edits(context@, html::node_views(nodes@), bound as nat),
    decreases bound, 6int, nodes@.len(),
{
    let ghost all = html::node_views(nodes@);
    let mut out: Vec<HtmlEdit> = Vec::new();
    let mut i: usize = 0;
    proof {
        assert(html::edit_views(out@) == document_edits(context@, all.take(0), bound as nat));
    }
    while i < nodes.len()
        invariant
            i <= nodes@.len(),
            all == html::node_views(nodes@),
            html::edit_views(out@) == document_edits(context@, all.take(i as int), bound as nat),
        decreases nodes@.len() - i,
    {
        let ghost before = html::edit_views(out@);
        let node = &nodes[i];
        proof {
            assert(all.take(i + 1).drop_last() == all.take(i as int));
            assert(all.take(i + 1).last() == node@);
            reveal_strlit("");
            assert(""@ == Seq::<char>::empty());
        }
        let mut more: Vec<HtmlEdit> = Vec::new();
        proof {
            assert(html::edit_views(more@) == Seq::<html::EditView>::empty());
        }
        match node.kind {
            NodeKind::Element => {
                more = collect_element_edits(context, node, bound);
            },
            NodeKind::StyleText => {
                let changed = rewrite_css(node.text.as_str(), context);
                push_edit(&mut more, EditKind::ReplaceText, node.at, "", changed);
            },
            NodeKind::ScriptText => {
                let changed = rewrite_javascript_string_urls(node.text.as_str(), context, bound);
                push_edit(&mut more, EditKind::ReplaceText, node.at, "", changed);
            },
        }
        proof {
            assert(html::edit_views(more@) == node_edits(context@, node@, bound as nat));
        }
        let ghost added = html::edit_views(more@);
        out.append(&mut more);
        i += 1;
        proof {
            assert(html::edit_views(out@) == before + added);
        }
    }
    proof {
        assert(all.take(all.len() as int) == all);
    }
    out
}

/// Rewrites the references of markup; none where it cannot be read.
fn rewrite_markup(input: &str, context: &RewriteContext<'_>) -> (r: Option<String>)
    ensures
        urls::option_view(r) == rewritten_html(context@, input@),
    decreases input@.len(), 7int, 0int,
{
    let bound: usize = text::chars_of(input).len();
    match html::read_nodes(input) {
        Some(nodes) => {
            let edits = collect_edits(context, &nodes, bound);
            html::apply_edits(input, &edits)
        },
        None => None,
    }
}

/// Rewrites the references of a page.
pub fn rewrite_html(input: &str, context: &RewriteContext<'_>) -> (r: Result<
    String,
    link_validation::UnreadableHtml,
>)
    ensures
        match r {
            Ok(page) => rewritten_html(context@, input@) == Some(page@),
            Err(_) => rewritten_html(context@, input@) is None,
        },
{
    match rewrite_markup(input, context) {
        Some(page) => Ok(page),
        None => Err(link_validation::UnreadableHtml),
    }
}

/// A reference to a captured URL becomes the link to its file, with the fragment kept.
pub proof fn law_captured_targets_are_linked(
    context: ContextView,
    value: Seq<char>,
    kind: ReferenceKind,
)
    requires
        text::trim(value).len() > 0,
        !scan::is_skipped(text::trim(value)),
        context.lookup(scan::before_char(text::trim(value), '#')) matches Some(url)
            && context.known.contains_key(pathmap::lookup_key(url.href)),
    ensures
        ({
            let t = text::trim(value);
            let bare = scan::before_char(t, '#');
            let key = pathmap::lookup_key(context.lookup(bare)->Some_0.href);
            context.rewrite(value, kind) == Some(
                RewriteView::Rewrite(
                    path::relative_link_of(context.local, context.known[key]) + t.skip(
                        bare.len() as int,
                    ),
                ),
            )
        }),
{
}

/// A link to a page of the own site that was not captured leads where its download would be saved.
pub proof fn law_links_to_uncaptured_pages_lead_to_their_place(
    context: ContextView,
    mapper: pathmap::MapperView,
    url: urls::UrlView,
)
    requires
        context.is_own(url),
        url.host matches Some(host) && mapper.is_primary(pathmap::host_name(host)),
    ensures
        context.own_path(url, ReferenceKind::Document) == Some(
            pathmap::local_path(mapper, url, "text/html"@),
        ),
{
    let names = pathmap::path_names(url.path);
    pathmap::lemma_names_of_pages(url.path);
    let hosts = pathmap::host_names(mapper, url.host);
    assert(hosts + pathmap::local_names(url.path, "text/html"@) == pathmap::local_names(
        url.path,
        "text/html"@,
    ));
    assert(uncaptured_names(url.path, ReferenceKind::Document) == pathmap::local_names(
        url.path,
        "text/html"@,
    )) by {
        if names.len() > 0 {
            assert(names.drop_last().push(names.last()) == names);
        }
    }
}

/// A host name that is lower case and does not end with a dot is its own host name.
proof fn lemma_host_name(name: Seq<char>)
    requires
        text::lower(name) == name,
        name.len() > 0 && name.last() != '.',
    ensures
        pathmap::host_name(name) == name,
        text::trim_end_char(name, '.') == name,
{
    assert(text::trim_end_char(name, '.') == name);
}

/// The host of a site with `www.` before it and the host without are hosts of the same site, and
/// both are kept at its top.
pub proof fn law_hosts_of_a_site(name: Seq<char>, a: Seq<char>, b: Seq<char>)
    requires
        text::lower(name) == name,
        name.len() > 0 && name.last() != '.',
        !text::starts_with(name, "www."@),
        a == name || a == "www."@ + name,
        b == name || b == "www."@ + name,
    ensures
        same_site(a, b),
        pathmap::mapper_for(a).is_primary(pathmap::host_name(b)),
{
    let www = "www."@;
    let full = www + name;
    reveal_strlit("www.");
    assert(www.len() == 4);
    assert(text::lower(full) == full) by {
        assert forall|i: int| 0 <= i < full.len() implies text::lower(full)[i] == full[i] by {
            if i >= 4 {
                assert(text::lower(name)[i - 4] == name[i - 4]);
            }
        }
    }
    assert(full.last() == name.last());
    lemma_host_name(name);
    lemma_host_name(full);
    assert(full.skip(4) == name);
    assert(text::starts_with(full, www)) by {
        assert(full.subrange(0, 4) == www);
    }
    assert(comparable_host(a) == name);
    assert(comparable_host(b) == name);
    let hosts = if a == name {
        seq![name, full]
    } else {
        seq![full, name]
    };
    order::lemma_sort_dedup_of(hosts);
    let primary = pathmap::mapper_for(a).primary_hosts;
    assert(primary == order::sort_dedup_of(hosts)) by {
        assert(pathmap::host_name(a) == a);
    }
    assert(hosts.contains(b)) by {
        assert(hosts[0] == b || hosts[1] == b);
    }
    assert(primary.contains(b));
    let k = choose|k: int| 0 <= k < primary.len() && primary[k] == b;
    assert(pathmap::host_name(b) == b);
    assert(text::same_ignoring_case(primary[k], pathmap::host_name(pathmap::host_name(b))));
}

/// A reference of a document is read against the document's own URL: where joining the two gives a URL
/// that was captured, its fragment left out, the reference becomes the relative link from the document
/// to the file of that URL, whatever directory the document lies in. The fragment of the reference is
/// kept.
pub proof fn law_references_are_read_against_their_document(
    context: ContextView,
    path: Seq<char>,
    fragment: Seq<char>,
    kind: ReferenceKind,
    url: urls::UrlView,
    page: Seq<char>,
)
    requires
        path.len() > 0,
        !path.contains('#'),
        fragment.len() == 0 || fragment[0] == '#',
        text::trim(path + fragment) == path + fragment,
        !text::starts_with(path + fragment, "//"@),
        !text::starts_with(path + fragment, "mailto:"@),
        !text::starts_with(path + fragment, "tel:"@),
        !text::starts_with(path + fragment, "javascript:"@),
        !text::starts_with(path + fragment, "data:"@),
        !text::starts_with(path + fragment, "blob:"@),
        urls::url_parse(path) is Err,
        urls::url_join(context.original.href, path) == Some(url),
        urls::url_without_fragment(url.href) == Some(page),
        context.known.contains_key(pathmap::lookup_key(page)),
    ensures
        context.rewrite(path + fragment, kind) == Some(
            RewriteView::Rewrite(
                path::relative_link_of(context.local, context.known[pathmap::lookup_key(page)])
                    + fragment,
            ),
        ),
{
    let t = path + fragment;
    reveal_strlit("#");
    assert(t[0] != '#') by {
        assert(path.contains(path[0]));
    }
    assert(!text::starts_with(t, "#"@)) by {
        if text::starts_with(t, "#"@) {
            assert(t.subrange(0, 1)[0] == "#"@[0]);
        }
    }
    lemma_before_fragment(path, fragment);
    assert(t.skip(path.len() as int) == fragment);
}

/// What stands before a fragment.
proof fn lemma_before_fragment(path: Seq<char>, fragment: Seq<char>)
    requires
        !path.contains('#'),
        fragment.len() == 0 || fragment[0] == '#',
    ensures
        scan::before_char(path + fragment, '#') == path,
{
    let t = path + fragment;
    text::lemma_index_of(t, '#', 0);
    match text::index_of(t, '#', 0) {
        Some(i) => {
            if i < path.len() {
                assert(path.contains(path[i]));
            } else if i > path.len() {
                assert(t[path.len() as int] == '#');
            }
            assert(t.take(path.len() as int) == path);
        },
        None => {
            if fragment.len() > 0 {
                assert(t[path.len() as int] == '#');
            }
            assert(t == path);
        },
    }
}

/// A whole URL, other than one of the archive, is looked up as it is: where it was captured, a
/// reference to it becomes the relative link to its file.
pub proof fn law_whole_urls_are_looked_up(
    context: ContextView,
    value: Seq<char>,
    kind: ReferenceKind,
    read: urls::UrlView,
    url: urls::UrlView,
    page: Seq<char>,
)
    requires
        value.len() > 0,
        !value.contains('#'),
        text::trim(value) == value,
        text::starts_with(value, "http://"@) || text::starts_with(value, "https://"@),
        urls::url_parse(value) == Ok::<urls::UrlView, UrlError>(read),
        read.host matches Some(host) && text::lower(host) != "web.archive.org"@,
        urls::url_join(context.original.href, value) == Some(url),
        urls::url_without_fragment(url.href) == Some(page),
        context.known.contains_key(pathmap::lookup_key(page)),
    ensures
        context.rewrite(value, kind) == Some(
            RewriteView::Rewrite(
                path::relative_link_of(context.local, context.known[pathmap::lookup_key(page)]),
            ),
        ),
{
    reveal_strlit("web.archive.org");
    assert(text::lower("web.archive.org"@) == "web.archive.org"@);
    lemma_http_is_not_skipped(value);
    lemma_before_fragment(value, Seq::empty());
    assert(value + Seq::<char>::empty() == value);
    assert(value.skip(value.len() as int) == Seq::<char>::empty());
    let link = path::relative_link_of(context.local, context.known[pathmap::lookup_key(page)]);
    assert(link + Seq::<char>::empty() == link);
}

/// A URL of the web is none of the references that lead nowhere.
proof fn lemma_http_is_not_skipped(value: Seq<char>)
    requires
        text::starts_with(value, "http://"@) || text::starts_with(value, "https://"@),
    ensures
        !scan::is_skipped(value),
{
    reveal_strlit("http://");
    reveal_strlit("https://");
    reveal_strlit("#");
    reveal_strlit("//");
    reveal_strlit("mailto:");
    reveal_strlit("tel:");
    reveal_strlit("javascript:");
    reveal_strlit("data:");
    reveal_strlit("blob:");
    assert(value[0] == 'h') by {
        if text::starts_with(value, "http://"@) {
            assert(value.subrange(0, 7)[0] == "http://"@[0]);
        } else {
            assert(value.subrange(0, 8)[0] == "https://"@[0]);
        }
    }
    if text::starts_with(value, "#"@) {
        assert(value.subrange(0, 1)[0] == "#"@[0]);
    }
    if text::starts_with(value, "//"@) {
        assert(value.subrange(0, 2)[0] == "//"@[0]);
    }
    if text::starts_with(value, "mailto:"@) {
        assert(value.subrange(0, 7)[0] == "mailto:"@[0]);
    }
    if text::starts_with(value, "tel:"@) {
        assert(value.subrange(0, 4)[0] == "tel:"@[0]);
    }
    if text::starts_with(value, "javascript:"@) {
        assert(value.subrange(0, 11)[0] == "javascript:"@[0]);
    }
    if text::starts_with(value, "data:"@) {
        assert(value.subrange(0, 5)[0] == "data:"@[0]);
    }
    if text::starts_with(value, "blob:"@) {
        assert(value.subrange(0, 5)[0] == "blob:"@[0]);
    }
}

/// References to places in the page itself and to other schemes stay as they are.
pub proof fn law_other_references_stay(context: ContextView, value: Seq<char>, kind: ReferenceKind)
    requires
        ({
            let t = text::trim(value);
            ||| t.len() == 0
            ||| text::starts_with(t, "#"@)
            ||| text::starts_with(t, "//"@)
            ||| text::starts_with(t, "mailto:"@)
            ||| text::starts_with(t, "tel:"@)
            ||| text::starts_with(t, "javascript:"@)
            ||| text::starts_with(t, "data:"@)
            ||| text::starts_with(t, "blob:"@)
        }),
    ensures
        context.rewrite(value, kind) is None,
{
}

/// A link to a page of another site that was not captured stays as it is, unless it is noise or leads
/// to a file that is downloaded for itself.
pub proof fn law_links_to_other_sites_stay(
    context: ContextView,
    url: urls::UrlView,
    kind: ReferenceKind,
)
    requires
        context.original.host matches Some(own) && url.host matches Some(other) && text::lower(own)
            != text::lower(other) && text::lower(own) != text::lower("www."@ + other) && text::lower(
            "www."@ + own,
        ) != text::lower(other) && own.len() > 0 && own.last() != '.' && other.len() > 0
            && other.last() != '.',
        !context.known.contains_key(pathmap::lookup_key(url.href)),
        !noise::noise_reference(url.href),
        !download_refs::extra_file(url),
    ensures
        context.target(url, kind) is None,
{
    let own = context.original.host->Some_0;
    let other = url.host->Some_0;
    if same_site(own, other) {
        lemma_same_site_is_up_to_www(own, other);
    }
}

/// Hosts of one site are equal up to case and to `www.` before them.
proof fn lemma_same_site_is_up_to_www(own: Seq<char>, other: Seq<char>)
    requires
        own.len() > 0 && own.last() != '.' && other.len() > 0 && other.last() != '.',
        same_site(own, other),
    ensures
        text::lower(own) == text::lower(other) || text::lower(own) == text::lower("www."@ + other)
            || text::lower("www."@ + own) == text::lower(other),
{
    reveal_strlit("www.");
    text::lemma_trim_end_by(own, text::is_char('.'), own.len() as int);
    text::lemma_trim_end_by(other, text::is_char('.'), other.len() as int);
    assert(own.take(own.len() as int) == own && other.take(other.len() as int) == other);
    let a = text::starts_with(own, "www."@);
    let b = text::starts_with(other, "www."@);
    if a {
        assert(own == own.subrange(0, 4) + own.skip(4));
    }
    if b {
        assert(other == other.subrange(0, 4) + other.skip(4));
    }
    if a && !b {
        assert(text::lower("www."@ + other) == text::lower("www."@) + text::lower(other));
        assert(text::lower(own) == text::lower("www."@) + text::lower(own.skip(4)));
    } else if !a && b {
        assert(text::lower("www."@ + own) == text::lower("www."@) + text::lower(own));
        assert(text::lower(other) == text::lower("www."@) + text::lower(other.skip(4)));
    } else if a && b {
        assert(text::lower(own) == text::lower("www."@) + text::lower(own.skip(4)));
        assert(text::lower(other) == text::lower("www."@) + text::lower(other.skip(4)));
    }
}

/// The edits of a page are those of its nodes.
proof fn lemma_edits_of_nodes(
    context: ContextView,
    nodes: Seq<html::NodeView>,
    bound: nat,
    i: int,
    edit: html::EditView,
)
    requires
        0 <= i < nodes.len(),
        node_edits(context, nodes[i], bound).contains(edit),
    ensures
        document_edits(context, nodes, bound).contains(edit),
    decreases nodes.len(),
{
    broadcast use link_validation::lemma_in_either;

    if i < nodes.len() - 1 {
        lemma_edits_of_nodes(context, nodes.drop_last(), bound, i, edit);
    }
}

/// A page is changed where an element names something that has a link in the saved site: its attribute
/// gets that link. Links, image maps, forms and frames name pages; pictures, sounds, films, scripts,
/// style sheets, objects and backgrounds are named as what a page shows.
#[verifier::spinoff_prover]
#[verifier::rlimit(50)]
pub proof fn law_references_of_elements_are_rewritten(
    context: ContextView,
    page: Seq<char>,
    nodes: Seq<html::NodeView>,
    i: int,
    name: Seq<char>,
    value: Seq<char>,
    link: Seq<char>,
)
    requires
        html::html_nodes(page) == Some(nodes),
        0 <= i < nodes.len(),
        nodes[i].kind == NodeKind::Element,
        html::attribute(nodes[i].attributes, name) == Some(value),
        ({
            let tag = nodes[i].tag;
            ||| context.rewrite(value, ReferenceKind::Document) == Some(RewriteView::Rewrite(link))
                && {
                ||| name == "href"@ && (tag == "a"@ || tag == "area"@)
                ||| name == "action"@ && tag == "form"@
                ||| name == "src"@ && (tag == "frame"@ || tag == "iframe"@)
            }
            ||| context.rewrite(value, ReferenceKind::Resource) == Some(RewriteView::Rewrite(link))
                && {
                ||| name == "src"@ && (tag == "audio"@ || tag == "embed"@ || tag == "img"@ || tag
                    == "input"@ || tag == "script"@ || tag == "source"@ || tag == "track"@ || tag
                    == "video"@)
                ||| name == "href"@ && tag == "link"@
                ||| name == "data"@ && tag == "object"@
                ||| name == "poster"@ && tag == "video"@
                ||| name == "background"@
            }
        }),
    ensures
        exists|edits: Seq<html::EditView>| #[trigger]
            html::html_edited(page, edits) == rewritten_html(context, page) && edits.contains(
                html::EditView {
                    kind: EditKind::SetAttribute,
                    at: nodes[i].at,
                    name,
                    value: link,
                },
            ),
{
    broadcast use link_validation::lemma_in_either;

    let n = nodes[i];
    let edit = html::EditView { kind: EditKind::SetAttribute, at: n.at, name, value: link };
    let one = seq![edit];
    assert(one[0] == edit);
    assert(one.contains(edit));
    let bound = page.len();
    assert(element_edits(context, n, bound).contains(edit));
    assert(node_edits(context, n, bound).contains(edit));
    lemma_edits_of_nodes(context, nodes, bound, i, edit);
    let edits = document_edits(context, nodes, bound);
    assert(html::html_edited(page, edits) == rewritten_html(context, page));
}

/// A reference that leads to nothing worth keeping is taken away: with its element where that only
/// shows what it names, without it where it is a link, a form or an entry field.
#[verifier::spinoff_prover]
#[verifier::rlimit(50)]
pub proof fn law_unwanted_references_are_taken_away(
    context: ContextView,
    page: Seq<char>,
    nodes: Seq<html::NodeView>,
    i: int,
    name: Seq<char>,
    value: Seq<char>,
)
    requires
        html::html_nodes(page) == Some(nodes),
        0 <= i < nodes.len(),
        nodes[i].kind == NodeKind::Element,
        html::attribute(nodes[i].attributes, name) == Some(value),
        ({
            let tag = nodes[i].tag;
            ||| context.rewrite(value, ReferenceKind::Document) == Some(RewriteView::Suppress) && {
                ||| name == "href"@ && (tag == "a"@ || tag == "area"@)
                ||| name == "action"@ && tag == "form"@
                ||| name == "src"@ && (tag == "frame"@ || tag == "iframe"@)
            }
            ||| context.rewrite(value, ReferenceKind::Resource) == Some(RewriteView::Suppress) && {
                ||| name == "src"@ && (tag == "audio"@ || tag == "embed"@ || tag == "img"@ || tag
                    == "input"@ || tag == "script"@ || tag == "source"@ || tag == "track"@ || tag
                    == "video"@)
                ||| name == "href"@ && tag == "link"@
                ||| name == "data"@ && tag == "object"@
                ||| name == "poster"@ && tag == "video"@
            }
        }),
    ensures
        ({
            let tag = nodes[i].tag;
            let stays = tag == "a"@ || tag == "area"@ || tag == "form"@ || tag == "input"@;
            exists|edits: Seq<html::EditView>| #[trigger]
                html::html_edited(page, edits) == rewritten_html(context, page) && edits.contains(
                    html::EditView {
                        kind: if stays {
                            EditKind::RemoveAttribute
                        } else {
                            EditKind::RemoveElement
                        },
                        at: nodes[i].at,
                        name: if stays {
                            name
                        } else {
                            Seq::empty()
                        },
                        value: Seq::empty(),
                    },
                )
        }),
{
    broadcast use link_validation::lemma_in_either;

    let n = nodes[i];
    lemma_tags_differ();
    let edit = suppression(n, name);
    let one = seq![edit];
    assert(one[0] == edit);
    assert(one.contains(edit));
    let bound = page.len();
    assert(element_edits(context, n, bound).contains(edit));
    assert(node_edits(context, n, bound).contains(edit));
    lemma_edits_of_nodes(context, nodes, bound, i, edit);
    let edits = document_edits(context, nodes, bound);
    assert(html::html_edited(page, edits) == rewritten_html(context, page));
}

/// The names of the elements that stay without their reference.
proof fn lemma_tags_differ()
    ensures
        !goes_with_reference("a"@),
        !goes_with_reference("area"@),
        !goes_with_reference("form"@),
        !goes_with_reference("input"@),
{
    reveal_strlit("a");
    reveal_strlit("area");
    reveal_strlit("form");
    reveal_strlit("input");
    reveal_strlit("audio");
    reveal_strlit("embed");
    reveal_strlit("frame");
    reveal_strlit("iframe");
    reveal_strlit("img");
    reveal_strlit("link");
    reveal_strlit("object");
    reveal_strlit("script");
    reveal_strlit("source");
    reveal_strlit("track");
    reveal_strlit("video");
    assert("a"@.len() == 1 && "area"@.len() == 4 && "form"@.len() == 4 && "input"@.len() == 5);
    assert("audio"@.len() == 5 && "embed"@.len() == 5 && "frame"@.len() == 5 && "iframe"@.len() == 6
        && "img"@.len() == 3 && "link"@.len() == 4 && "object"@.len() == 6 && "script"@.len() == 6
        && "source"@.len() == 6 && "track"@.len() == 5 && "video"@.len() == 5);
    assert("area"@[0] == 'a' && "form"@[0] == 'f' && "link"@[0] == 'l');
    assert("input"@[0] == 'i' && "audio"@[0] == 'a' && "embed"@[0] == 'e' && "frame"@[0] == 'f'
        && "track"@[0] == 't' && "video"@[0] == 'v');
}

/// A reference to the archive's own replay of a page is read as one to the page: where the page was
/// captured, the reference becomes the relative link to its file.
pub proof fn law_references_to_replays_are_unwrapped(
    context: ContextView,
    value: Seq<char>,
    kind: ReferenceKind,
    read: urls::UrlView,
    stamp: Seq<char>,
    original: Seq<char>,
    url: urls::UrlView,
    page: Seq<char>,
)
    requires
        !value.contains('#'),
        text::trim(value) == value,
        text::starts_with(value, "http://"@) || text::starts_with(value, "https://"@),
        urls::url_parse(value) == Ok::<urls::UrlView, UrlError>(read),
        read.host == Some("web.archive.org"@),
        read.path == "/web/"@ + stamp + "/"@ + original,
        !stamp.contains('/'),
        urls::url_join(context.original.href, original) == Some(url),
        urls::url_without_fragment(url.href) == Some(page),
        context.known.contains_key(pathmap::lookup_key(page)),
    ensures
        context.rewrite(value, kind) == Some(
            RewriteView::Rewrite(
                path::relative_link_of(context.local, context.known[pathmap::lookup_key(page)]),
            ),
        ),
{
    lemma_http_is_not_skipped(value);
    lemma_before_fragment(value, Seq::empty());
    assert(value + Seq::<char>::empty() == value);
    pathmap::law_replay_urls_are_unwrapped(value, read, stamp, original);
    reveal_strlit("http://");
    reveal_strlit("https://");
    assert(value.len() > 0);
    assert(value.skip(value.len() as int) == Seq::<char>::empty());
    let link = path::relative_link_of(context.local, context.known[pathmap::lookup_key(page)]);
    assert(link + Seq::<char>::empty() == link);
}

/// A URL that was captured leads to its file, whatever else it is. Noise that was not captured leads to
/// nothing worth keeping.
pub proof fn law_captures_come_before_noise(
    context: ContextView,
    url: urls::UrlView,
    kind: ReferenceKind,
)
    ensures
        context.known.contains_key(pathmap::lookup_key(url.href)) ==> context.target(url, kind)
            == Some(Some(context.known[pathmap::lookup_key(url.href)])),
        !context.known.contains_key(pathmap::lookup_key(url.href)) && noise::noise_reference(
            url.href,
        ) ==> context.target(url, kind) == Some(None::<path::PathView>),
{
}

/// An archive or an installer that was not captured leads to where it would be saved, where its host is
/// related to the site, and to nothing worth keeping otherwise. Another static file of a related host
/// likewise leads to where it would be saved, and one of any other host stays as it is.
pub proof fn law_files_of_related_hosts_lead_to_their_place(
    context: ContextView,
    mapper: pathmap::MapperView,
    url: urls::UrlView,
    parsed: urls::UrlView,
    kind: ReferenceKind,
    own: Seq<char>,
    other: Seq<char>,
)
    requires
        context.mapper == Some(mapper),
        urls::url_parse(url.href) == Ok::<urls::UrlView, UrlError>(parsed),
        context.original.host == Some(own),
        url.host == Some(other),
        own.len() > 0 && own.last() != '.',
        other.len() > 0 && other.last() != '.',
        text::lower(own) != text::lower(other),
        text::lower(own) != text::lower("www."@ + other),
        text::lower("www."@ + own) != text::lower(other),
        !context.known.contains_key(pathmap::lookup_key(url.href)),
        !noise::noise_reference(url.href),
        download_refs::extra_file(url),
    ensures
        mapper.is_related(other) ==> context.target(url, kind) == Some(
            Some(pathmap::local_path(mapper, parsed, "application/octet-stream"@)),
        ),
        !mapper.is_related(other) && download_refs::downloadable_file(url) ==> context.target(
            url,
            kind,
        ) == Some(None::<path::PathView>),
        !mapper.is_related(other) && !download_refs::downloadable_file(url) ==> context.target(
            url,
            kind,
        ) is None,
{
    if same_site(own, other) {
        lemma_same_site_is_up_to_www(own, other);
    }
}

/// A picture or another resource of the own site that was not captured leads to the file of its names.
pub proof fn law_resources_of_the_own_site_keep_their_names(
    context: ContextView,
    url: urls::UrlView,
    host: Seq<char>,
    names: Seq<Seq<char>>,
)
    requires
        context.original.host == Some(host),
        url.host == Some(host),
        url.query is None,
        names.len() > 0,
        forall|i: int| 0 <= i < names.len() ==> pathmap::is_ordinary(#[trigger] names[i]),
        names[0][0] != '_',
        url.path == "/"@ + text::join(names, "/"@),
        !context.known.contains_key(pathmap::lookup_key(url.href)),
        !noise::noise_reference(url.href),
        !download_refs::downloadable_file(url),
    ensures
        context.target(url, ReferenceKind::Resource) == Some(
            Some(path::PathView { absolute: false, parts: names }),
        ),
{
    pathmap::lemma_ordinary_path(names, url.path);
    pathmap::lemma_join_last_slash(names);
    assert(pathmap::is_ordinary(names[names.len() - 1]));
    pathmap::lemma_no_host_folder(names);
    assert(context.is_own(url));
    assert(uncaptured_names(url.path, ReferenceKind::Resource) == names);
}

/// A URL in a style attribute becomes its link, in the quotes in which it stood; one that leads to
/// nothing worth keeping becomes empty, and one that stays is left alone.
pub proof fn law_style_urls_keep_their_quotes(
    context: ContextView,
    value: Seq<char>,
    raw: Seq<char>,
    quote: Option<char>,
)
    requires
        value.len() > 0,
        value[0] != '\'',
        value[0] != '"',
        match quote {
            Some(q) => (q == '\'' || q == '"') && text::trim(raw) == seq![q] + value + seq![q],
            None => text::trim(raw) == value,
        },
    ensures
        css_replacement(context, raw) == match context.rewrite(value, ReferenceKind::Resource) {
            Some(RewriteView::Rewrite(link)) => Some(
                match quote {
                    Some(q) => seq![q] + link + seq![q],
                    None => link,
                },
            ),
            Some(RewriteView::Suppress) => Some(seq!['"', '"']),
            None => None,
        },
{
    let t = text::trim(raw);
    reveal_strlit("\"\"");
    assert("\"\""@ == seq!['"', '"']);
    match quote {
        Some(q) => {
            assert(t[0] == q && t.last() == q);
            assert(t.subrange(1, t.len() - 1) == value);
        },
        None => {},
    }
}

/// A script string that starts like a path or a URL becomes its link, or empty where it leads to
/// nothing worth keeping. One with a tag in it is rewritten as a piece of a page. Every other string
/// stays.
pub proof fn law_script_strings_are_rewritten(context: ContextView, s: Seq<char>, bound: nat)
    requires
        s.len() > 0,
        s.len() < bound,
        text::trim(s) == s,
    ensures
        ({
            let path = {
                ||| text::starts_with(s, "/"@) && !text::starts_with(s, "//"@)
                ||| text::starts_with(s, "./"@)
                ||| text::starts_with(s, "../"@)
                ||| text::starts_with(s, "http://"@)
                ||| text::starts_with(s, "https://"@)
            };
            let tags = s.contains('<') && s.contains('>');
            let r = string_replacement(context, s, bound);
            &&& path && !s.contains('\\') ==> r == match context.rewrite(s, ReferenceKind::Resource) {
                Some(RewriteView::Rewrite(link)) => Some(link),
                Some(RewriteView::Suppress) => Some(Seq::<char>::empty()),
                None => None,
            }
            &&& (!path || s.contains('\\')) && tags ==> r == rewritten_html(context, s)
            &&& (!path || s.contains('\\')) && !tags ==> r is None
        }),
{
    lemma_held(s, '\\');
    lemma_held(s, '<');
    lemma_held(s, '>');
}

/// A character is found where a text holds it.
proof fn lemma_held(s: Seq<char>, c: char)
    ensures
        text::index_of(s, c, 0) is Some <==> s.contains(c),
{
    text::lemma_index_of(s, c, 0);
    match text::index_of(s, c, 0) {
        Some(i) => {
            assert(s.contains(s[i]));
        },
        None => {},
    }
}

/// A candidate of a `srcset` keeps the white space before its reference and all that follows it; the
/// reference becomes its link, or empty where it leads to nothing worth keeping.
pub proof fn law_candidates_keep_their_descriptors(
    context: ContextView,
    blank: Seq<char>,
    value: Seq<char>,
    rest: Seq<char>,
)
    requires
        forall|i: int| 0 <= i < blank.len() ==> text::is_white(#[trigger] blank[i]),
        value.len() > 0,
        forall|i: int| 0 <= i < value.len() ==> !text::is_white(#[trigger] value[i]),
        rest.len() > 0 ==> text::is_white(rest[0]),
    ensures
        rewritten_candidate(context, blank + value + rest) == match context.rewrite(
            value,
            ReferenceKind::Resource,
        ) {
            Some(RewriteView::Rewrite(link)) => blank + link + rest,
            Some(RewriteView::Suppress) => blank + rest,
            None => blank + value + rest,
        },
{
    let s = blank + value + rest;
    let b = blank.len() as int;
    let e = b + value.len();
    assert forall|i: int| 0 <= i < b implies text::is_white(#[trigger] s[i]) by {
        assert(s[i] == blank[i]);
    }
    assert(s[b] == value[0]);
    assert forall|i: int| b <= i < e implies !text::is_white(#[trigger] s[i]) by {
        assert(s[i] == value[i - b]);
    }
    if e < s.len() {
        assert(s[e] == rest[0]);
    }
    scan::lemma_skip_white(s, 0, b);
    lemma_word_ends(s, b, e);
    assert(s.subrange(b, e) == value);
    assert(s.take(b) == blank);
    assert(s.skip(e) == rest);
    assert(blank + Seq::<char>::empty() + rest == blank + rest);
}

/// A word ends before the first white space.
proof fn lemma_word_ends(s: Seq<char>, from: int, n: int)
    requires
        0 <= from <= n <= s.len(),
        forall|i: int| from <= i < n ==> !text::is_white(#[trigger] s[i]),
        n < s.len() ==> text::is_white(s[n]),
    ensures
        text::word_end(s, from) == n,
    decreases n - from,
{
    if from < n {
        assert(!text::is_white(s[from]));
        lemma_word_ends(s, from + 1, n);
    }
}

/// Candidates of a `srcset` and archives of an applet are rewritten one by one, between their commas.
pub proof fn law_lists_are_rewritten_item_by_item(context: ContextView, items: Seq<Seq<char>>)
    requires
        items.len() > 0,
        forall|i: int| 0 <= i < items.len() ==> !(#[trigger] items[i]).contains(','),
    ensures
        rewritten_srcset(context, text::join(items, ","@)) == text::join(
            Seq::new(items.len(), |i: int| rewritten_candidate(context, items[i])),
            ","@,
        ),
        rewritten_archives(context, text::join(items, ","@)) == text::join(
            Seq::new(items.len(), |i: int| rewritten_archive(context, items[i])),
            ","@,
        ),
{
    reveal_strlit(",");
    assert(","@ == seq![',']);
    text::lemma_split_join(items, ',');
}

/// An archive of an applet becomes its link where it looks like a reference, with the white space
/// around it kept, and stays otherwise.
pub proof fn law_archives_are_rewritten_where_they_look_like_references(
    context: ContextView,
    blank: Seq<char>,
    value: Seq<char>,
    rest: Seq<char>,
)
    requires
        forall|i: int| 0 <= i < blank.len() ==> text::is_white(#[trigger] blank[i]),
        forall|i: int| 0 <= i < rest.len() ==> text::is_white(#[trigger] rest[i]),
        value.len() > 0,
        forall|i: int| 0 <= i < value.len() ==> !text::is_white(#[trigger] value[i]),
    ensures
        rewritten_archive(context, blank + value + rest) == if !link_validation::looks_like_reference(
            value,
        ) {
            blank + value + rest
        } else {
            match context.rewrite(value, ReferenceKind::Resource) {
                Some(RewriteView::Rewrite(link)) => blank + link + rest,
                Some(RewriteView::Suppress) => blank + rest,
                None => blank + value + rest,
            }
        },
{
    let s = blank + value + rest;
    let b = blank.len() as int;
    let e = b + value.len();
    assert forall|i: int| 0 <= i < b implies text::is_white(#[trigger] s[i]) by {
        assert(s[i] == blank[i]);
    }
    assert(s[b] == value[0]);
    scan::lemma_skip_white(s, 0, b);
    text::lemma_trim_start_by(s, text::white(), b);
    let t = s.skip(b);
    assert(t == value + rest);
    let n = value.len() as int;
    assert forall|i: int| n <= i < t.len() implies (text::white())(#[trigger] t[i]) by {
        assert(t[i] == rest[i - n]);
    }
    assert(t[n - 1] == value[n - 1]);
    text::lemma_trim_end_by(t, text::white(), n);
    assert(t.take(n) == value);
    assert(text::trim(s) == value);
    assert(s.subrange(b, e) == value);
    assert(s.take(b) == blank);
    assert(s.skip(e) == rest);
    assert(blank + Seq::<char>::empty() + rest == blank + rest);
}

/// Entries of lists lead to pages, parameters, object and applet code to resources, where they look
/// like references: each gets its link.
#[verifier::spinoff_prover]
#[verifier::rlimit(50)]
pub proof fn law_values_that_look_like_references_are_rewritten(
    context: ContextView,
    page: Seq<char>,
    nodes: Seq<html::NodeView>,
    i: int,
    name: Seq<char>,
    value: Seq<char>,
    link: Seq<char>,
)
    requires
        html::html_nodes(page) == Some(nodes),
        0 <= i < nodes.len(),
        nodes[i].kind == NodeKind::Element,
        html::attribute(nodes[i].attributes, name) == Some(value),
        link_validation::looks_like_reference(value),
        ({
            let tag = nodes[i].tag;
            ||| context.rewrite(value, ReferenceKind::Document) == Some(RewriteView::Rewrite(link))
                && name == "value"@ && tag == "option"@
            ||| context.rewrite(value, ReferenceKind::Resource) == Some(RewriteView::Rewrite(link))
                && (name == "value"@ && tag == "param"@ || name == "codebase"@ && tag == "object"@
                || name == "code"@ && tag == "applet"@)
        }),
    ensures
        exists|edits: Seq<html::EditView>| #[trigger]
            html::html_edited(page, edits) == rewritten_html(context, page) && edits.contains(
                html::EditView {
                    kind: EditKind::SetAttribute,
                    at: nodes[i].at,
                    name,
                    value: link,
                },
            ),
{
    broadcast use link_validation::lemma_in_either;

    let n = nodes[i];
    let edit = html::EditView { kind: EditKind::SetAttribute, at: n.at, name, value: link };
    let one = seq![edit];
    assert(one[0] == edit);
    assert(one.contains(edit));
    let bound = page.len();
    assert(element_edits(context, n, bound).contains(edit));
    assert(node_edits(context, n, bound).contains(edit));
    lemma_edits_of_nodes(context, nodes, bound, i, edit);
    let edits = document_edits(context, nodes, bound);
    assert(html::html_edited(page, edits) == rewritten_html(context, page));
}

/// The candidates of images, the archives of applets, the URLs of style attributes and the strings in
/// the scripts of the two mouse events are rewritten: an attribute that changes gets its new value.
#[verifier::spinoff_prover]
#[verifier::rlimit(50)]
pub proof fn law_lists_styles_and_scripts_are_rewritten(
    context: ContextView,
    page: Seq<char>,
    nodes: Seq<html::NodeView>,
    i: int,
    name: Seq<char>,
    value: Seq<char>,
    changed: Seq<char>,
)
    requires
        html::html_nodes(page) == Some(nodes),
        0 <= i < nodes.len(),
        nodes[i].kind == NodeKind::Element,
        html::attribute(nodes[i].attributes, name) == Some(value),
        changed != value,
        ({
            ||| name == "srcset"@ && changed == rewritten_srcset(context, value)
            ||| name == "archive"@ && nodes[i].tag == "applet"@ && changed == rewritten_archives(
                context,
                value,
            )
            ||| name == "style"@ && changed == rewritten_style(context, value)
            ||| (name == "onmouseover"@ || name == "onmouseout"@) && changed == rewritten_script(
                context,
                value,
                page.len(),
            )
        }),
    ensures
        exists|edits: Seq<html::EditView>| #[trigger]
            html::html_edited(page, edits) == rewritten_html(context, page) && edits.contains(
                html::EditView {
                    kind: EditKind::SetAttribute,
                    at: nodes[i].at,
                    name,
                    value: changed,
                },
            ),
{
    broadcast use link_validation::lemma_in_either;

    let n = nodes[i];
    let edit = html::EditView { kind: EditKind::SetAttribute, at: n.at, name, value: changed };
    let one = seq![edit];
    assert(one[0] == edit);
    assert(one.contains(edit));
    let bound = page.len();
    assert(element_edits(context, n, bound).contains(edit));
    assert(node_edits(context, n, bound).contains(edit));
    lemma_edits_of_nodes(context, nodes, bound, i, edit);
    let edits = document_edits(context, nodes, bound);
    assert(html::html_edited(page, edits) == rewritten_html(context, page));
}

/// A refresh that leads to a page of the site leads to its file afterwards: only the target in its
/// content changes.
#[verifier::spinoff_prover]
#[verifier::rlimit(50)]
pub proof fn law_refreshes_are_rewritten(
    context: ContextView,
    page: Seq<char>,
    nodes: Seq<html::NodeView>,
    i: int,
    equiv: Seq<char>,
    value: Seq<char>,
    span: (int, int),
    link: Seq<char>,
)
    requires
        html::html_nodes(page) == Some(nodes),
        0 <= i < nodes.len(),
        nodes[i].kind == NodeKind::Element,
        nodes[i].tag == "meta"@,
        html::attribute(nodes[i].attributes, "http-equiv"@) == Some(equiv),
        text::lower(text::trim(equiv)) == "refresh"@,
        html::attribute(nodes[i].attributes, "content"@) == Some(value),
        scan::refresh_span(value) == Some(span),
        context.rewrite(value.subrange(span.0, span.1), ReferenceKind::Document) == Some(
            RewriteView::Rewrite(link),
        ),
        value.take(span.0) + link + value.skip(span.1) != value,
    ensures
        exists|edits: Seq<html::EditView>| #[trigger]
            html::html_edited(page, edits) == rewritten_html(context, page) && edits.contains(
                html::EditView {
                    kind: EditKind::SetAttribute,
                    at: nodes[i].at,
                    name: "content"@,
                    value: value.take(span.0) + link + value.skip(span.1),
                },
            ),
{
    broadcast use link_validation::lemma_in_either;

    let n = nodes[i];
    reveal_strlit("refresh");
    assert(text::lower("refresh"@) == "refresh"@);
    let changed = value.take(span.0) + link + value.skip(span.1);
    let edit = html::EditView {
        kind: EditKind::SetAttribute,
        at: n.at,
        name: "content"@,
        value: changed,
    };
    let one = seq![edit];
    assert(one[0] == edit);
    assert(one.contains(edit));
    let bound = page.len();
    assert(refresh_edits(context, n) == one);
    assert(element_edits(context, n, bound).contains(edit));
    assert(node_edits(context, n, bound).contains(edit));
    lemma_edits_of_nodes(context, nodes, bound, i, edit);
    let edits = document_edits(context, nodes, bound);
    assert(html::html_edited(page, edits) == rewritten_html(context, page));
}

/// The style sheets and scripts in a page are replaced by the rewritten ones.
pub proof fn law_texts_of_a_page_are_rewritten(
    context: ContextView,
    page: Seq<char>,
    nodes: Seq<html::NodeView>,
    i: int,
)
    requires
        html::html_nodes(page) == Some(nodes),
        0 <= i < nodes.len(),
        nodes[i].kind == NodeKind::StyleText || nodes[i].kind == NodeKind::ScriptText,
    ensures
        exists|edits: Seq<html::EditView>| #[trigger]
            html::html_edited(page, edits) == rewritten_html(context, page) && edits.contains(
                html::EditView {
                    kind: EditKind::ReplaceText,
                    at: nodes[i].at,
                    name: Seq::empty(),
                    value: if nodes[i].kind == NodeKind::StyleText {
                        rewritten_css(context, nodes[i].text)
                    } else {
                        rewritten_script(context, nodes[i].text, page.len())
                    },
                },
            ),
{
    let bound = page.len();
    let own = node_edits(context, nodes[i], bound);
    assert(own.contains(own[0]));
    lemma_edits_of_nodes(context, nodes, bound, i, own[0]);
    let edits = document_edits(context, nodes, bound);
    assert(html::html_edited(page, edits) == rewritten_html(context, page));
}

/// Nothing of an element is rewritten but the references that elements of its name have, its background,
/// its candidates, its style and the scripts of the two mouse events.
pub proof fn law_other_attributes_are_not_rewritten(context: ContextView, n: html::NodeView, bound: nat)
    requires
        n.kind == NodeKind::Element,
        forall|i: int|
            0 <= i < n.attributes.len() ==> {
                let name = (#[trigger] n.attributes[i]).0;
                &&& name == "href"@ ==> n.tag != "a"@ && n.tag != "area"@ && n.tag != "link"@
                &&& name == "src"@ ==> n.tag != "audio"@ && n.tag != "embed"@ && n.tag != "frame"@ && n.tag != "iframe"@ && n.tag != "img"@ && n.tag != "input"@ && n.tag != "script"@ && n.tag != "source"@ && n.tag != "track"@ && n.tag != "video"@
                &&& name == "action"@ ==> n.tag != "form"@
                &&& name == "data"@ ==> n.tag != "object"@
                &&& name == "poster"@ ==> n.tag != "video"@
                &&& name == "value"@ ==> n.tag != "option"@ && n.tag != "param"@
                &&& name == "codebase"@ ==> n.tag != "object"@
                &&& name == "code"@ ==> n.tag != "applet"@
                &&& name == "archive"@ ==> n.tag != "applet"@
                &&& name == "content"@ ==> n.tag != "meta"@
                &&& name != "background"@ && name != "srcset"@ && name != "style"@ && name != "onmouseover"@
                &&& name != "onmouseout"@
            },
    ensures
        node_edits(context, n, bound).len() == 0,
{
    link_validation::lemma_no_attribute(n.attributes, "background"@);
    link_validation::lemma_no_attribute(n.attributes, "srcset"@);
    link_validation::lemma_no_attribute(n.attributes, "style"@);
    link_validation::lemma_no_attribute(n.attributes, "onmouseover"@);
    link_validation::lemma_no_attribute(n.attributes, "onmouseout"@);
    if n.tag == "a"@ || n.tag == "area"@ || n.tag == "link"@ {
        link_validation::lemma_no_attribute(n.attributes, "href"@);
    }
    if n.tag == "audio"@ || n.tag == "embed"@ || n.tag == "frame"@ || n.tag == "iframe"@ || n.tag == "img"@ || n.tag == "input"@ || n.tag == "script"@ || n.tag == "source"@ || n.tag == "track"@ || n.tag == "video"@ {
        link_validation::lemma_no_attribute(n.attributes, "src"@);
    }
    if n.tag == "form"@ {
        link_validation::lemma_no_attribute(n.attributes, "action"@);
    }
    if n.tag == "object"@ {
        link_validation::lemma_no_attribute(n.attributes, "data"@);
    }
    if n.tag == "video"@ {
        link_validation::lemma_no_attribute(n.attributes, "poster"@);
    }
    if n.tag == "option"@ || n.tag == "param"@ {
        link_validation::lemma_no_attribute(n.attributes, "value"@);
    }
    if n.tag == "object"@ {
        link_validation::lemma_no_attribute(n.attributes, "codebase"@);
    }
    if n.tag == "applet"@ {
        link_validation::lemma_no_attribute(n.attributes, "code"@);
    }
    if n.tag == "applet"@ {
        link_validation::lemma_no_attribute(n.attributes, "archive"@);
    }
    if n.tag == "meta"@ {
        link_validation::lemma_no_attribute(n.attributes, "content"@);
    }
}

/// A background, an entry of a list and a parameter that lead to nothing worth keeping are taken away,
/// and their element stays.
pub proof fn law_elements_outlive_their_backgrounds(
    context: ContextView,
    page: Seq<char>,
    nodes: Seq<html::NodeView>,
    i: int,
    name: Seq<char>,
    value: Seq<char>,
)
    requires
        html::html_nodes(page) == Some(nodes),
        0 <= i < nodes.len(),
        nodes[i].kind == NodeKind::Element,
        html::attribute(nodes[i].attributes, name) == Some(value),
        ({
            let tag = nodes[i].tag;
            ||| context.rewrite(value, ReferenceKind::Resource) == Some(RewriteView::Suppress) && name
                == "background"@ && tag != "audio"@ && tag != "embed"@ && tag != "frame"@ && tag
                != "iframe"@ && tag != "img"@ && tag != "link"@ && tag != "object"@ && tag
                != "script"@ && tag != "source"@ && tag != "track"@ && tag != "video"@
            ||| context.rewrite(value, ReferenceKind::Document) == Some(RewriteView::Suppress) && name
                == "value"@ && tag == "option"@ && link_validation::looks_like_reference(value)
            ||| context.rewrite(value, ReferenceKind::Resource) == Some(RewriteView::Suppress) && name
                == "value"@ && tag == "param"@ && link_validation::looks_like_reference(value)
        }),
    ensures
        exists|edits: Seq<html::EditView>| #[trigger]
            html::html_edited(page, edits) == rewritten_html(context, page) && edits.contains(
                html::EditView {
                    kind: EditKind::RemoveAttribute,
                    at: nodes[i].at,
                    name,
                    value: Seq::empty(),
                },
            ),
{
    broadcast use link_validation::lemma_in_either;

    let n = nodes[i];
    lemma_entries_stay();
    let edit = html::EditView {
        kind: EditKind::RemoveAttribute,
        at: n.at,
        name,
        value: Seq::<char>::empty(),
    };
    let one = seq![edit];
    assert(one[0] == edit);
    assert(one.contains(edit));
    let bound = page.len();
    assert(suppression(n, name) == edit);
    assert(element_edits(context, n, bound).contains(edit));
    assert(node_edits(context, n, bound).contains(edit));
    lemma_edits_of_nodes(context, nodes, bound, i, edit);
    let edits = document_edits(context, nodes, bound);
    assert(html::html_edited(page, edits) == rewritten_html(context, page));
}

/// Entries of lists and parameters do not go with their references.
proof fn lemma_entries_stay()
    ensures
        !goes_with_reference("option"@),
        !goes_with_reference("param"@),
{
    reveal_strlit("audio");
    reveal_strlit("embed");
    reveal_strlit("frame");
    reveal_strlit("iframe");
    reveal_strlit("img");
    reveal_strlit("link");
    reveal_strlit("object");
    reveal_strlit("script");
    reveal_strlit("source");
    reveal_strlit("track");
    reveal_strlit("video");
    reveal_strlit("option");
    reveal_strlit("param");
    assert("audio"@.len() == 5 && "audio"@[0] == 'a' && "audio"@[1] == 'u' && "audio"@[2] == 'd');
    assert("embed"@.len() == 5 && "embed"@[0] == 'e' && "embed"@[1] == 'm' && "embed"@[2] == 'b');
    assert("frame"@.len() == 5 && "frame"@[0] == 'f' && "frame"@[1] == 'r' && "frame"@[2] == 'a');
    assert("iframe"@.len() == 6 && "iframe"@[0] == 'i' && "iframe"@[1] == 'f' && "iframe"@[2] == 'r');
    assert("img"@.len() == 3 && "img"@[0] == 'i' && "img"@[1] == 'm' && "img"@[2] == 'g');
    assert("link"@.len() == 4 && "link"@[0] == 'l' && "link"@[1] == 'i' && "link"@[2] == 'n');
    assert("object"@.len() == 6 && "object"@[0] == 'o' && "object"@[1] == 'b' && "object"@[2] == 'j');
    assert("script"@.len() == 6 && "script"@[0] == 's' && "script"@[1] == 'c' && "script"@[2] == 'r');
    assert("source"@.len() == 6 && "source"@[0] == 's' && "source"@[1] == 'o' && "source"@[2] == 'u');
    assert("track"@.len() == 5 && "track"@[0] == 't' && "track"@[1] == 'r' && "track"@[2] == 'a');
    assert("video"@.len() == 5 && "video"@[0] == 'v' && "video"@[1] == 'i' && "video"@[2] == 'd');
    assert("option"@.len() == 6 && "option"@[0] == 'o' && "option"@[1] == 'p' && "option"@[2] == 't');
    assert("param"@.len() == 5 && "param"@[0] == 'p' && "param"@[1] == 'a' && "param"@[2] == 'r');
}

/// A dot that closes the name of a host does not tell sites apart, on either side.
pub proof fn law_closing_dots_do_not_tell_sites_apart(own: Seq<char>, other: Seq<char>)
    ensures
        same_site(own.push('.'), other) == same_site(own, other),
        same_site(own, other.push('.')) == same_site(own, other),
        same_site(own, own.push('.')),
{
    assert(own.push('.').drop_last() == own);
    assert(other.push('.').drop_last() == other);
}

} // verus!

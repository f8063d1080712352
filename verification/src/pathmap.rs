//! Where each archived URL is kept in the saved site.
use crate::cdx;
use crate::maps::TextMap;
use crate::numbers;
use crate::order;
use crate::path;
use crate::text;
use crate::urls;
use cdx::CdxRecord;
use path::LocalPath;
use urls::{UrlError, UrlParts};
use vstd::prelude::*;

verus! {

/// Maps the URLs of one site to local paths.
#[derive(Debug, Clone)]
pub struct SiteMapper {
    root_host: String,
    primary_hosts: Vec<String>,
}

/// The mathematical form of a site mapper.
#[verifier::ext_equal]
pub struct MapperView {
    /// The host that was asked for.
    pub root_host: Seq<char>,
    /// The hosts that are kept at the top of the saved site.
    pub primary_hosts: Seq<Seq<char>>,
}

impl View for SiteMapper {
    type V = MapperView;

    closed spec fn view(&self) -> MapperView {
        MapperView { root_host: self.root_host@, primary_hosts: text::views(self.primary_hosts@) }
    }
}

/// Why a target is not a site.
#[derive(Debug, Clone, Copy, PartialEq, Eq, Structural)]
pub enum TargetError {
    /// The target is no URL, not even with `http://` before it.
    Invalid,
    /// The target URL has no host.
    MissingHost,
}

/// A host in lower case, without dots at its end.
pub open spec fn host_name(host: Seq<char>) -> Seq<char> {
    text::lower(text::trim_end_char(host, '.'))
}

/// The URL that a user means: without a scheme it is taken as `http`.
pub open spec fn user_url(input: Seq<char>) -> Result<urls::UrlView, UrlError> {
    match urls::url_parse(input) {
        Ok(url) => Ok(url),
        Err(UrlError::RelativeUrlWithoutBase) => urls::url_parse("http://"@ + input),
        Err(e) => Err(e),
    }
}

/// The mapper for a site by its host: the host with and without `www.` is at the top.
pub open spec fn mapper_for(host: Seq<char>) -> MapperView {
    let name = host_name(host);
    let other = if text::starts_with(name, "www."@) {
        name.skip("www."@.len() as int)
    } else {
        "www."@ + name
    };
    MapperView { root_host: name, primary_hosts: order::sort_dedup_of(seq![name, other]) }
}

impl MapperView {
    /// Whether a host is kept at the top of the saved site.
    pub open spec fn is_primary(self, host: Seq<char>) -> bool {
        exists|i: int|
            0 <= i < self.primary_hosts.len() && text::same_ignoring_case(
                #[trigger] self.primary_hosts[i],
                host_name(host),
            )
    }

    /// The site's host without `www.`.
    pub open spec fn base_host(self) -> Seq<char> {
        if text::starts_with(self.root_host, "www."@) {
            self.root_host.skip("www."@.len() as int)
        } else {
            self.root_host
        }
    }

    /// Whether a host is a primary host or a subdomain of the site.
    pub open spec fn is_related(self, host: Seq<char>) -> bool {
        self.is_primary(host) || text::ends_with(host_name(host), "."@ + self.base_host())
    }
}

/// Whether a character cannot stand in a file name.
pub open spec fn is_unsafe(c: char) -> bool {
    ||| c == '/'
    ||| c == '\\'
    ||| c == ':'
    ||| c == '*'
    ||| c == '?'
    ||| c == '"'
    ||| c == '<'
    ||| c == '>'
    ||| c == '|'
    ||| text::is_control(c)
}

/// A segment with every unsafe character replaced by an underscore.
pub open spec fn masked(segment: Seq<char>) -> Seq<char> {
    Seq::new(segment.len(), |i: int| if is_unsafe(segment[i]) { '_' } else { segment[i] })
}

/// The file name that stands for a URL segment.
pub open spec fn safe_segment(segment: Seq<char>) -> Seq<char> {
    let cleaned = text::trim_end_char(text::trim_start_char(masked(segment), '.'), '.');
    if cleaned.len() == 0 {
        "_"@
    } else {
        cleaned
    }
}

/// The safe names of the segments that are not empty.
pub open spec fn safe_segments(segments: Seq<Seq<char>>) -> Seq<Seq<char>>
    decreases segments.len(),
{
    if segments.len() == 0 {
        Seq::empty()
    } else if segments.last().len() == 0 {
        safe_segments(segments.drop_last())
    } else {
        safe_segments(segments.drop_last()).push(safe_segment(segments.last()))
    }
}

/// The safe names of the segments of a URL path.
pub open spec fn path_names(url_path: Seq<char>) -> Seq<Seq<char>> {
    match urls::segments_of(url_path) {
        Some(segments) => safe_segments(segments),
        None => Seq::empty(),
    }
}

/// What follows the last dot of a name, unless that is nothing.
pub open spec fn extension_after_dot(name: Seq<char>) -> Option<Seq<char>> {
    match text::rindex_of(name, '.', name.len() - 1) {
        Some(i) => if i + 1 < name.len() {
            Some(name.skip(i + 1))
        } else {
            None
        },
        None => None,
    }
}

/// Whether an extension is one of HTML files.
pub open spec fn html_extension(extension: Seq<char>) -> bool {
    ||| text::same_ignoring_case(extension, "html"@)
    ||| text::same_ignoring_case(extension, "htm"@)
    ||| text::same_ignoring_case(extension, "xhtml"@)
}

/// Whether a media type is that of HTML pages.
pub open spec fn html_mimetype(mimetype: Seq<char>) -> bool {
    ||| text::same_ignoring_case(mimetype, "text/html"@)
    ||| text::same_ignoring_case(mimetype, "application/xhtml+xml"@)
}

/// Whether a media type is that of style sheets.
pub open spec fn css_mimetype(mimetype: Seq<char>) -> bool {
    text::same_ignoring_case(mimetype, "text/css"@)
}

/// A media type without parameters, in lower case.
pub open spec fn bare_mimetype(mimetype: Seq<char>) -> Seq<char> {
    let base = match text::index_of(mimetype, ';', 0) {
        Some(i) => mimetype.take(i),
        None => mimetype,
    };
    text::lower(text::trim(base))
}

/// The extension that files of a media type have.
pub open spec fn mimetype_extension(mimetype: Seq<char>) -> Option<Seq<char>> {
    let m = bare_mimetype(mimetype);
    if m == "application/atom+xml"@ || m == "application/rss+xml"@ || m == "application/xml"@ || m
        == "text/xml"@ {
        Some("xml"@)
    } else if m == "application/javascript"@ || m == "application/x-javascript"@ || m
        == "text/javascript"@ {
        Some("js"@)
    } else if m == "application/json"@ {
        Some("json"@)
    } else if m == "application/pdf"@ {
        Some("pdf"@)
    } else if m == "font/ttf"@ {
        Some("ttf"@)
    } else if m == "font/woff"@ {
        Some("woff"@)
    } else if m == "font/woff2"@ {
        Some("woff2"@)
    } else if m == "image/gif"@ {
        Some("gif"@)
    } else if m == "image/jpeg"@ || m == "image/jpg"@ {
        Some("jpg"@)
    } else if m == "image/png"@ {
        Some("png"@)
    } else if m == "image/svg+xml"@ {
        Some("svg"@)
    } else if m == "image/webp"@ {
        Some("webp"@)
    } else if m == "image/x-icon"@ {
        Some("ico"@)
    } else if m == "text/css"@ {
        Some("css"@)
    } else if m == "text/plain"@ {
        Some("txt"@)
    } else {
        None
    }
}

/// Whether a file extension already stands for a media type's extension.
pub open spec fn extension_fits(extension: Seq<char>, wanted: Seq<char>) -> bool {
    ||| text::same_ignoring_case(extension, wanted)
    ||| wanted == "jpg"@ && (text::same_ignoring_case(extension, "jpeg"@)
        || text::same_ignoring_case(extension, "jpe"@))
    ||| wanted == "js"@ && text::same_ignoring_case(extension, "mjs"@)
    ||| wanted == "xml"@ && (text::same_ignoring_case(extension, "rss"@)
        || text::same_ignoring_case(extension, "atom"@))
}

/// The last name of a path with the extension that its media type asks for.
pub open spec fn typed_name(name: Seq<char>, mimetype: Seq<char>) -> Seq<char> {
    let current = extension_after_dot(name);
    if html_mimetype(mimetype) && !(current matches Some(e) && html_extension(e)) {
        name + ".html"@
    } else {
        match mimetype_extension(mimetype) {
            Some(wanted) => if current matches Some(e) && extension_fits(e, wanted) {
                name
            } else {
                name + "."@ + wanted
            },
            None => name,
        }
    }
}

/// Whether a URL path stands for the index page of a directory.
pub open spec fn needs_index(names: Seq<Seq<char>>, url_path: Seq<char>, mimetype: Seq<char>) -> bool {
    ||| names.len() == 0
    ||| text::ends_with(url_path, "/"@)
    ||| html_mimetype(mimetype) && extension_after_dot(names.last()) is None
}

/// The names of the local path for a URL path.
pub open spec fn local_names(url_path: Seq<char>, mimetype: Seq<char>) -> Seq<Seq<char>> {
    let names = path_names(url_path);
    if needs_index(names, url_path, mimetype) {
        names.push("index.html"@)
    } else {
        names.drop_last().push(typed_name(names.last(), mimetype))
    }
}

/// A query key without a leading `amp;` left over from a twice-escaped ampersand.
pub open spec fn plain_key(key: Seq<char>) -> Seq<char> {
    if key.len() >= 4 && text::same_ignoring_case(key.take(4), "amp;"@) {
        key.skip(4)
    } else {
        key
    }
}

/// Whether a query key does not change what a page shows.
pub open spec fn volatile_key(key: Seq<char>) -> bool {
    let k = text::lower(plain_key(key));
    ||| k == "sid"@
    ||| k == "sessionid"@
    ||| k == "session_id"@
    ||| k == "phpsessid"@
    ||| k == "jsessionid"@
    ||| k == "aspsessionid"@
    ||| k == "cfid"@
    ||| k == "cftoken"@
    ||| k == "cron_type"@
    ||| k == "amp"@
    ||| k == "highlight"@
    ||| k == "mark"@
    ||| k == "postdays"@
    ||| k == "postorder"@
    ||| k == "sd"@
    ||| k == "sk"@
    ||| k == "ticket"@
    ||| k == "st"@
    ||| k == "view"@
}

/// The query pairs that matter, with plain keys, in the order in which they come.
pub open spec fn lasting_pairs(pairs: Seq<(Seq<char>, Seq<char>)>) -> Seq<(Seq<char>, Seq<char>)>
    decreases pairs.len(),
{
    if pairs.len() == 0 {
        Seq::empty()
    } else {
        let rest = lasting_pairs(pairs.drop_last());
        if volatile_key(plain_key(pairs.last().0)) {
            rest
        } else {
            rest.push((plain_key(pairs.last().0), pairs.last().1))
        }
    }
}

/// The query of a URL without what does not matter, in a fixed order.
pub open spec fn canonical_query(url: urls::UrlView) -> Option<Seq<char>> {
    let kept = lasting_pairs(url.pairs);
    if !(url.query matches Some(q) && q.len() > 0) || kept.len() == 0 {
        None
    } else {
        Some(urls::form_encoded(order::sort_of::<(Seq<char>, Seq<char>), order::ByPair>(kept)))
    }
}

/// A file name with the hash of a query before its extension.
pub open spec fn hashed_name(name: Seq<char>, query: Seq<char>) -> Seq<char> {
    let mark = "__q_"@ + numbers::text_hash(query);
    match text::rindex_of(name, '.', name.len() - 1) {
        Some(i) => if i > 0 {
            name.take(i) + mark + "."@ + name.skip(i + 1)
        } else {
            name + mark
        },
        None => name + mark,
    }
}

/// A path with the hash of a query in its file name.
pub open spec fn with_query_hash(p: path::PathView, query: Seq<char>) -> path::PathView {
    match p.file_name() {
        Some(name) => p.with_file_name(hashed_name(name, query)),
        None => path::PathView {
            absolute: p.absolute,
            parts: p.parts.push("query__q_"@ + numbers::text_hash(query)),
        },
    }
}

/// The directory in which the files of a host are kept.
pub open spec fn host_names(mapper: MapperView, host: Option<Seq<char>>) -> Seq<Seq<char>> {
    let name = host_name(
        match host {
            Some(h) => h,
            None => "unknown-host"@,
        },
    );
    if mapper.is_primary(name) {
        Seq::empty()
    } else {
        seq!["_hosts"@, safe_segment(name)]
    }
}

/// Whether a name is `_hosts`, perhaps with more underscores before it.
pub open spec fn is_host_folder(name: Seq<char>) -> bool {
    name.len() > "hosts"@.len() && text::trim_start_char(name, '_') == "hosts"@
}

/// Names of a file at the top of the saved site, kept apart from the directory of the other hosts:
/// a first name like that directory's gets one more underscore.
pub open spec fn kept_apart(names: Seq<Seq<char>>) -> Seq<Seq<char>> {
    if names.len() > 0 && is_host_folder(names[0]) {
        names.update(0, "_"@ + names[0])
    } else {
        names
    }
}

/// The names that `kept_apart` was given.
pub open spec fn put_back(names: Seq<Seq<char>>) -> Seq<Seq<char>> {
    if names.len() > 0 && is_host_folder(names[0]) && names[0] != "_hosts"@ {
        names.update(0, names[0].skip(1))
    } else {
        names
    }
}

/// The path of names, with the hash of the query of a URL in its file name where there is one.
pub open spec fn queried_path(names: Seq<Seq<char>>, url: urls::UrlView) -> path::PathView {
    let plain = path::PathView { absolute: false, parts: names };
    match canonical_query(url) {
        Some(query) => with_query_hash(plain, query),
        None => plain,
    }
}

/// The local path of a URL.
pub open spec fn local_path(
    mapper: MapperView,
    url: urls::UrlView,
    mimetype: Seq<char>,
) -> path::PathView {
    let hosts = host_names(mapper, url.host);
    let whole = queried_path(hosts + local_names(url.path, mimetype), url);
    if hosts.len() == 0 {
        path::PathView { parts: kept_apart(whole.parts), ..whole }
    } else {
        whole
    }
}

/// A host in lower case, without dots at its end.
pub fn normalize_host(host: &str) -> (r: String)
    ensures
        r@ == host_name(host@),
{
    let chars = text::chars_of(host);
    text::string_of(&text::lower_chars(&text::trim_end_chars(&chars, '.')))
}

/// The URL that a user means: without a scheme it is taken as `http`. A simple host name is a URL
/// with that host.
pub fn parse_user_url(input: &str) -> (r: Result<UrlParts, UrlError>)
    ensures
        urls::parse_view(r) == user_url(input@),
        urls::simple_host(input@) && input@.len() + 8 <= u32::MAX ==> (r matches Ok(url)
            && url@.host == Some(input@)),
{
    proof {
        if urls::simple_host(input@) {
            lemma_simple_host(input@);
        }
    }
    match urls::parse_url(input) {
        Ok(url) => Ok(url),
        Err(UrlError::RelativeUrlWithoutBase) => {
            let full = text::concat("http://", input);
            proof {
                let address = urls::Address {
                    scheme: "http"@,
                    host: input@,
                    port: ""@,
                    names: Seq::empty(),
                };
                reveal_strlit("http://");
                reveal_strlit("http");
                reveal_strlit("://");
                reveal_strlit("/");
                reveal_strlit("");
                assert("http://"@ == "http"@ + "://"@);
                assert(address.text() == full@ + "/"@);
                if urls::simple_host(input@) && input@.len() + 8 <= u32::MAX {
                    assert(address.is_simple());
                }
            }
            urls::parse_url(full.as_str())
        },
        Err(e) => Err(e),
    }
}

/// Replaces what cannot stand in a file name.
pub fn sanitize_segment(segment: &str) -> (r: String)
    ensures
        r@ == safe_segment(segment@),
{
    let chars = text::chars_of(segment);
    let mut cleaned: Vec<char> = Vec::new();
    let mut i: usize = 0;
    while i < chars.len()
        invariant
            i <= chars@.len(),
            chars@ == segment@,
            cleaned@ == masked(segment@).take(i as int),
        decreases chars@.len() - i,
    {
        let c = chars[i];
        let bad = c == '/' || c == '\\' || c == ':' || c == '*' || c == '?' || c == '"' || c == '<'
            || c == '>' || c == '|' || c.is_control();
        cleaned.push(if bad { '_' } else { c });
        i += 1;
        proof {
            let whole = masked(segment@);
            assert(whole.take(i as int) == whole.take(i - 1).push(whole[i - 1]));
        }
    }
    proof {
        assert(masked(segment@).take(segment@.len() as int) == masked(segment@));
    }
    let trimmed = text::trim_end_chars(&text::trim_start_chars(&cleaned, '.'), '.');
    if trimmed.len() == 0 {
        "_".to_owned()
    } else {
        text::string_of(&trimmed)
    }
}

/// The safe names of the segments of a URL path.
pub fn sanitized_path_names(url_path: &str) -> (r: Vec<String>)
    ensures
        text::views(r@) == path_names(url_path@),
{
    let mut names: Vec<String> = Vec::new();
    let segments = match urls::path_segments(url_path) {
        Some(segments) => segments,
        None => {
            assert(text::views(names@) == Seq::<Seq<char>>::empty());
            return names;
        },
    };
    let ghost all = text::views(segments@);
    let mut i: usize = 0;
    proof {
        assert(text::views(names@) == safe_segments(all.take(0)));
    }
    while i < segments.len()
        invariant
            i <= segments@.len(),
            all == text::views(segments@),
            text::views(names@) == safe_segments(all.take(i as int)),
        decreases segments@.len() - i,
    {
        let ghost before = text::views(names@);
        proof {
            assert(all.take(i + 1).drop_last() == all.take(i as int));
            assert(all.take(i + 1).last() == segments@[i as int]@);
        }
        if !segments[i].as_str().is_empty() {
            let name = sanitize_segment(segments[i].as_str());
            names.push(name);
            proof {
                assert(text::views(names@) == before.push(name@));
            }
        }
        i += 1;
    }
    proof {
        assert(all.take(all.len() as int) == all);
    }
    names
}

/// What follows the last dot of a name, unless that is nothing.
pub fn extension_of(name: &str) -> (r: Option<String>)
    ensures
        urls::option_view(r) == extension_after_dot(name@),
{
    let chars = text::chars_of(name);
    let n: usize = chars.len();
    match text::last_index(&chars, '.') {
        Some(i) => if i + 1 < n {
            proof {
                assert(chars@.subrange(i + 1, n as int) == chars@.skip(i + 1));
            }
            Some(text::cut_string(&chars, i + 1, n))
        } else {
            None
        },
        None => None,
    }
}

/// Whether an extension is one of HTML files.
pub fn is_html_extension(extension: &str) -> (r: bool)
    ensures
        r == html_extension(extension@),
{
    text::equal_ignoring_case(extension, "html") || text::equal_ignoring_case(extension, "htm")
        || text::equal_ignoring_case(extension, "xhtml")
}

/// Whether a media type is that of HTML pages.
pub fn is_html_mimetype(mimetype: &str) -> (r: bool)
    ensures
        r == html_mimetype(mimetype@),
{
    text::equal_ignoring_case(mimetype, "text/html") || text::equal_ignoring_case(
        mimetype,
        "application/xhtml+xml",
    )
}

/// Whether a media type is that of style sheets.
pub fn is_css_mimetype(mimetype: &str) -> (r: bool)
    ensures
        r == css_mimetype(mimetype@),
{
    text::equal_ignoring_case(mimetype, "text/css")
}

/// A media type without parameters, in lower case.
pub fn bare_mimetype_chars(mimetype: &str) -> (r: Vec<char>)
    ensures
        r@ == bare_mimetype(mimetype@),
{
    let chars = text::chars_of(mimetype);
    let end: usize = match text::index_from(&chars, ';', 0) {
        Some(i) => i,
        None => chars.len(),
    };
    let base = text::part(&chars, 0, end);
    proof {
        assert(mimetype@.subrange(0, mimetype@.len() as int) == mimetype@);
        assert(mimetype@.subrange(0, end as int) == mimetype@.take(end as int));
    }
    text::lower_chars(&text::trim_chars(&base))
}

/// The extension that files of a media type have.
fn extension_for_mimetype(mimetype: &str) -> (r: Option<&'static str>)
    ensures
        match r {
            Some(e) => mimetype_extension(mimetype@) == Some(e@),
            None => mimetype_extension(mimetype@) is None,
        },
{
    let m = bare_mimetype_chars(mimetype);
    if text::is(&m, "application/atom+xml") || text::is(&m, "application/rss+xml") || text::is(
        &m,
        "application/xml",
    ) || text::is(&m, "text/xml") {
        Some("xml")
    } else if text::is(&m, "application/javascript") || text::is(&m, "application/x-javascript")
        || text::is(&m, "text/javascript") {
        Some("js")
    } else if text::is(&m, "application/json") {
        Some("json")
    } else if text::is(&m, "application/pdf") {
        Some("pdf")
    } else if text::is(&m, "font/ttf") {
        Some("ttf")
    } else if text::is(&m, "font/woff") {
        Some("woff")
    } else if text::is(&m, "font/woff2") {
        Some("woff2")
    } else if text::is(&m, "image/gif") {
        Some("gif")
    } else if text::is(&m, "image/jpeg") || text::is(&m, "image/jpg") {
        Some("jpg")
    } else if text::is(&m, "image/png") {
        Some("png")
    } else if text::is(&m, "image/svg+xml") {
        Some("svg")
    } else if text::is(&m, "image/webp") {
        Some("webp")
    } else if text::is(&m, "image/x-icon") {
        Some("ico")
    } else if text::is(&m, "text/css") {
        Some("css")
    } else if text::is(&m, "text/plain") {
        Some("txt")
    } else {
        None
    }
}

/// Whether a file extension already stands for a media type's extension.
fn extension_matches_mimetype(extension: &str, wanted: &str) -> (r: bool)
    ensures
        r == extension_fits(extension@, wanted@),
{
    if text::equal_ignoring_case(extension, wanted) {
        return true;
    }
    (text::same(wanted, "jpg") && (text::equal_ignoring_case(extension, "jpeg")
        || text::equal_ignoring_case(extension, "jpe"))) || (text::same(wanted, "js")
        && text::equal_ignoring_case(extension, "mjs")) || (text::same(wanted, "xml") && (
    text::equal_ignoring_case(extension, "rss") || text::equal_ignoring_case(extension, "atom")))
}

/// The last name of a path with the extension that its media type asks for.
fn typed_file_name(name: &str, mimetype: &str) -> (r: String)
    ensures
        r@ == typed_name(name@, mimetype@),
{
    let current = extension_of(name);
    let is_html = match &current {
        Some(e) => is_html_extension(e.as_str()),
        None => false,
    };
    if is_html_mimetype(mimetype) && !is_html {
        return text::concat(name, ".html");
    }
    match extension_for_mimetype(mimetype) {
        Some(wanted) => {
            let fits = match &current {
                Some(e) => extension_matches_mimetype(e.as_str(), wanted),
                None => false,
            };
            if fits {
                name.to_owned()
            } else {
                let dotted = text::concat(name, ".");
                text::concat(dotted.as_str(), wanted)
            }
        },
        None => name.to_owned(),
    }
}

/// Whether a name is `_hosts`, perhaps with more underscores before it.
fn is_host_folder_name(name: &str) -> (r: bool)
    ensures
        r == is_host_folder(name@),
{
    let chars = text::chars_of(name);
    let hosts = text::chars_of("hosts");
    let bare = text::trim_start_chars(&chars, '_');
    chars.len() > hosts.len() && text::equal(&bare, &hosts)
}

/// Keeps a path at the top of the saved site apart from the directory of the other hosts.
pub fn keep_apart(p: &mut LocalPath)
    ensures
        final(p)@ == (path::PathView { parts: kept_apart(old(p)@.parts), ..old(p)@ }),
{
    if p.parts.len() > 0 && is_host_folder_name(p.parts[0].as_str()) {
        let ghost before = text::views(p.parts@);
        let name = text::concat("_", p.parts[0].as_str());
        p.parts.set(0, name);
        proof {
            assert(text::views(p.parts@) == before.update(0, name@));
        }
    }
}

/// Takes back what `keep_apart` does to names.
fn names_put_back(names: &mut Vec<String>)
    ensures
        text::views(final(names)@) == put_back(text::views(old(names)@)),
{
    if names.len() > 0 && is_host_folder_name(names[0].as_str()) && !text::same(
        names[0].as_str(),
        "_hosts",
    ) {
        let ghost before = text::views(names@);
        let chars = text::chars_of(names[0].as_str());
        let name = text::cut_string(&chars, 1, chars.len());
        proof {
            assert(name@ == before[0].skip(1));
        }
        names.set(0, name);
        proof {
            assert(text::views(names@) == before.update(0, name@));
        }
    }
}

/// The names of the local path for a URL path.
pub fn local_path_names(url_path: &str, mimetype: &str) -> (r: Vec<String>)
    ensures
        text::views(r@) == local_names(url_path@, mimetype@),
{
    let mut names = sanitized_path_names(url_path);
    let ghost before = text::views(names@);
    let count: usize = names.len();
    let index = count == 0 || text::has_suffix(url_path, "/") || (is_html_mimetype(mimetype)
        && extension_of(names[count - 1].as_str()).is_none());
    if index {
        names.push("index.html".to_owned());
        proof {
            assert(text::views(names@) == before.push("index.html"@));
        }
    } else {
        let name = typed_file_name(names[count - 1].as_str(), mimetype);
        names.truncate(count - 1);
        proof {
            assert(text::views(names@) == before.drop_last());
        }
        names.push(name);
        proof {
            assert(text::views(names@) == before.drop_last().push(name@));
        }
    }
    names
}

/// A query key without a leading `amp;`.
pub fn normalized_query_key(key: &str) -> (r: String)
    ensures
        r@ == plain_key(key@),
{
    let chars = text::chars_of(key);
    if chars.len() >= 4 {
        let front = text::cut_string(&chars, 0, 4);
        proof {
            assert(key@.subrange(0, 4) == key@.take(4));
            assert(key@.subrange(4, key@.len() as int) == key@.skip(4));
        }
        if text::equal_ignoring_case(front.as_str(), "amp;") {
            return text::cut_string(&chars, 4, chars.len());
        }
    }
    key.to_owned()
}

/// Whether a query key does not change what a page shows.
pub fn is_volatile_query_key(key: &str) -> (r: bool)
    ensures
        r == volatile_key(key@),
{
    let plain = normalized_query_key(key);
    let k = text::lower_chars(&text::chars_of(plain.as_str()));
    text::is(&k, "sid") || text::is(&k, "sessionid") || text::is(&k, "session_id") || text::is(
        &k,
        "phpsessid",
    ) || text::is(&k, "jsessionid") || text::is(&k, "aspsessionid") || text::is(&k, "cfid")
        || text::is(&k, "cftoken") || text::is(&k, "cron_type") || text::is(&k, "amp") || text::is(
        &k,
        "highlight",
    ) || text::is(&k, "mark") || text::is(&k, "postdays") || text::is(&k, "postorder") || text::is(
        &k,
        "sd",
    ) || text::is(&k, "sk") || text::is(&k, "ticket") || text::is(&k, "st") || text::is(&k, "view")
}

/// The query pairs that matter, with plain keys.
pub fn lasting_query_pairs(pairs: &Vec<(String, String)>) -> (r: Vec<(String, String)>)
    ensures
        urls::pair_views(r@) == lasting_pairs(urls::pair_views(pairs@)),
{
    let ghost all = urls::pair_views(pairs@);
    let mut kept: Vec<(String, String)> = Vec::new();
    let mut i: usize = 0;
    proof {
        assert(urls::pair_views(kept@) == lasting_pairs(all.take(0)));
    }
    while i < pairs.len()
        invariant
            i <= pairs@.len(),
            all == urls::pair_views(pairs@),
            urls::pair_views(kept@) == lasting_pairs(all.take(i as int)),
        decreases pairs@.len() - i,
    {
        let ghost before = urls::pair_views(kept@);
        proof {
            assert(all.take(i + 1).drop_last() == all.take(i as int));
            assert(all.take(i + 1).last() == (pairs@[i as int].0@, pairs@[i as int].1@));
        }
        let key = normalized_query_key(pairs[i].0.as_str());
        if !is_volatile_query_key(key.as_str()) {
            let value = pairs[i].1.clone();
            kept.push((key, value));
            proof {
                assert(urls::pair_views(kept@) == before.push((key@, value@)));
            }
        }
        i += 1;
    }
    proof {
        assert(all.take(all.len() as int) == all);
    }
    kept
}

/// The query of a URL without what does not matter, in a fixed order.
pub fn canonical_query_without_volatile_params(url: &UrlParts) -> (r: Option<String>)
    ensures
        urls::option_view(r) == canonical_query(url@),
{
    match &url.query {
        Some(q) => if q.as_str().is_empty() {
            return None;
        },
        None => {
            return None;
        },
    }
    let kept = lasting_query_pairs(&url.pairs);
    if kept.len() == 0 {
        return None;
    }
    let sorted = order::sort::<(String, String), order::ByPair>(kept);
    proof {
        assert(urls::pair_views(kept@) == order::keys(kept@));
        assert(urls::pair_views(sorted@) == order::keys(sorted@));
    }
    Some(urls::form_encode(&sorted))
}

/// A file name with the hash of a query before its extension.
fn hashed_file_name(name: &str, query: &str) -> (r: String)
    ensures
        r@ == hashed_name(name@, query@),
{
    let chars = text::chars_of(name);
    let n: usize = chars.len();
    let hash = numbers::hash_chars(query);
    let dot: Option<usize> = match text::last_index(&chars, '.') {
        Some(i) => if i > 0 {
            Some(i)
        } else {
            None
        },
        None => None,
    };
    let mut out: Vec<char> = Vec::new();
    match dot {
        Some(i) => {
            text::push_chars(&mut out, &text::part(&chars, 0, i));
            text::push_text(&mut out, "__q_");
            text::push_chars(&mut out, &hash);
            text::push_text(&mut out, ".");
            text::push_chars(&mut out, &text::part(&chars, i + 1, n));
            proof {
                assert(chars@.subrange(0, i as int) == name@.take(i as int));
                assert(chars@.subrange(i + 1, n as int) == name@.skip(i + 1));
                assert(out@ == name@.take(i as int) + ("__q_"@ + hash@) + "."@ + name@.skip(i + 1));
            }
        },
        None => {
            text::push_chars(&mut out, &chars);
            text::push_text(&mut out, "__q_");
            text::push_chars(&mut out, &hash);
            proof {
                assert(out@ == name@ + ("__q_"@ + hash@));
            }
        },
    }
    text::string_of(&out)
}

/// A path with the hash of a query in its file name.
pub fn append_query_hash(p: &LocalPath, query: &str) -> (r: LocalPath)
    ensures
        r@ == with_query_hash(p@, query@),
{
    match p.file_name() {
        Some(name) => p.with_file_name(hashed_file_name(name.as_str(), query).as_str()),
        None => {
            let hash = text::string_of(&numbers::hash_chars(query));
            p.child(text::concat("query__q_", hash.as_str()).as_str())
        },
    }
}

/// A lookup key for a URL: without its fragment, with its host in lower case and only the query
/// pairs that matter.
pub open spec fn lookup_key(input: Seq<char>) -> Seq<char> {
    match urls::url_parse(input) {
        Ok(url) => normal_href(input, url),
        Err(_) => input,
    }
}

/// The value, or the other one where there is none.
pub open spec fn or_else(value: Option<Seq<char>>, other: Seq<char>) -> Seq<char> {
    match value {
        Some(v) => v,
        None => other,
    }
}

/// The lookup key of a URL that was read as `url`.
pub open spec fn normal_href(input: Seq<char>, url: urls::UrlView) -> Seq<char> {
    let plain = or_else(urls::url_without_fragment(input), url.href);
    let hosted = match url.host {
        Some(host) => or_else(urls::url_with_host(plain, host_name(host)), plain),
        None => plain,
    };
    or_else(urls::url_with_query(hosted, canonical_query(url)), hosted)
}

/// The lookup key of a URL that was read as `url`.
pub fn normalize_parsed_url(input: &str, url: &UrlParts) -> (r: String)
    ensures
        r@ == normal_href(input@, url@),
{
    let plain = match urls::without_fragment(input) {
        Some(u) => u,
        None => url.href.clone(),
    };
    let hosted = match &url.host {
        Some(host) => {
            let name = normalize_host(host.as_str());
            match urls::with_host(plain.as_str(), name.as_str()) {
                Some(u) => u,
                None => plain,
            }
        },
        None => plain,
    };
    let query = canonical_query_without_volatile_params(url);
    match urls::with_query(hosted.as_str(), &query) {
        Some(u) => u,
        None => hosted,
    }
}

/// A lookup key for a URL: without its fragment, with its host in lower case and only the query
/// pairs that matter. What is no URL is its own key.
pub fn normalize_lookup_url(input: &str) -> (r: String)
    ensures
        r@ == lookup_key(input@),
{
    match urls::parse_url(input) {
        Ok(url) => normalize_parsed_url(input, &url),
        Err(_) => input.to_owned(),
    }
}

impl SiteMapper {
    /// The mapper for the site that a user means.
    pub fn new(input: &str) -> (r: Result<SiteMapper, TargetError>)
        ensures
            match r {
                Ok(mapper) => user_url(input@) matches Ok(url) && url.host matches Some(host)
                    && mapper@ == mapper_for(host),
                Err(TargetError::Invalid) => user_url(input@) is Err,
                Err(TargetError::MissingHost) => user_url(input@) matches Ok(url) && url.host is None,
            },
            urls::simple_host(input@) && input@.len() + 8 <= u32::MAX ==> (r matches Ok(mapper)
                && mapper@ == mapper_for(input@)),
    {
        match parse_user_url(input) {
            Ok(url) => match &url.host {
                Some(host) => Ok(SiteMapper::for_host(host.as_str())),
                None => Err(TargetError::MissingHost),
            },
            Err(_) => Err(TargetError::Invalid),
        }
    }

    /// The mapper for the site with a host.
    pub fn for_host(host: &str) -> (r: SiteMapper)
        ensures
            r@ == mapper_for(host@),
    {
        let name = normalize_host(host);
        let chars = text::chars_of(name.as_str());
        let www = text::chars_of("www.");
        let other = if text::is_at(&chars, &www, 0) {
            proof {
                assert(chars@.subrange(www@.len() as int, chars@.len() as int) == name@.skip(
                    "www."@.len() as int,
                ));
            }
            text::cut_string(&chars, www.len(), chars.len())
        } else {
            text::concat("www.", name.as_str())
        };
        let mut hosts: Vec<String> = Vec::new();
        hosts.push(name.clone());
        hosts.push(other);
        proof {
            assert(text::views(hosts@) == seq![name@, other@]);
        }
        SiteMapper { root_host: name, primary_hosts: order::sort_dedup(hosts) }
    }

    /// The host to ask the archive's index for.
    pub fn cdx_target(&self) -> (r: &str)
        ensures
            r@ == self@.root_host,
    {
        self.root_host.as_str()
    }

    /// The hosts that are kept at the top of the saved site.
    pub fn primary_hosts(&self) -> (r: &Vec<String>)
        ensures
            text::views(r@) == self@.primary_hosts,
    {
        &self.primary_hosts
    }

    /// Whether a host is kept at the top of the saved site.
    pub fn is_primary_host(&self, host: &str) -> (r: bool)
        ensures
            r == self@.is_primary(host@),
    {
        let name = normalize_host(host);
        let mut i: usize = 0;
        while i < self.primary_hosts.len()
            invariant
                i <= self.primary_hosts@.len(),
                name@ == host_name(host@),
                forall|j: int|
                    0 <= j < i ==> !text::same_ignoring_case(
                        #[trigger] self@.primary_hosts[j],
                        host_name(host@),
                    ),
            decreases self.primary_hosts@.len() - i,
        {
            if text::equal_ignoring_case(self.primary_hosts[i].as_str(), name.as_str()) {
                assert(text::same_ignoring_case(self@.primary_hosts[i as int], host_name(host@)));
                return true;
            }
            i += 1;
        }
        false
    }

    /// Whether a host is a primary host or a subdomain of the site.
    pub fn is_related_host(&self, host: &str) -> (r: bool)
        ensures
            r == self@.is_related(host@),
    {
        if self.is_primary_host(host) {
            return true;
        }
        let name = normalize_host(host);
        let root = text::chars_of(self.root_host.as_str());
        let www = text::chars_of("www.");
        let base = if text::is_at(&root, &www, 0) {
            proof {
                assert(root@.subrange(www@.len() as int, root@.len() as int) == root@.skip(
                    "www."@.len() as int,
                ));
            }
            text::cut_string(&root, www.len(), root.len())
        } else {
            self.root_host.clone()
        };
        text::has_suffix(name.as_str(), text::concat(".", base.as_str()).as_str())
    }

    /// The local path of a URL that was read before.
    pub fn local_path_for_parts(&self, url: &UrlParts, mimetype: &str) -> (r: LocalPath)
        ensures
            r@ == local_path(self@, url@, mimetype@),
    {
        let host = match &url.host {
            Some(h) => normalize_host(h.as_str()),
            None => normalize_host("unknown-host"),
        };
        let mut plain = LocalPath::empty();
        proof {
            assert(text::views(plain.parts@) == Seq::<Seq<char>>::empty());
            assert(text::views(plain.parts@).len() == plain.parts@.len());
        }
        let primary = self.is_primary_host(host.as_str());
        if !primary {
            let folder = sanitize_segment(host.as_str());
            plain.parts.push("_hosts".to_owned());
            plain.parts.push(folder);
            proof {
                assert(text::views(plain.parts@) == seq!["_hosts"@, folder@]);
            }
        }
        proof {
            assert(text::views(plain.parts@) == host_names(self@, url@.host));
        }
        let ghost before = text::views(plain.parts@);
        let mut names = local_path_names(url.path.as_str(), mimetype);
        let ghost rest = text::views(names@);
        plain.parts.append(&mut names);
        proof {
            assert(text::views(plain.parts@) == before + rest);
        }
        let mut whole = match canonical_query_without_volatile_params(url) {
            Some(query) => append_query_hash(&plain, query.as_str()),
            None => plain,
        };
        if primary {
            keep_apart(&mut whole);
        }
        whole
    }

    /// The local path of a URL.
    pub fn local_path_for_url(&self, original: &str, mimetype: &str) -> (r: Result<
        LocalPath,
        UrlError,
    >)
        ensures
            match r {
                Ok(p) => urls::url_parse(original@) matches Ok(url) && p@ == local_path(
                    self@,
                    url,
                    mimetype@,
                ) && urls::pairs_come_from_query(url),
                Err(e) => urls::url_parse(original@) == Err::<urls::UrlView, UrlError>(e),
            },
            urls::reads_as_written(original@, urls::url_parse(original@)),
    {
        match urls::parse_url(original) {
            Ok(url) => Ok(self.local_path_for_parts(&url, mimetype)),
            Err(e) => Err(e),
        }
    }

    /// The local paths of the records, by lookup key; a later record takes the key of an earlier
    /// one.
    pub fn records_to_paths(&self, records: &Vec<CdxRecord>) -> (r: Result<
        TextMap<LocalPath>,
        UrlError,
    >)
        ensures
            match r {
                Ok(paths) => mapped_paths(self@, cdx::record_views(records@)) == Ok::<
                    Map<Seq<char>, path::PathView>,
                    UrlError,
                >(paths@),
                Err(e) => mapped_paths(self@, cdx::record_views(records@)) == Err::<
                    Map<Seq<char>, path::PathView>,
                    UrlError,
                >(e),
            },
    {
        let ghost all = cdx::record_views(records@);
        let mut paths: TextMap<LocalPath> = TextMap::new();
        let mut i: usize = 0;
        while i < records.len()
            invariant
                i <= records@.len(),
                all == cdx::record_views(records@),
                mapped_paths(self@, all.take(i as int)) == Ok::<
                    Map<Seq<char>, path::PathView>,
                    UrlError,
                >(paths@),
            decreases records@.len() - i,
        {
            proof {
                assert(all.take(i + 1).drop_last() == all.take(i as int));
                assert(all.take(i + 1).last() == records@[i as int]@);
            }
            let record = &records[i];
            let key = normalize_lookup_url(record.original.as_str());
            match self.local_path_for_url(record.original.as_str(), record.mimetype.as_str()) {
                Ok(p) => paths.insert(key.as_str(), p),
                Err(e) => {
                    proof {
                        lemma_mapped_paths_error(self@, all, i + 1, e);
                    }
                    return Err(e);
                },
            }
            i += 1;
        }
        proof {
            assert(all.take(all.len() as int) == all);
        }
        Ok(paths)
    }

    /// The URLs that a local path may stand for, in order, each once. Those of a path of the site
    /// are its addresses on the primary hosts, where these are simple.
    pub fn original_url_candidates_for_local_path(&self, local: &LocalPath) -> (r: Vec<String>)
        ensures
            text::views(r@) == url_candidates(self@, local@),
            ({
                let names = plain_names(local@.parts);
                names.len() > 0 && !(names.len() >= 3 && names[0] == "_hosts"@)
                    ==> candidates_are_addresses(self@.primary_hosts, put_back(names))
            }),
    {
        let mut names: Vec<String> = Vec::new();
        let mut i: usize = 0;
        proof {
            assert(text::views(names@) == plain_names(local@.parts.take(0)));
        }
        while i < local.parts.len()
            invariant
                i <= local.parts@.len(),
                text::views(names@) == plain_names(local@.parts.take(i as int)),
            decreases local.parts@.len() - i,
        {
            let ghost before = text::views(names@);
            proof {
                assert(local@.parts.take(i + 1).drop_last() == local@.parts.take(i as int));
                assert(local@.parts.take(i + 1).last() == local.parts@[i as int]@);
            }
            let part = local.parts[i].as_str();
            if !text::same(part, ".") && !text::same(part, "..") {
                names.push(local.parts[i].clone());
                proof {
                    assert(text::views(names@) == before.push(part@));
                }
            }
            i += 1;
        }
        let ghost all = text::views(names@);
        proof {
            assert(local@.parts.take(local@.parts.len() as int) == local@.parts);
            assert(all == plain_names(local@.parts));
        }
        let mut found: Vec<String> = Vec::new();
        if names.len() == 0 {
            assert(text::views(found@) == Seq::<Seq<char>>::empty());
            return found;
        }
        if names.len() >= 3 && text::same(names[0].as_str(), "_hosts") {
            let rest = names.split_off(2);
            proof {
                assert(text::views(rest@) == all.skip(2));
                assert(names@[1]@ == all[1]);
            }
            push_host_candidates(&mut found, names[1].as_str(), &rest);
            proof {
                assert(text::views(found@) == host_candidates(all[1], all.skip(2)));
            }
        } else {
            names_put_back(&mut names);
            let ghost all = put_back(all);
            let mut h: usize = 0;
            proof {
                assert(text::views(found@) == hosts_candidates(self@.primary_hosts.take(0), all));
            }
            while h < self.primary_hosts.len()
                invariant
                    h <= self.primary_hosts@.len(),
                    all == text::views(names@),
                    text::views(found@) == hosts_candidates(self@.primary_hosts.take(h as int), all),
                    candidates_are_addresses(self@.primary_hosts.take(h as int), all),
                decreases self.primary_hosts@.len() - h,
            {
                proof {
                    let upto = self@.primary_hosts.take(h + 1);
                    assert(upto.drop_last() == self@.primary_hosts.take(h as int));
                    assert(upto.last() == self.primary_hosts@[h as int]@);
                }
                push_host_candidates(&mut found, self.primary_hosts[h].as_str(), &names);
                proof {
                    let upto = self@.primary_hosts.take(h + 1);
                    assert forall|i: int| 0 <= i < upto.len() implies candidate_is_address(
                        "http"@,
                        #[trigger] upto[i],
                        all,
                    ) && candidate_is_address("https"@, upto[i], all) by {
                        if i < h {
                            assert(upto[i] == self@.primary_hosts.take(h as int)[i]);
                        }
                    }
                }
                h += 1;
            }
            proof {
                assert(self@.primary_hosts.take(self@.primary_hosts.len() as int)
                    == self@.primary_hosts);
            }
        }
        order::sort_dedup(found)
    }
}

/// The local paths of the records, by lookup key, or the error of the first that is no URL.
pub open spec fn mapped_paths(mapper: MapperView, records: Seq<cdx::RecordView>) -> Result<
    Map<Seq<char>, path::PathView>,
    UrlError,
>
    decreases records.len(),
{
    if records.len() == 0 {
        Ok(Map::empty())
    } else {
        match mapped_paths(mapper, records.drop_last()) {
            Ok(paths) => match urls::url_parse(records.last().original) {
                Ok(url) => Ok(
                    paths.insert(
                        lookup_key(records.last().original),
                        local_path(mapper, url, records.last().mimetype),
                    ),
                ),
                Err(e) => Err(e),
            },
            Err(e) => Err(e),
        }
    }
}

/// An error among the first records is the error of all.
proof fn lemma_mapped_paths_error(
    mapper: MapperView,
    records: Seq<cdx::RecordView>,
    k: int,
    e: UrlError,
)
    requires
        0 <= k <= records.len(),
        mapped_paths(mapper, records.take(k)) == Err::<Map<Seq<char>, path::PathView>, UrlError>(e),
    ensures
        mapped_paths(mapper, records) == Err::<Map<Seq<char>, path::PathView>, UrlError>(e),
    decreases records.len() - k,
{
    if k == records.len() {
        assert(records.take(k) == records);
    } else {
        assert(records.take(k + 1).drop_last() == records.take(k));
        lemma_mapped_paths_error(mapper, records, k + 1, e);
    }
}

/// The components that are ordinary names.
pub open spec fn plain_names(parts: Seq<Seq<char>>) -> Seq<Seq<char>>
    decreases parts.len(),
{
    if parts.len() == 0 {
        Seq::empty()
    } else if path::is_normal(parts.last()) {
        plain_names(parts.drop_last()).push(parts.last())
    } else {
        plain_names(parts.drop_last())
    }
}

/// The URL of a path on a host.
pub open spec fn candidate_url(
    scheme: Seq<char>,
    host: Seq<char>,
    names: Seq<Seq<char>>,
) -> Option<Seq<char>> {
    urls::url_with_segments(scheme + "://"@ + host + "/"@, names)
}

/// Whether the URL of a path on a host is their address, where that is a simple one.
pub open spec fn candidate_is_address(
    scheme: Seq<char>,
    host: Seq<char>,
    names: Seq<Seq<char>>,
) -> bool {
    let address = urls::Address { scheme, host, port: ""@, names };
    address.is_simple() ==> candidate_url(scheme, host, names) == Some(address.text())
}

/// Whether the URLs of a path on several hosts are their addresses, where those are simple ones.
pub open spec fn candidates_are_addresses(hosts: Seq<Seq<char>>, names: Seq<Seq<char>>) -> bool {
    forall|i: int|
        0 <= i < hosts.len() ==> candidate_is_address("http"@, #[trigger] hosts[i], names)
            && candidate_is_address("https"@, hosts[i], names)
}

/// The URL with the default port written out, where `candidate` is on the host.
pub open spec fn with_port(candidate: Seq<char>, host: Seq<char>) -> Seq<Seq<char>> {
    let front = "http"@ + "://"@ + host + "/"@;
    if text::starts_with(candidate, front) {
        seq!["http"@ + "://"@ + host + ":80/"@ + candidate.skip(front.len() as int)]
    } else {
        Seq::empty()
    }
}

/// The URLs of a path on one host.
pub open spec fn host_candidates(host: Seq<char>, names: Seq<Seq<char>>) -> Seq<Seq<char>> {
    let plain = match candidate_url("http"@, host, names) {
        Some(c) => with_port(c, host).push(c),
        None => Seq::empty(),
    };
    match candidate_url("https"@, host, names) {
        Some(c) => plain.push(c),
        None => plain,
    }
}

/// The URLs of a path on several hosts.
pub open spec fn hosts_candidates(hosts: Seq<Seq<char>>, names: Seq<Seq<char>>) -> Seq<Seq<char>>
    decreases hosts.len(),
{
    if hosts.len() == 0 {
        Seq::empty()
    } else {
        hosts_candidates(hosts.drop_last(), names) + host_candidates(hosts.last(), names)
    }
}

/// The URLs that a local path may stand for.
pub open spec fn url_candidates(mapper: MapperView, local: path::PathView) -> Seq<Seq<char>> {
    let names = plain_names(local.parts);
    if names.len() == 0 {
        Seq::empty()
    } else if names.len() >= 3 && names[0] == "_hosts"@ {
        order::sort_dedup_of(host_candidates(names[1], names.skip(2)))
    } else {
        order::sort_dedup_of(hosts_candidates(mapper.primary_hosts, put_back(names)))
    }
}

/// The URL of a path on a host.
fn build_original_url_candidate(scheme: &str, host: &str, names: &Vec<String>) -> (r: Option<
    String,
>)
    ensures
        urls::option_view(r) == candidate_url(scheme@, host@, text::views(names@)),
        candidate_is_address(scheme@, host@, text::views(names@)),
{
    let mut base = text::chars_of(scheme);
    text::push_text(&mut base, "://");
    text::push_text(&mut base, host);
    text::push_text(&mut base, "/");
    let ghost address = urls::Address {
        scheme: scheme@,
        host: host@,
        port: ""@,
        names: text::views(names@),
    };
    let r = urls::with_segments(text::string_of(&base).as_str(), names);
    proof {
        if address.is_simple() {
            assert(urls::option_view(r) == Some(address.text()));
        }
    }
    r
}

/// Appends the URLs of a path on one host.
fn push_host_candidates(found: &mut Vec<String>, host: &str, names: &Vec<String>)
    ensures
        text::views(final(found)@) == text::views(old(found)@) + host_candidates(
            host@,
            text::views(names@),
        ),
        candidate_is_address("http"@, host@, text::views(names@)),
        candidate_is_address("https"@, host@, text::views(names@)),
{
    let ghost start = text::views(found@);
    if let Some(candidate) = build_original_url_candidate("http", host, names) {
        let mut front = text::chars_of("http");
        text::push_text(&mut front, "://");
        text::push_text(&mut front, host);
        let mut ported: Vec<char> = text::part(&front, 0, front.len());
        text::push_text(&mut front, "/");
        text::push_text(&mut ported, ":80/");
        let chars = text::chars_of(candidate.as_str());
        if text::is_at(&chars, &front, 0) {
            let rest = text::part(&chars, front.len(), chars.len());
            text::push_chars(&mut ported, &rest);
            let extra = text::string_of(&ported);
            found.push(extra);
            proof {
                assert(rest@ == candidate@.skip(front@.len() as int));
                assert(extra@ == "http"@ + "://"@ + host@ + ":80/"@ + rest@);
                assert(text::views(found@) == start.push(extra@));
                assert(text::views(found@) == start + with_port(candidate@, host@));
            }
        } else {
            assert(text::views(found@) == start + with_port(candidate@, host@));
        }
        let ghost middle = text::views(found@);
        found.push(candidate);
        proof {
            assert(text::views(found@) == middle.push(candidate@));
            assert(text::views(found@) == start + with_port(candidate@, host@).push(candidate@));
        }
    }
    let ghost middle = text::views(found@);
    if let Some(candidate) = build_original_url_candidate("https", host, names) {
        found.push(candidate);
        proof {
            assert(text::views(found@) == middle.push(candidate@));
        }
    }
}

/// The link from one file of the saved site to another.
pub fn relative_link(from_file: &LocalPath, to_file: &LocalPath) -> (r: String)
    ensures
        r@ == path::relative_link_of(from_file@, to_file@),
{
    let parts = path::link_part_list(from_file, to_file);
    if parts.len() == 0 {
        ".".to_owned()
    } else {
        text::join_strings(&parts, "/")
    }
}

/// The original URL inside a replay URL of the archive, with its query where that is kept.
pub open spec fn unwrapped_parts(
    value: Seq<char>,
    url: urls::UrlView,
    keep_query: bool,
) -> Seq<char> {
    let front = "/web/"@;
    if url.host matches Some(host) && text::same_ignoring_case(host, "web.archive.org"@)
        && text::starts_with(url.path, front) {
        let rest = url.path.skip(front.len() as int);
        match text::index_of(rest, '/', 0) {
            Some(i) => match url.query {
                Some(query) => if keep_query {
                    rest.skip(i + 1) + "?"@ + query
                } else {
                    rest.skip(i + 1)
                },
                None => rest.skip(i + 1),
            },
            None => value,
        }
    } else {
        value
    }
}

/// A reference without the archive's replay URL around it.
pub open spec fn unwrapped(value: Seq<char>) -> Seq<char> {
    match urls::url_parse(value) {
        Ok(url) => unwrapped_parts(value, url, true),
        Err(_) => value,
    }
}

/// A reference without the archive's replay URL around it, and without a query behind that.
pub open spec fn unwrapped_path(value: Seq<char>) -> Seq<char> {
    match urls::url_parse(value) {
        Ok(url) => unwrapped_parts(value, url, false),
        Err(_) => value,
    }
}

/// The original URL inside a replay URL that was read before.
pub fn unwrap_wayback_parts(value: &str, url: &UrlParts, keep_query: bool) -> (r: String)
    ensures
        r@ == unwrapped_parts(value@, url@, keep_query),
{
    let at_archive = match &url.host {
        Some(host) => text::equal_ignoring_case(host.as_str(), "web.archive.org"),
        None => false,
    };
    let path = text::chars_of(url.path.as_str());
    let front = text::chars_of("/web/");
    if !at_archive || !text::is_at(&path, &front, 0) {
        return value.to_owned();
    }
    let rest = text::part(&path, front.len(), path.len());
    let n: usize = rest.len();
    proof {
        assert(rest@ == url.path@.skip(front@.len() as int));
    }
    match text::index_from(&rest, '/', 0) {
        Some(i) => {
            let mut original = text::part(&rest, i + 1, n);
            proof {
                assert(original@ == rest@.skip(i + 1));
            }
            if let Some(query) = &url.query {
                if keep_query {
                    text::push_text(&mut original, "?");
                    text::push_text(&mut original, query.as_str());
                }
            }
            text::string_of(&original)
        },
        None => value.to_owned(),
    }
}

/// A reference without the archive's replay URL around it.
pub fn unwrap_wayback_url(value: &str) -> (r: String)
    ensures
        r@ == unwrapped(value@),
{
    match urls::parse_url(value) {
        Ok(url) => unwrap_wayback_parts(value, &url, true),
        Err(_) => value.to_owned(),
    }
}

/// A reference without the archive's replay URL around it, and without a query behind that.
pub fn unwrap_wayback_path(value: &str) -> (r: String)
    ensures
        r@ == unwrapped_path(value@),
{
    match urls::parse_url(value) {
        Ok(url) => unwrap_wayback_parts(value, &url, false),
        Err(_) => value.to_owned(),
    }
}

/// Trimming a character at both ends leaves a text that neither starts nor ends with it, and holds
/// no other characters than before.
proof fn lemma_trimmed(s: Seq<char>, x: char)
    ensures
        ({
            let r = text::trim_end_char(text::trim_start_char(s, x), x);
            &&& r.len() > 0 ==> r[0] != x
            &&& forall|c: char| #[trigger] r.contains(c) ==> s.contains(c)
        }),
{
    lemma_trimmed_start(s, x);
    lemma_trimmed_end(text::trim_start_char(s, x), x);
}

/// A text trimmed at its start does not start with what was trimmed.
proof fn lemma_trimmed_start(s: Seq<char>, x: char)
    ensures
        text::trim_start_char(s, x).len() > 0 ==> text::trim_start_char(s, x)[0] != x,
        forall|c: char| #[trigger] text::trim_start_char(s, x).contains(c) ==> s.contains(c),
    decreases s.len(),
{
    if s.len() > 0 && s[0] == x {
        let rest = s.skip(1);
        lemma_trimmed_start(rest, x);
        assert(text::trim_start_char(s, x) == text::trim_start_char(rest, x));
        assert forall|c: char| #[trigger] text::trim_start_char(s, x).contains(c) implies s.contains(
            c,
        ) by {
            assert(rest.contains(c));
            let k = choose|k: int| 0 <= k < rest.len() && rest[k] == c;
            assert(s[k + 1] == c);
        }
    }
}

/// A text trimmed at its end starts as it did.
proof fn lemma_trimmed_end(s: Seq<char>, x: char)
    ensures
        text::trim_end_char(s, x).len() > 0 ==> text::trim_end_char(s, x)[0] == s[0],
        text::trim_end_char(s, x).len() <= s.len(),
        forall|c: char| #[trigger] text::trim_end_char(s, x).contains(c) ==> s.contains(c),
    decreases s.len(),
{
    if s.len() > 0 && s.last() == x {
        let rest = s.drop_last();
        lemma_trimmed_end(rest, x);
        assert(text::trim_end_char(s, x) == text::trim_end_char(rest, x));
        assert forall|c: char| #[trigger] text::trim_end_char(s, x).contains(c) implies s.contains(
            c,
        ) by {
            assert(rest.contains(c));
            let k = choose|k: int| 0 <= k < rest.len() && rest[k] == c;
            assert(s[k] == c);
        }
    }
}

/// A safe name can stand between slashes.
proof fn lemma_safe_segment(segment: Seq<char>)
    ensures
        path::is_clean(safe_segment(segment)),
{
    let m = masked(segment);
    let cleaned = text::trim_end_char(text::trim_start_char(m, '.'), '.');
    lemma_trimmed(m, '.');
    reveal_strlit("_");
    reveal_strlit(".");
    reveal_strlit("..");
    assert(forall|i: int| 0 <= i < m.len() ==> #[trigger] m[i] != '/' && m[i] != '\\');
    if cleaned.len() == 0 {
        assert("_"@[0] == '_');
        assert("."@[0] == '.');
        assert(!"_"@.contains('/') && !"_"@.contains('\\'));
        assert(".."@.len() == 2);
    } else {
        assert("."@[0] == '.');
        assert(".."@[0] == '.');
        if cleaned.contains('/') {
            assert(m.contains('/'));
        }
        if cleaned.contains('\\') {
            assert(m.contains('\\'));
        }
    }
}

/// Sanitized segments are clean names.
proof fn lemma_safe_segments(segments: Seq<Seq<char>>)
    ensures
        path::all_clean(safe_segments(segments)),
    decreases segments.len(),
{
    if segments.len() > 0 {
        let front = safe_segments(segments.drop_last());
        lemma_safe_segments(segments.drop_last());
        lemma_safe_segment(segments.last());
        let all = safe_segments(segments);
        assert forall|i: int| 0 <= i < all.len() implies path::is_clean(#[trigger] all[i]) by {
            if i < front.len() {
                assert(all[i] == front[i]);
            }
        }
    }
}

/// A text trimmed at its end does not end with what was trimmed.
proof fn lemma_trimmed_last(s: Seq<char>, x: char)
    ensures
        text::trim_end_char(s, x).len() > 0 ==> text::trim_end_char(s, x).last() != x,
    decreases s.len(),
{
    if s.len() > 0 && s.last() == x {
        lemma_trimmed_last(s.drop_last(), x);
        assert(text::trim_end_char(s, x) == text::trim_end_char(s.drop_last(), x));
    }
}

/// Safe names do not end with a dot.
proof fn lemma_safe_last(segments: Seq<Seq<char>>)
    ensures
        safe_segments(segments).len() > 0 ==> safe_segments(segments).last().len() > 0
            && safe_segments(segments).last().last() != '.',
    decreases segments.len(),
{
    if segments.len() > 0 {
        lemma_safe_last(segments.drop_last());
        lemma_trimmed_last(text::trim_start_char(masked(segments.last()), '.'), '.');
        reveal_strlit("_");
        assert("_"@.len() == 1 && "_"@[0] == '_');
    }
}

/// Pages get no extension by their media type but that of HTML files.
proof fn lemma_pages_have_no_other_extension()
    ensures
        html_mimetype("text/html"@),
        mimetype_extension("text/html"@) is None,
{
    let page = "text/html"@;
    reveal_strlit("text/html");
    reveal_strlit("application/atom+xml");
    reveal_strlit("application/rss+xml");
    reveal_strlit("application/xml");
    reveal_strlit("text/xml");
    reveal_strlit("application/javascript");
    reveal_strlit("application/x-javascript");
    reveal_strlit("text/javascript");
    reveal_strlit("application/json");
    reveal_strlit("application/pdf");
    reveal_strlit("font/ttf");
    reveal_strlit("font/woff");
    reveal_strlit("font/woff2");
    reveal_strlit("image/gif");
    reveal_strlit("image/jpeg");
    reveal_strlit("image/jpg");
    reveal_strlit("image/png");
    reveal_strlit("image/svg+xml");
    reveal_strlit("image/webp");
    reveal_strlit("image/x-icon");
    reveal_strlit("text/css");
    reveal_strlit("text/plain");
    assert(page.len() == 9 && page[0] == 't' && page[8] == 'l');
    text::lemma_index_of(page, ';', 0);
    assert(text::trim_start_by(page, text::white()) == page);
    assert(text::trim_end_by(page, text::white()) == page);
    assert(text::lower(page) == page);
    assert("image/gif"@[0] == 'i' && "image/jpg"@[0] == 'i' && "image/png"@[0] == 'i');
    assert("font/woff"@[0] == 'f');
}

/// What the names of a page depend on: its last name has an extension exactly where it has a dot,
/// and gets that of HTML files where it has another.
pub proof fn lemma_names_of_pages(url_path: Seq<char>)
    ensures
        ({
            let names = path_names(url_path);
            &&& html_mimetype("text/html"@)
            &&& names.len() > 0 ==> extension_after_dot(names.last()) == text::after_last_dot(
                names.last(),
            )
            &&& names.len() > 0 ==> typed_name(names.last(), "text/html"@) == (
            if extension_after_dot(names.last()) matches Some(e) && html_extension(e) {
                names.last()
            } else {
                names.last() + ".html"@
            })
        }),
{
    lemma_pages_have_no_other_extension();
    match urls::segments_of(url_path) {
        Some(segments) => {
            lemma_safe_last(segments);
            if path_names(url_path).len() > 0 {
                let name = path_names(url_path).last();
                text::lemma_rindex_of(name, '.', name.len() - 1);
            }
        },
        None => {},
    }
}

/// Whether a text holds no slash of either kind.
spec fn without_slashes(s: Seq<char>) -> bool {
    !s.contains('/') && !s.contains('\\')
}

/// Texts without slashes have none when they are put together.
proof fn lemma_without_slashes(a: Seq<char>, b: Seq<char>)
    requires
        without_slashes(a),
        without_slashes(b),
    ensures
        without_slashes(a + b),
{
    assert forall|i: int| 0 <= i < (a + b).len() implies (a + b)[i] != '/' && (a + b)[i]
        != '\\' by {
        if i < a.len() {
            assert(a.contains(a[i]));
        } else {
            assert(b.contains(b[i - a.len()]));
        }
    }
}

/// A longer name without slashes can stand between slashes.
proof fn lemma_long_name(name: Seq<char>)
    requires
        name.len() > 2,
        without_slashes(name),
    ensures
        path::is_clean(name),
{
    reveal_strlit(".");
    reveal_strlit("..");
    assert("."@.len() == 1);
    assert(".."@.len() == 2);
}

/// The extensions and the fixed pieces of names hold no slashes.
proof fn lemma_extensions()
    ensures
        forall|m: Seq<char>|
            (#[trigger] mimetype_extension(m)) matches Some(e) ==> e.len() > 1 && without_slashes(e),
        ".html"@.len() == 5,
        without_slashes(".html"@),
        "."@.len() == 1,
        without_slashes("."@),
        "__q_"@.len() == 4,
        without_slashes("__q_"@),
        "query__q_"@.len() == 9,
        without_slashes("query__q_"@),
        path::is_clean("index.html"@),
        path::is_clean("_hosts"@),
{
    reveal_strlit("xml");
    reveal_strlit("js");
    reveal_strlit("json");
    reveal_strlit("pdf");
    reveal_strlit("ttf");
    reveal_strlit("woff");
    reveal_strlit("woff2");
    reveal_strlit("gif");
    reveal_strlit("jpg");
    reveal_strlit("png");
    reveal_strlit("svg");
    reveal_strlit("webp");
    reveal_strlit("ico");
    reveal_strlit("css");
    reveal_strlit("txt");
    reveal_strlit(".html");
    reveal_strlit(".");
    reveal_strlit("__q_");
    reveal_strlit("query__q_");
    reveal_strlit("index.html");
    reveal_strlit("_hosts");
    assert("index.html"@.len() == 10);
    assert("_hosts"@.len() == 6);
    lemma_long_name("index.html"@);
    lemma_long_name("_hosts"@);
}

/// Hexadecimal numbers hold no slashes.
proof fn lemma_hex_digits(n: nat, width: nat)
    ensures
        without_slashes(numbers::hex_digits(n, width)),
    decreases width,
{
    if width > 0 {
        let front = numbers::hex_digits(n / 16, (width - 1) as nat);
        lemma_hex_digits(n / 16, (width - 1) as nat);
        let d = numbers::hex_digit((n % 16) as int);
        assert(d != '/' && d != '\\');
        assert(!seq![d].contains('/') && !seq![d].contains('\\'));
        lemma_without_slashes(front, seq![d]);
        assert(front + seq![d] == front.push(d));
    }
}

/// A clean name stays clean with the extension of its type.
proof fn lemma_typed_name(name: Seq<char>, mimetype: Seq<char>)
    requires
        path::is_clean(name),
    ensures
        path::is_clean(typed_name(name, mimetype)),
{
    lemma_extensions();
    lemma_without_slashes(name, ".html"@);
    lemma_without_slashes(name, "."@);
    if typed_name(name, mimetype) != name {
        if mimetype_extension(mimetype) is Some {
            let wanted = mimetype_extension(mimetype).unwrap();
            lemma_without_slashes(name + "."@, wanted);
        }
        lemma_long_name(typed_name(name, mimetype));
    }
}

/// The names of a local path are clean, and there is one at least.
proof fn lemma_local_names(url_path: Seq<char>, mimetype: Seq<char>)
    ensures
        local_names(url_path, mimetype).len() > 0,
        path::all_clean(local_names(url_path, mimetype)),
{
    let names = path_names(url_path);
    let all = local_names(url_path, mimetype);
    match urls::segments_of(url_path) {
        Some(segments) => {
            lemma_safe_segments(segments);
        },
        None => {},
    }
    lemma_extensions();
    if !needs_index(names, url_path, mimetype) {
        assert(path::is_clean(names[names.len() - 1]));
        lemma_typed_name(names.last(), mimetype);
    }
    assert forall|i: int| 0 <= i < all.len() implies path::is_clean(#[trigger] all[i]) by {
        if i < all.len() - 1 {
            assert(all[i] == names[i]);
        }
    }
}

/// A clean name stays clean with the hash of a query.
proof fn lemma_hashed_name(name: Seq<char>, query: Seq<char>)
    requires
        path::is_clean(name),
    ensures
        path::is_clean(hashed_name(name, query)),
{
    let hash = numbers::text_hash(query);
    let mark = "__q_"@ + hash;
    lemma_extensions();
    lemma_hex_digits(numbers::fnv1a(vstd::utf8::encode_utf8(query)) as nat, 16);
    lemma_without_slashes("__q_"@, hash);
    lemma_without_slashes(name, mark);
    text::lemma_rindex_of(name, '.', name.len() - 1);
    match text::rindex_of(name, '.', name.len() - 1) {
        Some(i) => {
            let front = name.take(i);
            let back = name.skip(i + 1);
            assert forall|k: int| 0 <= k < front.len() implies front[k] != '/' && front[k]
                != '\\' by {
                assert(name.contains(name[k]));
            }
            assert forall|k: int| 0 <= k < back.len() implies back[k] != '/' && back[k] != '\\' by {
                assert(name.contains(name[i + 1 + k]));
            }
            lemma_without_slashes(front, mark);
            lemma_without_slashes(front + mark, "."@);
            lemma_without_slashes(front + mark + "."@, back);
        },
        None => {},
    }
    lemma_long_name(hashed_name(name, query));
}

/// Clean names stay clean with the hash of a query, and their first one stays where there are more.
proof fn lemma_queried_path(names: Seq<Seq<char>>, url: urls::UrlView)
    requires
        names.len() > 0,
        path::all_clean(names),
    ensures
        !queried_path(names, url).absolute,
        queried_path(names, url).parts.len() == names.len(),
        path::all_clean(queried_path(names, url).parts),
        names.len() > 1 ==> queried_path(names, url).parts[0] == names[0],
{
    let all = queried_path(names, url).parts;
    match canonical_query(url) {
        Some(query) => {
            assert(path::is_clean(names[names.len() - 1]));
            lemma_hashed_name(names.last(), query);
            assert(all == names.drop_last().push(hashed_name(names.last(), query)));
            assert forall|i: int| 0 <= i < all.len() implies path::is_clean(#[trigger] all[i]) by {
                if i < all.len() - 1 {
                    assert(all[i] == names[i]);
                }
            }
        },
        None => {},
    }
}

/// Names that are kept apart from the directory of the other hosts are clean, do not start with it,
/// and can be put back.
proof fn lemma_kept_apart(names: Seq<Seq<char>>)
    ensures
        names.len() > 0 ==> kept_apart(names)[0] != "_hosts"@,
        kept_apart(names).len() == names.len(),
        path::all_clean(names) ==> path::all_clean(kept_apart(names)),
        put_back(kept_apart(names)) == names,
{
    reveal_strlit("_");
    reveal_strlit("hosts");
    reveal_strlit("_hosts");
    assert("_"@ == seq!['_']);
    assert("_hosts"@.drop_first() == "hosts"@);
    assert("_hosts"@.len() == 6);
    assert("hosts"@[0] == 'h');
    assert(text::trim_start_char("hosts"@, '_') == "hosts"@);
    assert(text::trim_start_char("_hosts"@, '_') == "hosts"@);
    if names.len() > 0 && is_host_folder(names[0]) {
        let first = names[0];
        let longer = "_"@ + first;
        assert(longer[0] == '_');
        assert(longer.drop_first() == first);
        assert(longer.skip(1) == first);
        assert(text::trim_start_char(longer, '_') == text::trim_start_char(first, '_'));
        assert(longer.len() > 6);
        assert(put_back(kept_apart(names)) == names);
        if path::all_clean(names) {
            assert(path::is_clean(names[0]));
            assert(!"_"@.contains('/') && !"_"@.contains('\\'));
            lemma_without_slashes("_"@, first);
            lemma_long_name(longer);
            let all = kept_apart(names);
            assert forall|i: int| 0 <= i < all.len() implies path::is_clean(#[trigger] all[i]) by {
                if i > 0 {
                    assert(all[i] == names[i]);
                }
            }
        }
    }
}

/// The names of a local path before they are kept apart are clean.
proof fn lemma_all_names(mapper: MapperView, url: urls::UrlView, mimetype: Seq<char>)
    ensures
        (host_names(mapper, url.host) + local_names(url.path, mimetype)).len() > 0,
        path::all_clean(host_names(mapper, url.host) + local_names(url.path, mimetype)),
{
    let names = local_names(url.path, mimetype);
    let host = host_name(
        match url.host {
            Some(h) => h,
            None => "unknown-host"@,
        },
    );
    let hosts = host_names(mapper, url.host);
    lemma_local_names(url.path, mimetype);
    lemma_safe_segment(host);
    lemma_extensions();
    let plain = hosts + names;
    assert forall|i: int| 0 <= i < plain.len() implies path::is_clean(#[trigger] plain[i]) by {
        if i >= hosts.len() {
            assert(path::is_clean(names[i - hosts.len()]));
        }
    }
}

/// The local path of a URL is relative, and made of ordinary names only: whatever the URL, the file
/// lies inside the directory that the site is saved to.
pub proof fn law_local_paths_stay_inside(
    mapper: MapperView,
    url: urls::UrlView,
    mimetype: Seq<char>,
)
    ensures
        !local_path(mapper, url, mimetype).absolute,
        local_path(mapper, url, mimetype).parts.len() > 0,
        path::all_clean(local_path(mapper, url, mimetype).parts),
{
    let names = host_names(mapper, url.host) + local_names(url.path, mimetype);
    lemma_all_names(mapper, url, mimetype);
    lemma_queried_path(names, url);
    lemma_kept_apart(queried_path(names, url).parts);
}

/// The files of other hosts lie in a directory of their own, in which no file of the site itself
/// lies: no file of the one is a file of the other.
pub proof fn law_other_hosts_stay_apart(
    mapper: MapperView,
    u: urls::UrlView,
    a: Seq<char>,
    v: urls::UrlView,
    b: Seq<char>,
)
    requires
        u.host matches Some(h) && mapper.is_primary(host_name(h)),
        v.host matches Some(k) && !mapper.is_primary(host_name(k)),
    ensures
        local_path(mapper, v, b).starts_with(
            path::PathView { absolute: false, parts: seq!["_hosts"@] },
        ),
        local_path(mapper, u, a).parts[0] != "_hosts"@,
        local_path(mapper, u, a) != local_path(mapper, v, b),
{
    let top = host_names(mapper, u.host) + local_names(u.path, a);
    lemma_all_names(mapper, u, a);
    lemma_queried_path(top, u);
    lemma_kept_apart(queried_path(top, u).parts);
    let below = host_names(mapper, v.host) + local_names(v.path, b);
    lemma_all_names(mapper, v, b);
    lemma_queried_path(below, v);
    assert(below[0] == "_hosts"@);
    assert(local_path(mapper, v, b).parts.take(1) == seq!["_hosts"@]);
}

/// Two files of the site itself that would lie at different places still do when they are kept
/// apart from the directory of the other hosts, and where they would lie can be told.
pub proof fn law_keeping_apart_is_undone(names: Seq<Seq<char>>)
    ensures
        put_back(kept_apart(names)) == names,
{
    lemma_kept_apart(names);
}

/// The link from the local path of one URL to that of another, read from the directory of the first,
/// leads to the second.
pub proof fn law_links_between_saved_files_resolve(
    mapper: MapperView,
    from: urls::UrlView,
    from_mimetype: Seq<char>,
    to: urls::UrlView,
    to_mimetype: Seq<char>,
)
    ensures
        ({
            let source = local_path(mapper, from, from_mimetype);
            let target = local_path(mapper, to, to_mimetype);
            source.parent() matches Some(directory) && directory.join(
                path::parse_of(path::relative_link_of(source, target)),
            ).normalized() == target
        }),
{
    law_local_paths_stay_inside(mapper, from, from_mimetype);
    law_local_paths_stay_inside(mapper, to, to_mimetype);
    path::law_relative_links_lead_to_their_target(
        local_path(mapper, from, from_mimetype),
        local_path(mapper, to, to_mimetype),
    );
}

/// A query parameter that does not change what a page shows does not change which of the
/// parameters matter, wherever it stands.
pub proof fn law_volatile_parameters_do_not_matter(
    before: Seq<(Seq<char>, Seq<char>)>,
    volatile: (Seq<char>, Seq<char>),
    after: Seq<(Seq<char>, Seq<char>)>,
)
    requires
        volatile_key(plain_key(volatile.0)),
    ensures
        lasting_pairs(before.push(volatile) + after) == lasting_pairs(before + after),
    decreases after.len(),
{
    if after.len() == 0 {
        assert(before.push(volatile) + after == before.push(volatile));
        assert(before + after == before);
        assert(before.push(volatile).drop_last() == before);
    } else {
        let front = after.drop_last();
        law_volatile_parameters_do_not_matter(before, volatile, front);
        assert((before.push(volatile) + after).drop_last() == before.push(volatile) + front);
        assert((before + after).drop_last() == before + front);
    }
}

/// Two URLs with the same host, path and parameters that matter are saved to the same file. One of
/// them may have parameters that do not matter, the other no query at all.
pub proof fn law_same_page_same_file(
    mapper: MapperView,
    a: urls::UrlView,
    b: urls::UrlView,
    mimetype: Seq<char>,
)
    requires
        a.host == b.host,
        a.path == b.path,
        urls::pairs_come_from_query(a),
        urls::pairs_come_from_query(b),
        lasting_pairs(a.pairs) == lasting_pairs(b.pairs),
    ensures
        local_path(mapper, a, mimetype) == local_path(mapper, b, mimetype),
{
}

/// The parameters that matter of two lists are those of the one and those of the other.
proof fn lemma_lasting_pairs_add(
    a: Seq<(Seq<char>, Seq<char>)>,
    b: Seq<(Seq<char>, Seq<char>)>,
)
    ensures
        lasting_pairs(a + b) == lasting_pairs(a) + lasting_pairs(b),
    decreases b.len(),
{
    if b.len() == 0 {
        assert(a + b == a);
        assert(lasting_pairs(a) + lasting_pairs(b) == lasting_pairs(a));
    } else {
        lemma_lasting_pairs_add(a, b.drop_last());
        assert((a + b).drop_last() == a + b.drop_last());
        assert((a + b).last() == b.last());
        assert(lasting_pairs(a + b) == lasting_pairs(a) + lasting_pairs(b));
    }
}

/// Which parameters matter does not depend on the order in which they come.
proof fn lemma_lasting_pairs_permuted(
    s: Seq<(Seq<char>, Seq<char>)>,
    t: Seq<(Seq<char>, Seq<char>)>,
)
    requires
        s.to_multiset() == t.to_multiset(),
    ensures
        lasting_pairs(s).to_multiset() == lasting_pairs(t).to_multiset(),
    decreases s.len(),
{
    broadcast use vstd::seq_lib::group_to_multiset_ensures;

    assert(s.len() == s.to_multiset().len() && t.len() == t.to_multiset().len());
    if s.len() == 0 {
        assert(s == t);
    } else {
        let front = s.drop_last();
        let pair = s.last();
        assert(s == front.push(pair));
        assert(s.contains(pair)) by {
            assert(s[s.len() - 1] == pair);
        }
        assert(t.contains(pair)) by {
            assert(s.to_multiset().count(pair) > 0);
        }
        let i = choose|i: int| 0 <= i < t.len() && t[i] == pair;
        let a = t.take(i);
        let b = t.skip(i + 1);
        assert(t.remove(i) == a + b);
        assert(t == a + (seq![pair] + b));
        assert(front.to_multiset() == (a + b).to_multiset()) by {
            assert(s.remove(s.len() - 1) == front);
        }
        lemma_lasting_pairs_permuted(front, a + b);
        lemma_lasting_pairs_add(a, b);
        lemma_lasting_pairs_add(a, seq![pair] + b);
        lemma_lasting_pairs_add(seq![pair], b);
        lemma_lasting_pairs_add(front, seq![pair]);
        assert(front + seq![pair] == s);
        let x = lasting_pairs(a);
        let y = lasting_pairs(seq![pair]);
        let z = lasting_pairs(b);
        vstd::seq_lib::lemma_multiset_commutative(x, z);
        vstd::seq_lib::lemma_multiset_commutative(x, y + z);
        vstd::seq_lib::lemma_multiset_commutative(y, z);
        vstd::seq_lib::lemma_multiset_commutative(lasting_pairs(front), y);
        assert(lasting_pairs(s).to_multiset() =~= lasting_pairs(t).to_multiset());
    }
}

/// Two URLs with the same host and path, whose parameters that matter are the same but for their
/// order, are saved to the same file.
pub proof fn law_order_of_parameters_does_not_matter(
    mapper: MapperView,
    a: urls::UrlView,
    b: urls::UrlView,
    mimetype: Seq<char>,
)
    requires
        a.host == b.host,
        a.path == b.path,
        urls::pairs_come_from_query(a),
        urls::pairs_come_from_query(b),
        lasting_pairs(a.pairs).to_multiset() == lasting_pairs(b.pairs).to_multiset(),
    ensures
        canonical_query(a) == canonical_query(b),
        local_path(mapper, a, mimetype) == local_path(mapper, b, mimetype),
{
    broadcast use vstd::seq_lib::group_to_multiset_ensures;

    let x = lasting_pairs(a.pairs);
    let y = lasting_pairs(b.pairs);
    assert(x.len() == x.to_multiset().len() && y.len() == y.to_multiset().len());
    order::lemma_sorted_pairs_unique(x, y);
}

/// Two URLs that differ in the order of their parameters only are saved to the same file.
pub proof fn law_permuted_parameters_same_file(
    mapper: MapperView,
    a: urls::UrlView,
    b: urls::UrlView,
    mimetype: Seq<char>,
)
    requires
        a.host == b.host,
        a.path == b.path,
        urls::pairs_come_from_query(a),
        urls::pairs_come_from_query(b),
        a.pairs.to_multiset() == b.pairs.to_multiset(),
    ensures
        local_path(mapper, a, mimetype) == local_path(mapper, b, mimetype),
{
    lemma_lasting_pairs_permuted(a.pairs, b.pairs);
    law_order_of_parameters_does_not_matter(mapper, a, b, mimetype);
}

/// Whether a name stands for itself in a URL and on disk.
pub open spec fn is_plain_name(name: Seq<char>) -> bool {
    name.len() > 0 && !name.contains('/') && safe_segment(name) == name
}

/// Plain names are their own safe names.
proof fn lemma_plain_segments(names: Seq<Seq<char>>)
    requires
        forall|i: int| 0 <= i < names.len() ==> is_plain_name(#[trigger] names[i]),
    ensures
        safe_segments(names) == names,
    decreases names.len(),
{
    if names.len() > 0 {
        let front = names.drop_last();
        assert forall|i: int| 0 <= i < front.len() implies is_plain_name(#[trigger] front[i]) by {
            assert(is_plain_name(names[i]));
        }
        lemma_plain_segments(front);
        assert(is_plain_name(names[names.len() - 1]));
        assert(front.push(names.last()) == names);
    } else {
        assert(names == Seq::<Seq<char>>::empty());
    }
}

/// The URLs that a file may stand for come in strictly increasing order.
pub proof fn law_candidates_are_sorted(mapper: MapperView, local: path::PathView)
    ensures
        forall|i: int, j: int|
            0 <= i < j < url_candidates(mapper, local).len() ==> order::text_lt(
                #[trigger] url_candidates(mapper, local)[i],
                #[trigger] url_candidates(mapper, local)[j],
            ),
{
    let names = plain_names(local.parts);
    if names.len() >= 3 && names[0] == "_hosts"@ {
        order::lemma_sort_dedup_of(host_candidates(names[1], names.skip(2)));
    } else {
        order::lemma_sort_dedup_of(hosts_candidates(mapper.primary_hosts, put_back(names)));
    }
}

/// The URLs that a file of the site may stand for lead back to it: a candidate that reads as a URL on
/// a host of the site, with the path that it was made of and without a query, is saved to the file,
/// unless its media type asks for another extension.
pub proof fn law_candidates_lead_back(
    mapper: MapperView,
    local: path::PathView,
    candidate: Seq<char>,
    url: urls::UrlView,
    mimetype: Seq<char>,
)
    requires
        url_candidates(mapper, local).contains(candidate),
        urls::url_parse(candidate) == Ok::<urls::UrlView, UrlError>(url),
        !local.absolute,
        local.parts.len() > 0,
        local.parts[0] != "_hosts"@,
        forall|i: int|
            0 <= i < local.parts.len() ==> is_plain_name(#[trigger] put_back(local.parts)[i]),
        url.host matches Some(host) && mapper.is_primary(host_name(host)),
        url.path == "/"@ + text::join(put_back(local.parts), "/"@),
        canonical_query(url) is None,
        !(html_mimetype(mimetype) && extension_after_dot(put_back(local.parts).last()) is None),
        typed_name(put_back(local.parts).last(), mimetype) == put_back(local.parts).last(),
    ensures
        local_path(mapper, url, mimetype) == local,
{
    let names = put_back(local.parts);
    let joined = text::join(names, "/"@);
    reveal_strlit("/");
    assert("/"@ == seq!['/']);
    assert(url.path[0] == '/');
    assert(url.path.skip(1) == joined);
    assert forall|i: int| 0 <= i < names.len() implies !(#[trigger] names[i]).contains('/') by {
        assert(is_plain_name(names[i]));
    }
    text::lemma_split_join(names, '/');
    lemma_plain_segments(names);
    assert(path_names(url.path) == names);
    assert(is_plain_name(names[names.len() - 1]));
    lemma_join_last(names);
    assert(!text::ends_with(url.path, "/"@)) by {
        let n = url.path.len() as int;
        assert(url.path[n - 1] == joined.last());
        if text::ends_with(url.path, "/"@) {
            assert(url.path.subrange(n - 1, n)[0] == '/');
        }
    }
    assert(names.drop_last().push(names.last()) == names);
    let hosts = host_names(mapper, url.host);
    assert(hosts + names == names);
    lemma_put_back(local.parts);
}

/// A simple host name is in normal form: it holds no capital and no colon, and ends in no dot.
proof fn lemma_simple_host(host: Seq<char>)
    requires
        urls::simple_host(host),
    ensures
        host.len() > 0,
        host.last() != '.',
        !host.contains(':'),
        text::lower(host) == host,
        host_name(host) == host,
    decreases host.len(),
{
    let labels = text::split(host, '.');
    text::lemma_index_of(host, '.', 0);
    assert(urls::simple_label(labels[0]));
    match text::index_of(host, '.', 0) {
        Some(i) => {
            let rest = host.skip(i + 1);
            let others = text::split(rest, '.');
            assert(labels == seq![host.take(i)] + others);
            assert forall|k: int| 0 <= k < others.len() implies urls::simple_label(
                #[trigger] others[k],
            ) by {
                assert(labels[k + 1] == others[k]);
            }
            lemma_simple_host(rest);
            assert(host.last() == rest.last());
            assert forall|k: int| 0 <= k < host.len() implies text::lower_char(#[trigger] host[k])
                == host[k] && host[k] != ':' by {
                if k < i {
                    assert(labels[0][k] == host[k]);
                } else if k > i {
                    assert(text::lower(rest)[k - i - 1] == rest[k - i - 1]);
                    assert(rest.contains(rest[k - i - 1]));
                }
            }
        },
        None => {
            assert(labels[0] == host);
            assert(host[host.len() - 1] == host.last());
        },
    }
    assert(text::lower(host) == host);
    text::lemma_trim_end_by(host, text::is_char('.'), host.len() as int);
    assert(host.take(host.len() as int) == host);
}

/// A simple host name stays simple with `www.` in front.
proof fn lemma_simple_host_with_www(host: Seq<char>)
    ensures
        urls::simple_host("www."@ + host) == urls::simple_host(host),
{
    reveal_strlit("www.");
    let whole = "www."@ + host;
    let www = seq!['w', 'w', 'w'];
    text::lemma_index_of(whole, '.', 0);
    assert(whole[3] == '.');
    assert(text::index_of(whole, '.', 0) == Some(3int)) by {
        let i = text::index_of(whole, '.', 0)->Some_0;
        assert(whole[0] == 'w' && whole[1] == 'w' && whole[2] == 'w');
        assert(i == 3);
    }
    assert(whole.take(3) == www);
    assert(whole.skip(4) == host);
    let labels = text::split(host, '.');
    let all = text::split(whole, '.');
    assert(all == seq![www] + labels);
    assert(urls::simple_label(www));
    if urls::simple_host(host) {
        assert forall|i: int| 0 <= i < all.len() implies urls::simple_label(#[trigger] all[i]) by {
            if i > 0 {
                assert(urls::simple_label(labels[i - 1]));
            }
        }
    }
    if urls::simple_host(whole) {
        assert forall|i: int| 0 <= i < labels.len() implies urls::simple_label(
            #[trigger] labels[i],
        ) by {
            assert(urls::simple_label(all[i + 1]));
        }
    }
}

/// The hosts at the top of a site with a simple host are simple, and primary ones.
proof fn lemma_simple_mapper(host: Seq<char>, i: int)
    requires
        urls::simple_host(host),
        0 <= i < mapper_for(host).primary_hosts.len(),
    ensures
        urls::simple_host(mapper_for(host).primary_hosts[i]),
        mapper_for(host).primary_hosts[i].len() <= host.len() + 4,
        mapper_for(host).is_primary(host_name(mapper_for(host).primary_hosts[i])),
{
    let mapper = mapper_for(host);
    lemma_simple_host(host);
    reveal_strlit("www.");
    let other = if text::starts_with(host, "www."@) {
        host.skip(4)
    } else {
        "www."@ + host
    };
    order::lemma_sort_dedup_of(seq![host, other]);
    let found = mapper.primary_hosts[i];
    assert(mapper.primary_hosts.contains(found));
    assert(seq![host, other].contains(found));
    if text::starts_with(host, "www."@) {
        assert("www."@ + host.skip(4) == host) by {
            assert(host.subrange(0, 4) == "www."@);
        }
        lemma_simple_host_with_www(host.skip(4));
    } else {
        lemma_simple_host_with_www(host);
    }
    lemma_simple_host(found);
    assert(text::same_ignoring_case(mapper.primary_hosts[i], host_name(found)));
}

/// Simple names stand for themselves in a URL and on disk.
proof fn lemma_simple_name(name: Seq<char>)
    requires
        urls::simple_name(name),
    ensures
        is_plain_name(name),
        path::is_normal(name),
{
    reveal_strlit(".");
    reveal_strlit("..");
    assert(masked(name) == name);
    text::lemma_trim_start_by(name, text::is_char('.'), 0);
    assert(name.skip(0) == name);
    text::lemma_trim_end_by(name, text::is_char('.'), name.len() as int);
    assert(name.take(name.len() as int) == name);
}

/// Simple names are all ordinary ones.
proof fn lemma_simple_names(names: Seq<Seq<char>>)
    requires
        urls::simple_names(names),
    ensures
        plain_names(names) == names,
    decreases names.len(),
{
    if names.len() > 0 {
        let front = names.drop_last();
        assert forall|i: int| 0 <= i < front.len() implies urls::simple_name(
            #[trigger] front[i],
        ) by {
            assert(urls::simple_name(names[i]));
        }
        lemma_simple_names(front);
        assert(urls::simple_name(names[names.len() - 1]));
        lemma_simple_name(names.last());
        assert(front.push(names.last()) == names);
    }
}

/// Whether a file of a site with a simple host is one whose addresses are simple: it has simple
/// names, is none of another host, and its addresses are not too long.
pub open spec fn has_simple_addresses(host: Seq<char>, local: path::PathView) -> bool {
    &&& urls::simple_host(host)
    &&& !local.absolute
    &&& local.parts.len() > 0
    &&& local.parts[0] != "_hosts"@
    &&& urls::simple_names(local.parts)
    &&& host.len() + text::join(put_back(local.parts), "/"@).len() + 15 <= u32::MAX
}

/// The names that stand in the addresses of such a file are simple, too.
proof fn lemma_names_put_back(names: Seq<Seq<char>>)
    requires
        urls::simple_names(names),
        names.len() > 0,
    ensures
        urls::simple_names(put_back(names)),
        put_back(names).len() == names.len(),
{
    reveal_strlit("_hosts");
    let back = put_back(names);
    assert forall|i: int| 0 <= i < back.len() implies urls::simple_name(#[trigger] back[i]) by {
        assert(urls::simple_name(names[i]));
        if i == 0 && back[0] != names[0] {
            let name = back[0];
            reveal_strlit("hosts");
            assert(name == names[0].skip(1) && name == names[0].drop_first());
            assert(text::is_char('_')(names[0][0])) by {
                if names[0][0] != '_' {
                    assert(text::trim_start_char(names[0], '_') == names[0]);
                }
            }
            assert(name[0] != '.') by {
                if name[0] == '.' {
                    text::lemma_trim_start_by(names[0], text::is_char('_'), 1);
                    assert(name[0] == "hosts"@[0]);
                }
            }
            assert(name.last() == names[0].last());
            assert forall|k: int| 0 <= k < name.len() implies urls::lower_letter(#[trigger] name[k])
                || urls::ascii_digit(name[k]) || name[k] == '-' || name[k] == '_' || name[k]
                == '.' by {
                assert(name[k] == names[0][k + 1]);
            }
        }
    }
}

/// The simple addresses of a file on one host.
proof fn lemma_simple_addresses(host: Seq<char>, names: Seq<Seq<char>>, candidate: Seq<char>)
    requires
        urls::simple_host(host),
        urls::simple_names(names),
        host.len() + text::join(names, "/"@).len() + 11 <= u32::MAX,
        candidate_is_address("http"@, host, names),
        candidate_is_address("https"@, host, names),
    ensures
        host_candidates(host, names).len() > 0,
        host_candidates(host, names).contains(candidate) ==> exists|address: urls::Address|
            #[trigger] address.is_simple() && address.text() == candidate && address.host == host
                && address.names == names,
{
    reveal_strlit("http");
    reveal_strlit("https");
    reveal_strlit("://");
    reveal_strlit("/");
    reveal_strlit("");
    reveal_strlit(":80");
    reveal_strlit(":80/");
    let plain = urls::Address { scheme: "http"@, host, port: ""@, names };
    let ported = urls::Address { scheme: "http"@, host, port: ":80"@, names };
    let secure = urls::Address { scheme: "https"@, host, port: ""@, names };
    assert(plain.is_simple() && ported.is_simple() && secure.is_simple());
    let front = "http"@ + "://"@ + host + "/"@;
    let rest = text::join(names, "/"@);
    assert(plain.text() == front + rest);
    assert(plain.text().subrange(0, front.len() as int) == front);
    assert(plain.text().skip(front.len() as int) == rest);
    assert("http"@ + "://"@ + host + ":80/"@ + rest == ported.text());
    let all = host_candidates(host, names);
    assert(all == seq![ported.text(), plain.text(), secure.text()]);
    if all.contains(candidate) {
        let k = choose|k: int| 0 <= k < all.len() && all[k] == candidate;
        if k == 0 {
            assert(ported.text() == candidate);
        } else if k == 1 {
            assert(plain.text() == candidate);
        } else {
            assert(secure.text() == candidate);
        }
    }
}

/// The candidates on several hosts are those on each of them.
proof fn lemma_hosts_candidates(
    hosts: Seq<Seq<char>>,
    names: Seq<Seq<char>>,
    candidate: Seq<char>,
)
    ensures
        hosts_candidates(hosts, names).contains(candidate) == exists|i: int|
            0 <= i < hosts.len() && host_candidates(#[trigger] hosts[i], names).contains(candidate),
    decreases hosts.len(),
{
    let all = hosts_candidates(hosts, names);
    if hosts.len() > 0 {
        let front = hosts.drop_last();
        let before = hosts_candidates(front, names);
        let last = host_candidates(hosts.last(), names);
        lemma_hosts_candidates(front, names, candidate);
        if all.contains(candidate) {
            let k = choose|k: int| 0 <= k < all.len() && all[k] == candidate;
            if k < before.len() {
                assert(before[k] == candidate);
                let i = choose|i: int|
                    0 <= i < front.len() && host_candidates(#[trigger] front[i], names).contains(
                        candidate,
                    );
                assert(hosts[i] == front[i]);
            } else {
                assert(last[k - before.len()] == candidate);
                assert(hosts[hosts.len() - 1] == hosts.last());
            }
        }
        if exists|i: int|
            0 <= i < hosts.len() && host_candidates(#[trigger] hosts[i], names).contains(candidate) {
            let i = choose|i: int|
                0 <= i < hosts.len() && host_candidates(#[trigger] hosts[i], names).contains(
                    candidate,
                );
            if i < front.len() {
                assert(front[i] == hosts[i]);
                let k = choose|k: int| 0 <= k < before.len() && before[k] == candidate;
                assert(all[k] == candidate);
            } else {
                let k = choose|k: int| 0 <= k < last.len() && last[k] == candidate;
                assert(all[before.len() + k] == candidate);
            }
        }
    }
}

/// A file with simple addresses has candidates, and each of them is one of its addresses on a host of
/// the site. What the candidates are is known of each list of them that was made.
pub proof fn law_candidates_are_addresses(host: Seq<char>, local: path::PathView)
    requires
        has_simple_addresses(host, local),
        candidates_are_addresses(
            mapper_for(host).primary_hosts,
            put_back(plain_names(local.parts)),
        ),
    ensures
        url_candidates(mapper_for(host), local).len() > 0,
        forall|candidate: Seq<char>| #[trigger]
            url_candidates(mapper_for(host), local).contains(candidate) ==> exists|
                address: urls::Address,
            | #[trigger]
                address.is_simple() && address.text() == candidate && address.names == put_back(
                    local.parts,
                ) && mapper_for(host).is_primary(host_name(address.host)),
{
    let mapper = mapper_for(host);
    let hosts = mapper.primary_hosts;
    let names = put_back(local.parts);
    lemma_simple_names(local.parts);
    lemma_names_put_back(local.parts);
    order::lemma_sort_dedup_of(hosts_candidates(hosts, names));
    assert forall|candidate: Seq<char>| #[trigger]
        url_candidates(mapper, local).contains(candidate) implies exists|address: urls::Address|
        #[trigger] address.is_simple() && address.text() == candidate && address.names == names
            && mapper.is_primary(host_name(address.host)) by {
        lemma_hosts_candidates(hosts, names, candidate);
        let i = choose|i: int|
            0 <= i < hosts.len() && host_candidates(#[trigger] hosts[i], names).contains(candidate);
        lemma_simple_mapper(host, i);
        lemma_simple_addresses(hosts[i], names, candidate);
    }
    lemma_simple_host(host);
    assert(hosts.len() > 0) by {
        reveal_strlit("www.");
        let other = if text::starts_with(host, "www."@) {
            host.skip("www."@.len() as int)
        } else {
            "www."@ + host
        };
        order::lemma_sort_dedup_of(seq![host, other]);
        assert(seq![host, other][0] == host);
        assert(seq![host, other].contains(host));
        assert(hosts.contains(host));
    }
    lemma_simple_mapper(host, 0);
    let some = host_candidates(hosts[0], names)[0];
    lemma_simple_addresses(hosts[0], names, some);
    assert(host_candidates(hosts[0], names).contains(some));
    lemma_hosts_candidates(hosts, names, some);
    assert(url_candidates(mapper, local).contains(some));
}

/// Each candidate of a file with simple addresses is a URL that is saved to the file, unless its media
/// type asks for another extension. How a candidate reads is known of each that was read.
pub proof fn law_candidates_are_saved_to_their_file(
    host: Seq<char>,
    local: path::PathView,
    candidate: Seq<char>,
    mimetype: Seq<char>,
)
    requires
        has_simple_addresses(host, local),
        candidates_are_addresses(
            mapper_for(host).primary_hosts,
            put_back(plain_names(local.parts)),
        ),
        url_candidates(mapper_for(host), local).contains(candidate),
        urls::reads_as_written(candidate, urls::url_parse(candidate)),
        !(html_mimetype(mimetype) && extension_after_dot(put_back(local.parts).last()) is None),
        typed_name(put_back(local.parts).last(), mimetype) == put_back(local.parts).last(),
    ensures
        urls::url_parse(candidate) matches Ok(url) && local_path(mapper_for(host), url, mimetype)
            == local,
{
    let mapper = mapper_for(host);
    law_candidates_are_addresses(host, local);
    let address = choose|address: urls::Address| #[trigger]
        address.is_simple() && address.text() == candidate && address.names == put_back(local.parts)
            && mapper.is_primary(host_name(address.host));
    lemma_names_put_back(local.parts);
    assert forall|i: int| 0 <= i < local.parts.len() implies is_plain_name(
        #[trigger] put_back(local.parts)[i],
    ) by {
        lemma_simple_name(put_back(local.parts)[i]);
    }
    law_candidates_lead_back(mapper, local, candidate, address.url(), mimetype);
}

/// A joined text ends as its last name does.
proof fn lemma_join_last(names: Seq<Seq<char>>)
    requires
        names.len() > 0,
        names.last().len() > 0,
        !names.last().contains('/'),
    ensures
        text::join(names, "/"@).len() > 0,
        text::join(names, "/"@).last() != '/',
{
    let last = names.last();
    assert(last.contains(last.last()));
}

/// Names that are put back are kept apart again.
proof fn lemma_put_back(names: Seq<Seq<char>>)
    requires
        names.len() > 0,
        names[0] != "_hosts"@,
    ensures
        kept_apart(put_back(names)) == names,
{
    reveal_strlit("_");
    reveal_strlit("hosts");
    reveal_strlit("_hosts");
    assert("hosts"@[0] == 'h' && "hosts"@.len() == 5);
    if is_host_folder(names[0]) {
        let first = names[0];
        let rest = first.skip(1);
        assert(first[0] == '_');
        assert(first.drop_first() == rest);
        assert(text::trim_start_char(first, '_') == text::trim_start_char(rest, '_'));
        assert("_"@ + rest == first);
        if rest.len() == 5 {
            lemma_trimmed_length(rest, '_');
            assert(rest == "hosts"@);
            assert(first == "_hosts"@);
        }
        lemma_trimmed_length(rest, '_');
        assert(kept_apart(put_back(names)) == names);
    }
}

/// Trimming at the start makes a text no longer, and changes nothing where it takes nothing away.
proof fn lemma_trimmed_length(s: Seq<char>, x: char)
    ensures
        text::trim_start_char(s, x).len() <= s.len(),
        text::trim_start_char(s, x).len() == s.len() ==> text::trim_start_char(s, x) == s,
    decreases s.len(),
{
    if s.len() > 0 && s[0] == x {
        lemma_trimmed_length(s.drop_first(), x);
        assert(text::trim_start_char(s, x) == text::trim_start_char(s.drop_first(), x));
    }
}

/// Leaving the parameters out that do not matter is keeping those that a test marks, where the test
/// marks exactly the others and no key has a leftover of a twice-escaped ampersand.
proof fn lemma_lasting_pairs_filtered(
    pairs: Seq<(Seq<char>, Seq<char>)>,
    kept: spec_fn((Seq<char>, Seq<char>)) -> bool,
)
    requires
        forall|i: int|
            0 <= i < pairs.len() ==> plain_key((#[trigger] pairs[i]).0) == pairs[i].0 && kept(
                pairs[i],
            ) == !volatile_key(pairs[i].0),
    ensures
        lasting_pairs(pairs) == pairs.filter(kept),
    decreases pairs.len(),
{
    reveal(Seq::filter);
    if pairs.len() > 0 {
        let front = pairs.drop_last();
        assert forall|i: int| 0 <= i < front.len() implies plain_key((#[trigger] front[i]).0)
            == front[i].0 && kept(front[i]) == !volatile_key(front[i].0) by {
            assert(front[i] == pairs[i]);
        }
        lemma_lasting_pairs_filtered(front, kept);
        assert(pairs[pairs.len() - 1] == pairs.last());
        assert((pairs.last().0, pairs.last().1) == pairs.last());
    }
}

/// What counts of a query are all its parameters but those with one of nineteen keys, which name
/// sessions and ways of sorting and marking: the canonical query is made of exactly the others, each
/// as often as it occurs, in a fixed order. There is none where no other parameter is left.
pub proof fn law_all_other_parameters_count(url: urls::UrlView)
    requires
        url.query matches Some(q) && q.len() > 0,
        forall|i: int|
            0 <= i < url.pairs.len() ==> !((#[trigger] url.pairs[i]).0.len() >= 4 && text::lower(
                url.pairs[i].0.take(4),
            ) == "amp;"@),
    ensures
        ({
            let kept = url.pairs.filter(
                |pair: (Seq<char>, Seq<char>)|
                    {
                        let k = text::lower(pair.0);
                        &&& k != "sid"@
                        &&& k != "sessionid"@
                        &&& k != "session_id"@
                        &&& k != "phpsessid"@
                        &&& k != "jsessionid"@
                        &&& k != "aspsessionid"@
                        &&& k != "cfid"@
                        &&& k != "cftoken"@
                        &&& k != "cron_type"@
                        &&& k != "amp"@
                        &&& k != "highlight"@
                        &&& k != "mark"@
                        &&& k != "postdays"@
                        &&& k != "postorder"@
                        &&& k != "sd"@
                        &&& k != "sk"@
                        &&& k != "ticket"@
                        &&& k != "st"@
                        &&& k != "view"@
                    },
            );
            &&& canonical_query(url) is None <==> kept.len() == 0
            &&& kept.len() > 0 ==> exists|ordered: Seq<(Seq<char>, Seq<char>)>|
                #![trigger urls::form_encoded(ordered)]
                canonical_query(url) == Some(urls::form_encoded(ordered)) && ordered.to_multiset()
                    == kept.to_multiset() && forall|i: int, j: int|
                    0 <= i < j < ordered.len() ==> order::pair_le(
                        #[trigger] ordered[i],
                        #[trigger] ordered[j],
                    )
        }),
{
    let test = |pair: (Seq<char>, Seq<char>)|
        {
            let k = text::lower(pair.0);
            &&& k != "sid"@
            &&& k != "sessionid"@
            &&& k != "session_id"@
            &&& k != "phpsessid"@
            &&& k != "jsessionid"@
            &&& k != "aspsessionid"@
            &&& k != "cfid"@
            &&& k != "cftoken"@
            &&& k != "cron_type"@
            &&& k != "amp"@
            &&& k != "highlight"@
            &&& k != "mark"@
            &&& k != "postdays"@
            &&& k != "postorder"@
            &&& k != "sd"@
            &&& k != "sk"@
            &&& k != "ticket"@
            &&& k != "st"@
            &&& k != "view"@
        };
    reveal_strlit("amp;");
    assert(text::lower("amp;"@) == "amp;"@);
    assert forall|i: int| 0 <= i < url.pairs.len() implies plain_key((#[trigger] url.pairs[i]).0)
        == url.pairs[i].0 && test(url.pairs[i]) == !volatile_key(url.pairs[i].0) by {
        let key = url.pairs[i].0;
        assert(plain_key(key) == key);
    }
    lemma_lasting_pairs_filtered(url.pairs, test);
    let kept = lasting_pairs(url.pairs);
    order::lemma_sort_of::<(Seq<char>, Seq<char>), order::ByPair>(kept);
    let ordered = order::sort_of::<(Seq<char>, Seq<char>), order::ByPair>(kept);
    if kept.len() > 0 {
        assert(canonical_query(url) == Some(urls::form_encoded(ordered)));
        assert forall|i: int, j: int| 0 <= i < j < ordered.len() implies order::pair_le(
            #[trigger] ordered[i],
            #[trigger] ordered[j],
        ) by {
            assert(<order::ByPair as order::Preorder<(Seq<char>, Seq<char>)>>::le(
                ordered[i],
                ordered[j],
            ));
        }
    }
}

/// A hash has sixteen digits.
proof fn lemma_hash_length(n: nat, width: nat)
    ensures
        numbers::hex_digits(n, width).len() == width,
    decreases width,
{
    if width > 0 {
        lemma_hash_length(n / 16, (width - 1) as nat);
    }
}

/// The hash of a query can be read off a file name, and makes it longer.
proof fn lemma_hash_in_name(name: Seq<char>, a: Seq<char>, b: Seq<char>)
    ensures
        hashed_name(name, a).len() > name.len(),
        hashed_name(name, a) == hashed_name(name, b) ==> numbers::text_hash(a)
            == numbers::text_hash(b),
{
    reveal_strlit("__q_");
    reveal_strlit(".");
    let x = numbers::text_hash(a);
    let y = numbers::text_hash(b);
    lemma_hash_length(numbers::fnv1a(vstd::utf8::encode_utf8(a)) as nat, 16);
    lemma_hash_length(numbers::fnv1a(vstd::utf8::encode_utf8(b)) as nat, 16);
    let one = hashed_name(name, a);
    let other = hashed_name(name, b);
    if name.len() > 0 {
        text::lemma_rindex_of(name, '.', name.len() - 1);
    }
    let at = match text::rindex_of(name, '.', name.len() - 1) {
        Some(i) => if i > 0 {
            i
        } else {
            name.len() as int
        },
        None => name.len() as int,
    };
    assert(one.subrange(at + 4, at + 20) == x);
    assert(other.subrange(at + 4, at + 20) == y);
}

/// Two URLs of one host and path whose canonical queries differ are saved to different files, unless
/// the hashes of the two queries are the same.
pub proof fn law_different_queries_different_files(
    mapper: MapperView,
    a: urls::UrlView,
    b: urls::UrlView,
    mimetype: Seq<char>,
)
    requires
        a.host == b.host,
        a.path == b.path,
        canonical_query(a) != canonical_query(b),
        canonical_query(a) matches Some(x) && canonical_query(b) matches Some(y)
            ==> numbers::text_hash(x) != numbers::text_hash(y),
    ensures
        local_path(mapper, a, mimetype) != local_path(mapper, b, mimetype),
{
    let hosts = host_names(mapper, a.host);
    let names = hosts + local_names(a.path, mimetype);
    let one = queried_path(names, a);
    let other = queried_path(names, b);
    let plain = path::PathView { absolute: false, parts: names };
    reveal_strlit("query__q_");
    match plain.file_name() {
        Some(name) => {
            match (canonical_query(a), canonical_query(b)) {
                (Some(x), Some(y)) => {
                    lemma_hash_in_name(name, x, y);
                    assert(one.parts.last() == hashed_name(name, x));
                    assert(other.parts.last() == hashed_name(name, y));
                },
                (Some(x), None) => {
                    lemma_hash_in_name(name, x, x);
                    assert(one.parts.last() == hashed_name(name, x));
                    assert(other.parts.last() == name);
                },
                (None, Some(y)) => {
                    lemma_hash_in_name(name, y, y);
                    assert(other.parts.last() == hashed_name(name, y));
                    assert(one.parts.last() == name);
                },
                _ => {},
            }
        },
        None => {
            match (canonical_query(a), canonical_query(b)) {
                (Some(x), Some(y)) => {
                    assert(one.parts.last() == "query__q_"@ + numbers::text_hash(x));
                    assert(other.parts.last() == "query__q_"@ + numbers::text_hash(y));
                    assert(("query__q_"@ + numbers::text_hash(x)).skip(9) == numbers::text_hash(x));
                    assert(("query__q_"@ + numbers::text_hash(y)).skip(9) == numbers::text_hash(y));
                },
                _ => {
                    assert(one.parts.len() != other.parts.len());
                },
            }
        },
    }
    assert(one.parts != other.parts);
    law_keeping_apart_is_undone(one.parts);
    law_keeping_apart_is_undone(other.parts);
}

/// Parameters that matter are left where there is one, and none where there is none.
pub proof fn lemma_some_pair_lasts(pairs: Seq<(Seq<char>, Seq<char>)>)
    ensures
        lasting_pairs(pairs).len() > 0 <==> exists|i: int|
            0 <= i < pairs.len() && !volatile_key(plain_key((#[trigger] pairs[i]).0)),
    decreases pairs.len(),
{
    if pairs.len() > 0 {
        let front = pairs.drop_last();
        lemma_some_pair_lasts(front);
        assert(pairs[pairs.len() - 1] == pairs.last());
        if lasting_pairs(front).len() > 0 {
            let i = choose|i: int|
                0 <= i < front.len() && !volatile_key(plain_key((#[trigger] front[i]).0));
            assert(pairs[i] == front[i]);
        }
        if exists|i: int|
            0 <= i < pairs.len() && !volatile_key(plain_key((#[trigger] pairs[i]).0)) {
            let i = choose|i: int|
                0 <= i < pairs.len() && !volatile_key(plain_key((#[trigger] pairs[i]).0));
            if i < front.len() {
                assert(front[i] == pairs[i]);
            }
        }
    }
}

/// A key in which no ampersand was escaped twice is plain.
pub proof fn lemma_key_is_plain(key: Seq<char>)
    requires
        !(key.len() >= 4 && text::lower(key.take(4)) == "amp;"@),
    ensures
        plain_key(key) == key,
{
    reveal_strlit("amp;");
    assert(text::lower("amp;"@) == "amp;"@);
}

/// Whether a name can stand on every disk as it is: it is not empty, neither starts nor ends with a
/// dot, and holds no slash, no control character and none of `\ : * ? " < > |`.
pub open spec fn is_ordinary(name: Seq<char>) -> bool {
    &&& name.len() > 0
    &&& name[0] != '.'
    &&& name.last() != '.'
    &&& forall|j: int|
        0 <= j < name.len() ==> {
            let c = #[trigger] name[j];
            &&& c != '/' && c != '\\' && c != ':' && c != '*' && c != '?' && c != '"'
            &&& c != '<' && c != '>' && c != '|'
            &&& c > '\u{1f}' && (c < '\u{7f}' || c > '\u{9f}')
        }
}

/// An ordinary name stands for itself.
pub proof fn lemma_ordinary(name: Seq<char>)
    requires
        is_ordinary(name),
    ensures
        is_plain_name(name),
{
    assert(masked(name) == name);
    text::lemma_trim_start_by(name, text::is_char('.'), 0);
    assert(name.skip(0) == name);
    text::lemma_trim_end_by(name, text::is_char('.'), name.len() as int);
    assert(name.take(name.len() as int) == name);
}

/// A path of ordinary names, with or without a slash at its end, is read name by name.
pub proof fn lemma_ordinary_path(names: Seq<Seq<char>>, url_path: Seq<char>)
    requires
        names.len() > 0,
        forall|i: int| 0 <= i < names.len() ==> is_ordinary(#[trigger] names[i]),
        url_path == "/"@ + text::join(names, "/"@) || url_path == "/"@ + text::join(names, "/"@)
            + "/"@,
    ensures
        path_names(url_path) == names,
        text::ends_with(url_path, "/"@) <==> url_path == "/"@ + text::join(names, "/"@) + "/"@,
{
    reveal_strlit("/");
    assert("/"@ == seq!['/']);
    assert forall|i: int| 0 <= i < names.len() implies is_plain_name(#[trigger] names[i]) by {
        assert(is_ordinary(names[i]));
        lemma_ordinary(names[i]);
    }
    assert(is_plain_name(names[0]) && is_plain_name(names[names.len() - 1]));
    lemma_plain_segments(names);
    assert(url_path[0] == '/');
    lemma_join_last(names);
    let joined = text::join(names, "/"@);
    if url_path == "/"@ + joined {
        assert(url_path.skip(1) == joined);
        text::lemma_split_join(names, '/');
        assert(url_path.last() == joined.last());
        if text::ends_with(url_path, "/"@) {
            assert(url_path.subrange(url_path.len() - 1, url_path.len() as int)[0] == '/');
        }
        if url_path == "/"@ + joined + "/"@ {
            assert(url_path.last() == '/');
        }
    } else {
        let all = names.push(Seq::<char>::empty());
        assert(all.drop_last() == names);
        assert(url_path.skip(1) == joined + seq!['/'] + Seq::<char>::empty());
        assert(text::join(all, "/"@) == joined + "/"@ + Seq::<char>::empty());
        assert(text::join(all, "/"@) == url_path.skip(1));
        assert forall|i: int| 0 <= i < all.len() implies !(#[trigger] all[i]).contains('/') by {
            if i < names.len() {
                assert(is_plain_name(names[i]));
            }
        }
        text::lemma_split_join(all, '/');
        assert(url_path.subrange(url_path.len() - 1, url_path.len() as int) == "/"@);
    }
}

/// Names of which the first does not start with an underscore are not kept apart.
pub proof fn lemma_no_host_folder(names: Seq<Seq<char>>)
    requires
        names.len() > 0 ==> names[0].len() > 0 && names[0][0] != '_',
    ensures
        kept_apart(names) == names,
{
    if names.len() > 0 {
        reveal_strlit("hosts");
        text::lemma_trim_start_by(names[0], text::is_char('_'), 0);
        assert(names[0].skip(0) == names[0]);
    }
}

/// A directory of the site is saved to the `index.html` in the directory of the same names, whatever
/// its media type, and the start page to `index.html`; those of another host lie in `_hosts`, in the
/// directory of the host.
pub proof fn law_directories_are_saved_as_index_pages(
    mapper: MapperView,
    url: urls::UrlView,
    host: Seq<char>,
    names: Seq<Seq<char>>,
    mimetype: Seq<char>,
)
    requires
        url.host == Some(host),
        is_ordinary(host),
        text::lower(host) == host,
        url.query is None,
        forall|i: int| 0 <= i < names.len() ==> is_ordinary(#[trigger] names[i]),
        names.len() > 0 ==> names[0][0] != '_',
        if names.len() == 0 {
            url.path == "/"@
        } else {
            url.path == "/"@ + text::join(names, "/"@) + "/"@
        },
    ensures
        !local_path(mapper, url, mimetype).absolute,
        local_path(mapper, url, mimetype).parts == if mapper.is_primary(host) {
            names.push("index.html"@)
        } else {
            seq!["_hosts"@, host] + names.push("index.html"@)
        },
{
    lemma_ordinary_host(mapper, host);
    if names.len() == 0 {
        reveal_strlit("/");
        assert(url.path.skip(1) == Seq::<char>::empty());
        text::lemma_split_plain(Seq::<char>::empty(), '/');
        let segments = seq![Seq::<char>::empty()];
        assert(segments.drop_last() == Seq::<Seq<char>>::empty());
        assert(segments.last().len() == 0);
        assert(safe_segments(segments) == safe_segments(Seq::<Seq<char>>::empty()));
        assert(safe_segments(Seq::<Seq<char>>::empty()) == names);
    } else {
        lemma_ordinary_path(names, url.path);
    }
    let local = names.push("index.html"@);
    assert(local_names(url.path, mimetype) == local);
    reveal_strlit("index.html");
    assert("index.html"@[0] == 'i');
    assert(local[0] == if names.len() == 0 { "index.html"@ } else { names[0] });
    lemma_no_host_folder(local);
    if mapper.is_primary(host) {
        assert(host_names(mapper, url.host) + local == local);
    }
}

/// A host in lower case that is an ordinary name is its own name.
proof fn lemma_ordinary_host(mapper: MapperView, host: Seq<char>)
    requires
        is_ordinary(host),
        text::lower(host) == host,
    ensures
        host_name(host) == host,
        safe_segment(host) == host,
        host_names(mapper, Some(host)) == if mapper.is_primary(host) {
            Seq::<Seq<char>>::empty()
        } else {
            seq!["_hosts"@, host]
        },
{
    lemma_ordinary(host);
    text::lemma_trim_end_by(host, text::is_char('.'), host.len() as int);
    assert(host.take(host.len() as int) == host);
}

/// A page without an extension is saved as the index page of a directory of its name. With an
/// extension of HTML files it keeps its name, and with any other it gets `.html` behind it.
#[verifier::spinoff_prover]
#[verifier::rlimit(50)]
pub proof fn law_pages_are_saved_as_html_files(
    mapper: MapperView,
    url: urls::UrlView,
    host: Seq<char>,
    names: Seq<Seq<char>>,
    stem: Seq<char>,
    extension: Seq<char>,
)
    requires
        url.host == Some(host),
        is_ordinary(host),
        text::lower(host) == host,
        mapper.is_primary(host),
        url.query is None,
        names.len() > 0,
        forall|i: int| 0 <= i < names.len() ==> is_ordinary(#[trigger] names[i]),
        names[0][0] != '_',
        url.path == "/"@ + text::join(names, "/"@),
        !extension.contains('.'),
        names.last() == stem + "."@ + extension || names.last() == stem && !stem.contains('.'),
    ensures
        !local_path(mapper, url, "text/html"@).absolute,
        local_path(mapper, url, "text/html"@).parts == if names.last() == stem && !stem.contains('.') {
            names.push("index.html"@)
        } else if text::lower(extension) == "html"@ || text::lower(extension) == "htm"@ || text::lower(
            extension,
        ) == "xhtml"@ {
            names
        } else {
            names.drop_last().push(names.last() + ".html"@)
        },
{
    lemma_ordinary_host(mapper, host);
    lemma_ordinary_path(names, url.path);
    lemma_join_last_slash(names);
    lemma_pages_have_no_other_extension();
    lemma_html_extensions();
    let name = names.last();
    assert(is_ordinary(names[names.len() - 1]));
    reveal_strlit(".");
    if name == stem && !stem.contains('.') {
        lemma_no_extension(name);
    } else {
        lemma_extension_is_read(stem, extension);
    }
    let local = local_names(url.path, "text/html"@);
    assert(names.drop_last().push(name) == names);
    assert(local[0][0] == names[0][0]) by {
        if names.len() > 1 {
            assert(local[0] == names[0]);
        }
    }
    assert(local[0].len() > 0);
    lemma_no_host_folder(local);
    assert(host_names(mapper, url.host) + local == local);
}

/// A path of names does not end with a slash.
pub proof fn lemma_join_last_slash(names: Seq<Seq<char>>)
    requires
        names.len() > 0,
        is_ordinary(names.last()),
    ensures
        !text::ends_with("/"@ + text::join(names, "/"@), "/"@),
{
    lemma_ordinary(names.last());
    lemma_join_last(names);
    reveal_strlit("/");
    let p = "/"@ + text::join(names, "/"@);
    assert(p.last() == text::join(names, "/"@).last());
    if text::ends_with(p, "/"@) {
        assert(p.subrange(p.len() - 1, p.len() as int)[0] == '/');
    }
}

/// The extensions of HTML files are written in lower case.
proof fn lemma_html_extensions()
    ensures
        text::lower("html"@) == "html"@,
        text::lower("htm"@) == "htm"@,
        text::lower("xhtml"@) == "xhtml"@,
{
    reveal_strlit("html");
    reveal_strlit("htm");
    reveal_strlit("xhtml");
    assert(text::lower("html"@) == "html"@);
    assert(text::lower("htm"@) == "htm"@);
    assert(text::lower("xhtml"@) == "xhtml"@);
}

/// A name without a dot has no extension.
pub proof fn lemma_no_extension(name: Seq<char>)
    requires
        !name.contains('.'),
    ensures
        extension_after_dot(name) is None,
        text::rindex_of(name, '.', name.len() - 1) is None,
{
    text::lemma_rindex_of(name, '.', name.len() - 1);
    match text::rindex_of(name, '.', name.len() - 1) {
        Some(i) => {
            assert(name.contains(name[i]));
        },
        None => {},
    }
}

/// The extension of a name is what follows its last dot.
pub proof fn lemma_extension_is_read(stem: Seq<char>, extension: Seq<char>)
    requires
        !extension.contains('.'),
    ensures
        text::rindex_of(stem + "."@ + extension, '.', (stem.len() + extension.len()) as int) == Some(
            stem.len() as int,
        ),
        extension.len() > 0 ==> extension_after_dot(stem + "."@ + extension) == Some(extension),
        (stem + "."@ + extension).len() == stem.len() + 1 + extension.len(),
{
    reveal_strlit(".");
    let name = stem + "."@ + extension;
    let at = stem.len() as int;
    assert(name[at] == '.');
    text::lemma_rindex_of(name, '.', name.len() - 1);
    match text::rindex_of(name, '.', name.len() - 1) {
        Some(i) => {
            if i > at {
                assert(extension[i - at - 1] == name[i]);
                assert(extension.contains(extension[i - at - 1]));
            }
            assert(i == at);
            assert(name.skip(i + 1) == extension);
        },
        None => {},
    }
}

/// A file of the site that is no page keeps its name where that has an extension of its media type,
/// and gets the extension of its media type behind its name otherwise. A file whose media type has
/// none keeps its name in any case.
#[verifier::spinoff_prover]
#[verifier::rlimit(50)]
pub proof fn law_files_get_the_extension_of_their_type(
    mapper: MapperView,
    url: urls::UrlView,
    host: Seq<char>,
    names: Seq<Seq<char>>,
    stem: Seq<char>,
    extension: Seq<char>,
    mimetype: Seq<char>,
)
    requires
        url.host == Some(host),
        is_ordinary(host),
        text::lower(host) == host,
        mapper.is_primary(host),
        url.query is None,
        names.len() > 0,
        forall|i: int| 0 <= i < names.len() ==> is_ordinary(#[trigger] names[i]),
        names[0][0] != '_',
        url.path == "/"@ + text::join(names, "/"@),
        !extension.contains('.'),
        names.last() == stem + "."@ + extension,
        text::trim(mimetype) == mimetype,
        text::lower(mimetype) == mimetype,
        !mimetype.contains(';'),
        mimetype != "text/html"@,
        mimetype != "application/xhtml+xml"@,
    ensures
        !local_path(mapper, url, mimetype).absolute,
        ({
            let m = mimetype;
            let e = text::lower(extension);
            let parts = local_path(mapper, url, mimetype).parts;
            let front = names.drop_last();
            let name = names.last();
            &&& m == "application/atom+xml"@ || m == "application/rss+xml"@ || m == "application/xml"@ || m == "text/xml"@ ==> parts == if e == "xml"@ || e == "rss"@ || e == "atom"@ {
                names
            } else {
                front.push(name + ".xml"@)
            }
            &&& m == "application/javascript"@ || m == "application/x-javascript"@ || m == "text/javascript"@ ==> parts == if e == "js"@ || e == "mjs"@ {
                names
            } else {
                front.push(name + ".js"@)
            }
            &&& m == "application/json"@ ==> parts == if e == "json"@ {
                names
            } else {
                front.push(name + ".json"@)
            }
            &&& m == "application/pdf"@ ==> parts == if e == "pdf"@ {
                names
            } else {
                front.push(name + ".pdf"@)
            }
            &&& m == "font/ttf"@ ==> parts == if e == "ttf"@ {
                names
            } else {
                front.push(name + ".ttf"@)
            }
            &&& m == "font/woff"@ ==> parts == if e == "woff"@ {
                names
            } else {
                front.push(name + ".woff"@)
            }
            &&& m == "font/woff2"@ ==> parts == if e == "woff2"@ {
                names
            } else {
                front.push(name + ".woff2"@)
            }
            &&& m == "image/gif"@ ==> parts == if e == "gif"@ {
                names
            } else {
                front.push(name + ".gif"@)
            }
            &&& m == "image/jpeg"@ || m == "image/jpg"@ ==> parts == if e == "jpg"@ || e == "jpeg"@ || e == "jpe"@ {
                names
            } else {
                front.push(name + ".jpg"@)
            }
            &&& m == "image/png"@ ==> parts == if e == "png"@ {
                names
            } else {
                front.push(name + ".png"@)
            }
            &&& m == "image/svg+xml"@ ==> parts == if e == "svg"@ {
                names
            } else {
                front.push(name + ".svg"@)
            }
            &&& m == "image/webp"@ ==> parts == if e == "webp"@ {
                names
            } else {
                front.push(name + ".webp"@)
            }
            &&& m == "image/x-icon"@ ==> parts == if e == "ico"@ {
                names
            } else {
                front.push(name + ".ico"@)
            }
            &&& m == "text/css"@ ==> parts == if e == "css"@ {
                names
            } else {
                front.push(name + ".css"@)
            }
            &&& m == "text/plain"@ ==> parts == if e == "txt"@ {
                names
            } else {
                front.push(name + ".txt"@)
            }
            &&& m != "application/atom+xml"@ && m != "application/rss+xml"@ && m != "application/xml"@ && m != "text/xml"@ && m != "application/javascript"@ && m != "application/x-javascript"@ && m != "text/javascript"@ && m != "application/json"@ && m != "application/pdf"@ && m != "font/ttf"@ && m != "font/woff"@ && m != "font/woff2"@ && m != "image/gif"@ && m != "image/jpeg"@ && m != "image/jpg"@ && m != "image/png"@ && m != "image/svg+xml"@ && m != "image/webp"@ && m != "image/x-icon"@ && m != "text/css"@ && m != "text/plain"@ ==> parts == names
        }),
{
    lemma_ordinary_host(mapper, host);
    lemma_ordinary_path(names, url.path);
    lemma_join_last_slash(names);
    let name = names.last();
    assert(is_ordinary(names[names.len() - 1]));
    reveal_strlit(".");
    lemma_extension_is_read(stem, extension);
    assert(extension.len() > 0) by {
        assert(name.last() != '.');
    }
    text::lemma_index_of(mimetype, ';', 0);
    match text::index_of(mimetype, ';', 0) {
        Some(i) => {
            assert(mimetype.contains(mimetype[i]));
        },
        None => {},
    }
    assert(bare_mimetype(mimetype) == mimetype);
    lemma_page_types_in_lower_case();
    assert(!html_mimetype(mimetype));
    lemma_wanted_extensions(name);
    lemma_types_differ();
    lemma_media_types_differ();
    assert(names.drop_last().push(name) == names);
    let local = local_names(url.path, mimetype);
    assert(local[0][0] == names[0][0] && local[0].len() > 0) by {
        if names.len() > 1 {
            assert(local[0] == names[0]);
        }
    }
    lemma_no_host_folder(local);
    assert(host_names(mapper, url.host) + local == local);
}

/// The media types of pages are written in lower case.
proof fn lemma_page_types_in_lower_case()
    ensures
        text::lower("text/html"@) == "text/html"@,
        text::lower("application/xhtml+xml"@) == "application/xhtml+xml"@,
{
    reveal_strlit("text/html");
    reveal_strlit("application/xhtml+xml");
    assert(text::lower("text/html"@) == "text/html"@);
    assert(text::lower("application/xhtml+xml"@) == "application/xhtml+xml"@);
}

/// The extensions of media types are written in lower case, and stand behind a dot.
proof fn lemma_wanted_extensions(name: Seq<char>)
    ensures
        text::lower("xml"@) == "xml"@,
        text::lower("rss"@) == "rss"@,
        text::lower("atom"@) == "atom"@,
        text::lower("js"@) == "js"@,
        text::lower("mjs"@) == "mjs"@,
        text::lower("json"@) == "json"@,
        text::lower("pdf"@) == "pdf"@,
        text::lower("ttf"@) == "ttf"@,
        text::lower("woff"@) == "woff"@,
        text::lower("woff2"@) == "woff2"@,
        text::lower("gif"@) == "gif"@,
        text::lower("jpg"@) == "jpg"@,
        text::lower("jpeg"@) == "jpeg"@,
        text::lower("jpe"@) == "jpe"@,
        text::lower("png"@) == "png"@,
        text::lower("svg"@) == "svg"@,
        text::lower("webp"@) == "webp"@,
        text::lower("ico"@) == "ico"@,
        text::lower("css"@) == "css"@,
        text::lower("txt"@) == "txt"@,
        name + "."@ + "xml"@ == name + ".xml"@,
        name + "."@ + "js"@ == name + ".js"@,
        name + "."@ + "json"@ == name + ".json"@,
        name + "."@ + "pdf"@ == name + ".pdf"@,
        name + "."@ + "ttf"@ == name + ".ttf"@,
        name + "."@ + "woff"@ == name + ".woff"@,
        name + "."@ + "woff2"@ == name + ".woff2"@,
        name + "."@ + "gif"@ == name + ".gif"@,
        name + "."@ + "jpg"@ == name + ".jpg"@,
        name + "."@ + "png"@ == name + ".png"@,
        name + "."@ + "svg"@ == name + ".svg"@,
        name + "."@ + "webp"@ == name + ".webp"@,
        name + "."@ + "ico"@ == name + ".ico"@,
        name + "."@ + "css"@ == name + ".css"@,
        name + "."@ + "txt"@ == name + ".txt"@,
{
    reveal_strlit(".");
    reveal_strlit("xml");
    reveal_strlit("rss");
    reveal_strlit("atom");
    reveal_strlit("js");
    reveal_strlit("mjs");
    reveal_strlit("json");
    reveal_strlit("pdf");
    reveal_strlit("ttf");
    reveal_strlit("woff");
    reveal_strlit("woff2");
    reveal_strlit("gif");
    reveal_strlit("jpg");
    reveal_strlit("jpeg");
    reveal_strlit("jpe");
    reveal_strlit("png");
    reveal_strlit("svg");
    reveal_strlit("webp");
    reveal_strlit("ico");
    reveal_strlit("css");
    reveal_strlit("txt");
    reveal_strlit(".xml");
    reveal_strlit(".js");
    reveal_strlit(".json");
    reveal_strlit(".pdf");
    reveal_strlit(".ttf");
    reveal_strlit(".woff");
    reveal_strlit(".woff2");
    reveal_strlit(".gif");
    reveal_strlit(".jpg");
    reveal_strlit(".png");
    reveal_strlit(".svg");
    reveal_strlit(".webp");
    reveal_strlit(".ico");
    reveal_strlit(".css");
    reveal_strlit(".txt");
    assert(text::lower("xml"@) == "xml"@);
    assert(text::lower("rss"@) == "rss"@);
    assert(text::lower("atom"@) == "atom"@);
    assert(text::lower("js"@) == "js"@);
    assert(text::lower("mjs"@) == "mjs"@);
    assert(text::lower("json"@) == "json"@);
    assert(text::lower("pdf"@) == "pdf"@);
    assert(text::lower("ttf"@) == "ttf"@);
    assert(text::lower("woff"@) == "woff"@);
    assert(text::lower("woff2"@) == "woff2"@);
    assert(text::lower("gif"@) == "gif"@);
    assert(text::lower("jpg"@) == "jpg"@);
    assert(text::lower("jpeg"@) == "jpeg"@);
    assert(text::lower("jpe"@) == "jpe"@);
    assert(text::lower("png"@) == "png"@);
    assert(text::lower("svg"@) == "svg"@);
    assert(text::lower("webp"@) == "webp"@);
    assert(text::lower("ico"@) == "ico"@);
    assert(text::lower("css"@) == "css"@);
    assert(text::lower("txt"@) == "txt"@);
    assert(name + "."@ + "xml"@ == name + ".xml"@);
    assert(name + "."@ + "js"@ == name + ".js"@);
    assert(name + "."@ + "json"@ == name + ".json"@);
    assert(name + "."@ + "pdf"@ == name + ".pdf"@);
    assert(name + "."@ + "ttf"@ == name + ".ttf"@);
    assert(name + "."@ + "woff"@ == name + ".woff"@);
    assert(name + "."@ + "woff2"@ == name + ".woff2"@);
    assert(name + "."@ + "gif"@ == name + ".gif"@);
    assert(name + "."@ + "jpg"@ == name + ".jpg"@);
    assert(name + "."@ + "png"@ == name + ".png"@);
    assert(name + "."@ + "svg"@ == name + ".svg"@);
    assert(name + "."@ + "webp"@ == name + ".webp"@);
    assert(name + "."@ + "ico"@ == name + ".ico"@);
    assert(name + "."@ + "css"@ == name + ".css"@);
    assert(name + "."@ + "txt"@ == name + ".txt"@);
}

/// The extensions for which others stand as well, told apart from the rest.
proof fn lemma_types_differ()
    ensures
        "jpg"@ != "xml"@,
        "jpg"@ != "js"@,
        "jpg"@ != "json"@,
        "jpg"@ != "pdf"@,
        "jpg"@ != "ttf"@,
        "jpg"@ != "woff"@,
        "jpg"@ != "woff2"@,
        "jpg"@ != "gif"@,
        "jpg"@ != "png"@,
        "jpg"@ != "svg"@,
        "jpg"@ != "webp"@,
        "jpg"@ != "ico"@,
        "jpg"@ != "css"@,
        "jpg"@ != "txt"@,
        "js"@ != "xml"@,
        "js"@ != "json"@,
        "js"@ != "pdf"@,
        "js"@ != "ttf"@,
        "js"@ != "woff"@,
        "js"@ != "woff2"@,
        "js"@ != "gif"@,
        "js"@ != "jpg"@,
        "js"@ != "png"@,
        "js"@ != "svg"@,
        "js"@ != "webp"@,
        "js"@ != "ico"@,
        "js"@ != "css"@,
        "js"@ != "txt"@,
        "xml"@ != "js"@,
        "xml"@ != "json"@,
        "xml"@ != "pdf"@,
        "xml"@ != "ttf"@,
        "xml"@ != "woff"@,
        "xml"@ != "woff2"@,
        "xml"@ != "gif"@,
        "xml"@ != "jpg"@,
        "xml"@ != "png"@,
        "xml"@ != "svg"@,
        "xml"@ != "webp"@,
        "xml"@ != "ico"@,
        "xml"@ != "css"@,
        "xml"@ != "txt"@,
{
    reveal_strlit("xml");
    reveal_strlit("js");
    reveal_strlit("json");
    reveal_strlit("pdf");
    reveal_strlit("ttf");
    reveal_strlit("woff");
    reveal_strlit("woff2");
    reveal_strlit("gif");
    reveal_strlit("jpg");
    reveal_strlit("png");
    reveal_strlit("svg");
    reveal_strlit("webp");
    reveal_strlit("ico");
    reveal_strlit("css");
    reveal_strlit("txt");
    assert("xml"@.len() == 3 && "xml"@[0] == 'x' && "xml"@[1] == 'm' && "xml"@[2] == 'l');
    assert("js"@.len() == 2 && "js"@[0] == 'j' && "js"@[1] == 's');
    assert("json"@.len() == 4 && "json"@[0] == 'j' && "json"@[1] == 's' && "json"@[2] == 'o' && "json"@[3] == 'n');
    assert("pdf"@.len() == 3 && "pdf"@[0] == 'p' && "pdf"@[1] == 'd' && "pdf"@[2] == 'f');
    assert("ttf"@.len() == 3 && "ttf"@[0] == 't' && "ttf"@[1] == 't' && "ttf"@[2] == 'f');
    assert("woff"@.len() == 4 && "woff"@[0] == 'w' && "woff"@[1] == 'o' && "woff"@[2] == 'f' && "woff"@[3] == 'f');
    assert("woff2"@.len() == 5 && "woff2"@[0] == 'w' && "woff2"@[1] == 'o' && "woff2"@[2] == 'f' && "woff2"@[3] == 'f' && "woff2"@[4] == '2');
    assert("gif"@.len() == 3 && "gif"@[0] == 'g' && "gif"@[1] == 'i' && "gif"@[2] == 'f');
    assert("jpg"@.len() == 3 && "jpg"@[0] == 'j' && "jpg"@[1] == 'p' && "jpg"@[2] == 'g');
    assert("png"@.len() == 3 && "png"@[0] == 'p' && "png"@[1] == 'n' && "png"@[2] == 'g');
    assert("svg"@.len() == 3 && "svg"@[0] == 's' && "svg"@[1] == 'v' && "svg"@[2] == 'g');
    assert("webp"@.len() == 4 && "webp"@[0] == 'w' && "webp"@[1] == 'e' && "webp"@[2] == 'b' && "webp"@[3] == 'p');
    assert("ico"@.len() == 3 && "ico"@[0] == 'i' && "ico"@[1] == 'c' && "ico"@[2] == 'o');
    assert("css"@.len() == 3 && "css"@[0] == 'c' && "css"@[1] == 's' && "css"@[2] == 's');
    assert("txt"@.len() == 3 && "txt"@[0] == 't' && "txt"@[1] == 'x' && "txt"@[2] == 't');
}

/// The media types with different extensions are different.
proof fn lemma_media_types_differ()
    ensures
        "application/javascript"@ != "application/atom+xml"@,
        "application/x-javascript"@ != "application/atom+xml"@,
        "text/javascript"@ != "application/atom+xml"@,
        "application/javascript"@ != "application/rss+xml"@,
        "application/x-javascript"@ != "application/rss+xml"@,
        "text/javascript"@ != "application/rss+xml"@,
        "application/javascript"@ != "application/xml"@,
        "application/x-javascript"@ != "application/xml"@,
        "text/javascript"@ != "application/xml"@,
        "application/javascript"@ != "text/xml"@,
        "application/x-javascript"@ != "text/xml"@,
        "text/javascript"@ != "text/xml"@,
        "application/json"@ != "application/atom+xml"@,
        "application/json"@ != "application/rss+xml"@,
        "application/json"@ != "application/xml"@,
        "application/json"@ != "text/xml"@,
        "application/json"@ != "application/javascript"@,
        "application/json"@ != "application/x-javascript"@,
        "application/json"@ != "text/javascript"@,
        "application/pdf"@ != "application/atom+xml"@,
        "application/pdf"@ != "application/rss+xml"@,
        "application/pdf"@ != "application/xml"@,
        "application/pdf"@ != "text/xml"@,
        "application/pdf"@ != "application/javascript"@,
        "application/pdf"@ != "application/x-javascript"@,
        "application/pdf"@ != "text/javascript"@,
        "application/pdf"@ != "application/json"@,
        "font/ttf"@ != "application/atom+xml"@,
        "font/ttf"@ != "application/rss+xml"@,
        "font/ttf"@ != "application/xml"@,
        "font/ttf"@ != "text/xml"@,
        "font/ttf"@ != "application/javascript"@,
        "font/ttf"@ != "application/x-javascript"@,
        "font/ttf"@ != "text/javascript"@,
        "font/ttf"@ != "application/json"@,
        "font/ttf"@ != "application/pdf"@,
        "font/woff"@ != "application/atom+xml"@,
        "font/woff"@ != "application/rss+xml"@,
        "font/woff"@ != "application/xml"@,
        "font/woff"@ != "text/xml"@,
        "font/woff"@ != "application/javascript"@,
        "font/woff"@ != "application/x-javascript"@,
        "font/woff"@ != "text/javascript"@,
        "font/woff"@ != "application/json"@,
        "font/woff"@ != "application/pdf"@,
        "font/woff"@ != "font/ttf"@,
        "font/woff2"@ != "application/atom+xml"@,
        "font/woff2"@ != "application/rss+xml"@,
        "font/woff2"@ != "application/xml"@,
        "font/woff2"@ != "text/xml"@,
        "font/woff2"@ != "application/javascript"@,
        "font/woff2"@ != "application/x-javascript"@,
        "font/woff2"@ != "text/javascript"@,
        "font/woff2"@ != "application/json"@,
        "font/woff2"@ != "application/pdf"@,
        "font/woff2"@ != "font/ttf"@,
        "font/woff2"@ != "font/woff"@,
        "image/gif"@ != "application/atom+xml"@,
        "image/gif"@ != "application/rss+xml"@,
        "image/gif"@ != "application/xml"@,
        "image/gif"@ != "text/xml"@,
        "image/gif"@ != "application/javascript"@,
        "image/gif"@ != "application/x-javascript"@,
        "image/gif"@ != "text/javascript"@,
        "image/gif"@ != "application/json"@,
        "image/gif"@ != "application/pdf"@,
        "image/gif"@ != "font/ttf"@,
        "image/gif"@ != "font/woff"@,
        "image/gif"@ != "font/woff2"@,
        "image/jpeg"@ != "application/atom+xml"@,
        "image/jpg"@ != "application/atom+xml"@,
        "image/jpeg"@ != "application/rss+xml"@,
        "image/jpg"@ != "application/rss+xml"@,
        "image/jpeg"@ != "application/xml"@,
        "image/jpg"@ != "application/xml"@,
        "image/jpeg"@ != "text/xml"@,
        "image/jpg"@ != "text/xml"@,
        "image/jpeg"@ != "application/javascript"@,
        "image/jpg"@ != "application/javascript"@,
        "image/jpeg"@ != "application/x-javascript"@,
        "image/jpg"@ != "application/x-javascript"@,
        "image/jpeg"@ != "text/javascript"@,
        "image/jpg"@ != "text/javascript"@,
        "image/jpeg"@ != "application/json"@,
        "image/jpg"@ != "application/json"@,
        "image/jpeg"@ != "application/pdf"@,
        "image/jpg"@ != "application/pdf"@,
        "image/jpeg"@ != "font/ttf"@,
        "image/jpg"@ != "font/ttf"@,
        "image/jpeg"@ != "font/woff"@,
        "image/jpg"@ != "font/woff"@,
        "image/jpeg"@ != "font/woff2"@,
        "image/jpg"@ != "font/woff2"@,
        "image/jpeg"@ != "image/gif"@,
        "image/jpg"@ != "image/gif"@,
        "image/png"@ != "application/atom+xml"@,
        "image/png"@ != "application/rss+xml"@,
        "image/png"@ != "application/xml"@,
        "image/png"@ != "text/xml"@,
        "image/png"@ != "application/javascript"@,
        "image/png"@ != "application/x-javascript"@,
        "image/png"@ != "text/javascript"@,
        "image/png"@ != "application/json"@,
        "image/png"@ != "application/pdf"@,
        "image/png"@ != "font/ttf"@,
        "image/png"@ != "font/woff"@,
        "image/png"@ != "font/woff2"@,
        "image/png"@ != "image/gif"@,
        "image/png"@ != "image/jpeg"@,
        "image/png"@ != "image/jpg"@,
        "image/svg+xml"@ != "application/atom+xml"@,
        "image/svg+xml"@ != "application/rss+xml"@,
        "image/svg+xml"@ != "application/xml"@,
        "image/svg+xml"@ != "text/xml"@,
        "image/svg+xml"@ != "application/javascript"@,
        "image/svg+xml"@ != "application/x-javascript"@,
        "image/svg+xml"@ != "text/javascript"@,
        "image/svg+xml"@ != "application/json"@,
        "image/svg+xml"@ != "application/pdf"@,
        "image/svg+xml"@ != "font/ttf"@,
        "image/svg+xml"@ != "font/woff"@,
        "image/svg+xml"@ != "font/woff2"@,
        "image/svg+xml"@ != "image/gif"@,
        "image/svg+xml"@ != "image/jpeg"@,
        "image/svg+xml"@ != "image/jpg"@,
        "image/svg+xml"@ != "image/png"@,
        "image/webp"@ != "application/atom+xml"@,
        "image/webp"@ != "application/rss+xml"@,
        "image/webp"@ != "application/xml"@,
        "image/webp"@ != "text/xml"@,
        "image/webp"@ != "application/javascript"@,
        "image/webp"@ != "application/x-javascript"@,
        "image/webp"@ != "text/javascript"@,
        "image/webp"@ != "application/json"@,
        "image/webp"@ != "application/pdf"@,
        "image/webp"@ != "font/ttf"@,
        "image/webp"@ != "font/woff"@,
        "image/webp"@ != "font/woff2"@,
        "image/webp"@ != "image/gif"@,
        "image/webp"@ != "image/jpeg"@,
        "image/webp"@ != "image/jpg"@,
        "image/webp"@ != "image/png"@,
        "image/webp"@ != "image/svg+xml"@,
        "image/x-icon"@ != "application/atom+xml"@,
        "image/x-icon"@ != "application/rss+xml"@,
        "image/x-icon"@ != "application/xml"@,
        "image/x-icon"@ != "text/xml"@,
        "image/x-icon"@ != "application/javascript"@,
        "image/x-icon"@ != "application/x-javascript"@,
        "image/x-icon"@ != "text/javascript"@,
        "image/x-icon"@ != "application/json"@,
        "image/x-icon"@ != "application/pdf"@,
        "image/x-icon"@ != "font/ttf"@,
        "image/x-icon"@ != "font/woff"@,
        "image/x-icon"@ != "font/woff2"@,
        "image/x-icon"@ != "image/gif"@,
        "image/x-icon"@ != "image/jpeg"@,
        "image/x-icon"@ != "image/jpg"@,
        "image/x-icon"@ != "image/png"@,
        "image/x-icon"@ != "image/svg+xml"@,
        "image/x-icon"@ != "image/webp"@,
        "text/css"@ != "application/atom+xml"@,
        "text/css"@ != "application/rss+xml"@,
        "text/css"@ != "application/xml"@,
        "text/css"@ != "text/xml"@,
        "text/css"@ != "application/javascript"@,
        "text/css"@ != "application/x-javascript"@,
        "text/css"@ != "text/javascript"@,
        "text/css"@ != "application/json"@,
        "text/css"@ != "application/pdf"@,
        "text/css"@ != "font/ttf"@,
        "text/css"@ != "font/woff"@,
        "text/css"@ != "font/woff2"@,
        "text/css"@ != "image/gif"@,
        "text/css"@ != "image/jpeg"@,
        "text/css"@ != "image/jpg"@,
        "text/css"@ != "image/png"@,
        "text/css"@ != "image/svg+xml"@,
        "text/css"@ != "image/webp"@,
        "text/css"@ != "image/x-icon"@,
        "text/plain"@ != "application/atom+xml"@,
        "text/plain"@ != "application/rss+xml"@,
        "text/plain"@ != "application/xml"@,
        "text/plain"@ != "text/xml"@,
        "text/plain"@ != "application/javascript"@,
        "text/plain"@ != "application/x-javascript"@,
        "text/plain"@ != "text/javascript"@,
        "text/plain"@ != "application/json"@,
        "text/plain"@ != "application/pdf"@,
        "text/plain"@ != "font/ttf"@,
        "text/plain"@ != "font/woff"@,
        "text/plain"@ != "font/woff2"@,
        "text/plain"@ != "image/gif"@,
        "text/plain"@ != "image/jpeg"@,
        "text/plain"@ != "image/jpg"@,
        "text/plain"@ != "image/png"@,
        "text/plain"@ != "image/svg+xml"@,
        "text/plain"@ != "image/webp"@,
        "text/plain"@ != "image/x-icon"@,
        "text/plain"@ != "text/css"@,
{
    reveal_strlit("application/atom+xml");
    reveal_strlit("application/rss+xml");
    reveal_strlit("application/xml");
    reveal_strlit("text/xml");
    reveal_strlit("application/javascript");
    reveal_strlit("application/x-javascript");
    reveal_strlit("text/javascript");
    reveal_strlit("application/json");
    reveal_strlit("application/pdf");
    reveal_strlit("font/ttf");
    reveal_strlit("font/woff");
    reveal_strlit("font/woff2");
    reveal_strlit("image/gif");
    reveal_strlit("image/jpeg");
    reveal_strlit("image/jpg");
    reveal_strlit("image/png");
    reveal_strlit("image/svg+xml");
    reveal_strlit("image/webp");
    reveal_strlit("image/x-icon");
    reveal_strlit("text/css");
    reveal_strlit("text/plain");
    assert("application/atom+xml"@.len() == 20);
    assert("application/rss+xml"@.len() == 19);
    assert("application/xml"@.len() == 15 && "application/xml"@[0] == 'a' && "application/xml"@[12] == 'x');
    assert("text/xml"@.len() == 8 && "text/xml"@[0] == 't' && "text/xml"@[5] == 'x');
    assert("application/javascript"@.len() == 22);
    assert("application/x-javascript"@.len() == 24);
    assert("text/javascript"@.len() == 15 && "text/javascript"@[0] == 't');
    assert("application/json"@.len() == 16);
    assert("application/pdf"@.len() == 15 && "application/pdf"@[0] == 'a' && "application/pdf"@[12] == 'p');
    assert("font/ttf"@.len() == 8 && "font/ttf"@[0] == 'f');
    assert("font/woff"@.len() == 9 && "font/woff"@[0] == 'f');
    assert("font/woff2"@.len() == 10 && "font/woff2"@[0] == 'f');
    assert("image/gif"@.len() == 9 && "image/gif"@[0] == 'i' && "image/gif"@[6] == 'g');
    assert("image/jpeg"@.len() == 10 && "image/jpeg"@[0] == 'i' && "image/jpeg"@[6] == 'j');
    assert("image/jpg"@.len() == 9 && "image/jpg"@[0] == 'i' && "image/jpg"@[6] == 'j');
    assert("image/png"@.len() == 9 && "image/png"@[0] == 'i' && "image/png"@[6] == 'p');
    assert("image/svg+xml"@.len() == 13);
    assert("image/webp"@.len() == 10 && "image/webp"@[0] == 'i' && "image/webp"@[6] == 'w');
    assert("image/x-icon"@.len() == 12);
    assert("text/css"@.len() == 8 && "text/css"@[0] == 't' && "text/css"@[5] == 'c');
    assert("text/plain"@.len() == 10 && "text/plain"@[0] == 't');
}

/// The hosts at the top of a saved site are the host that was asked for, with and without `www.`
/// before it, whichever of the two was asked for. Its subdomains are related to it, and no other host
/// is.
#[verifier::spinoff_prover]
#[verifier::rlimit(50)]
pub proof fn law_primary_and_related_hosts(name: Seq<char>, asked: Seq<char>, host: Seq<char>)
    requires
        name.len() > 0,
        name.last() != '.',
        text::lower(name) == name,
        !text::starts_with(name, "www."@),
        asked == name || asked == "www."@ + name,
        host.len() > 0,
        host.last() != '.',
    ensures
        mapper_for(asked).root_host == asked,
        mapper_for(asked).is_primary(host) <==> text::lower(host) == name || text::lower(host)
            == "www."@ + name,
        mapper_for(asked).is_related(host) <==> text::lower(host) == name || text::lower(host)
            == "www."@ + name || text::ends_with(text::lower(host), "."@ + name),
{
    reveal_strlit("www.");
    let other = "www."@ + name;
    assert(text::lower(other) == other) by {
        assert forall|i: int| 0 <= i < other.len() implies text::lower_char(#[trigger] other[i])
            == other[i] by {
            if i >= 4 {
                assert(text::lower(name)[i - 4] == name[i - 4]);
            }
        }
    }
    assert(other.subrange(0, 4) == "www."@);
    assert(other.skip(4) == name);
    assert(other.last() == name.last());
    assert forall|h: Seq<char>| #![trigger host_name(h)] h.len() > 0 && h.last() != '.' implies host_name(
        h,
    ) == text::lower(h) by {
        text::lemma_trim_end_by(h, text::is_char('.'), h.len() as int);
        assert(h.take(h.len() as int) == h);
    }
    assert(host_name(asked) == asked);
    let mapper = mapper_for(asked);
    let hosts = if asked == name { seq![name, other] } else { seq![other, name] };
    assert(name != other) by {
        assert(name.len() + 4 == other.len());
    }
    assert(mapper.primary_hosts == order::sort_dedup_of(hosts));
    order::lemma_sort_dedup_of(hosts);
    assert(hosts[0] == name || hosts[1] == name);
    assert(hosts[0] == other || hosts[1] == other);
    assert(hosts.contains(name) && hosts.contains(other));
    assert(mapper.primary_hosts.contains(name) && mapper.primary_hosts.contains(other));
    let low = text::lower(host);
    assert(text::lower(low) == low) by {
        assert forall|i: int| 0 <= i < low.len() implies text::lower_char(#[trigger] low[i])
            == low[i] by {}
    }
    assert(host_name(host) == low);
    if low == name {
        let i = choose|i: int|
            0 <= i < mapper.primary_hosts.len() && mapper.primary_hosts[i] == name;
        assert(text::same_ignoring_case(mapper.primary_hosts[i], host_name(host)));
    }
    if low == other {
        let i = choose|i: int|
            0 <= i < mapper.primary_hosts.len() && mapper.primary_hosts[i] == other;
        assert(text::same_ignoring_case(mapper.primary_hosts[i], host_name(host)));
    }
    if mapper.is_primary(host) {
        let i = choose|i: int|
            0 <= i < mapper.primary_hosts.len() && text::same_ignoring_case(
                #[trigger] mapper.primary_hosts[i],
                host_name(host),
            );
        assert(mapper.primary_hosts.contains(mapper.primary_hosts[i]));
        assert(hosts.contains(mapper.primary_hosts[i]));
    }
    assert(mapper.base_host() == name);
}

/// What a user asks for is read as a URL as it stands, and with `http://` before it where it has no
/// scheme. Any other error is passed on.
pub proof fn law_targets_without_a_scheme_are_http(input: Seq<char>)
    ensures
        urls::url_parse(input) is Ok ==> user_url(input) == urls::url_parse(input),
        urls::url_parse(input) matches Err(e) ==> user_url(input) == if e
            == UrlError::RelativeUrlWithoutBase {
            urls::url_parse("http://"@ + input)
        } else {
            urls::url_parse(input)
        },
{
}

/// A URL is looked up without its fragment, on its host in lower case and with its canonical query.
/// What is no URL is looked up as it stands.
pub proof fn law_urls_are_looked_up_by_page(
    input: Seq<char>,
    url: urls::UrlView,
    host: Seq<char>,
    plain: Seq<char>,
    hosted: Seq<char>,
    whole: Seq<char>,
)
    requires
        host.len() > 0,
        host.last() != '.',
        urls::url_without_fragment(input) == Some(plain),
        urls::url_with_host(plain, text::lower(host)) == Some(hosted),
        urls::url_with_query(hosted, canonical_query(url)) == Some(whole),
        url.host == Some(host),
    ensures
        urls::url_parse(input) == Ok::<urls::UrlView, UrlError>(url) ==> lookup_key(input) == whole,
        urls::url_parse(input) is Err ==> lookup_key(input) == input,
{
    text::lemma_trim_end_by(host, text::is_char('.'), host.len() as int);
    assert(host.take(host.len() as int) == host);
}

/// A replay URL of the archive is read as the URL that was captured, with the query behind it where
/// that is wanted, whatever the time of the capture.
pub proof fn law_replay_urls_are_unwrapped(
    value: Seq<char>,
    url: urls::UrlView,
    stamp: Seq<char>,
    original: Seq<char>,
)
    requires
        urls::url_parse(value) == Ok::<urls::UrlView, UrlError>(url),
        url.host == Some("web.archive.org"@),
        url.path == "/web/"@ + stamp + "/"@ + original,
        !stamp.contains('/'),
    ensures
        unwrapped(value) == match url.query {
            Some(query) => original + "?"@ + query,
            None => original,
        },
        unwrapped_path(value) == original,
{
    reveal_strlit("/web/");
    reveal_strlit("/");
    assert(url.path.subrange(0, 5) == "/web/"@);
    let rest = url.path.skip(5);
    assert(rest == stamp + "/"@ + original);
    text::lemma_index_of(rest, '/', 0);
    let n = stamp.len() as int;
    assert(rest[n] == '/');
    let i = text::index_of(rest, '/', 0)->Some_0;
    if i < n {
        assert(stamp[i] == rest[i]);
        assert(stamp.contains(stamp[i]));
    }
    assert(i == n);
    assert(rest.skip(n + 1) == original);
}

/// What is no replay URL of the archive stays as it is: a text that is no URL, a URL of another host,
/// and one with another path.
pub proof fn law_other_urls_are_not_unwrapped(value: Seq<char>)
    requires
        urls::url_parse(value) matches Ok(url) ==> (url.host matches Some(h) ==> text::lower(h)
            != "web.archive.org"@) || !text::starts_with(url.path, "/web/"@),
    ensures
        unwrapped(value) == value,
        unwrapped_path(value) == value,
{
    reveal_strlit("web.archive.org");
    assert(text::lower("web.archive.org"@) == "web.archive.org"@);
}

/// In the name of a directory of the site each character that cannot stand in a file name is an
/// underscore, and every other character is as it was.
pub proof fn law_unsafe_characters_become_underscores(
    mapper: MapperView,
    url: urls::UrlView,
    host: Seq<char>,
    segment: Seq<char>,
    mimetype: Seq<char>,
)
    requires
        url.host == Some(host),
        is_ordinary(host),
        text::lower(host) == host,
        url.query is None,
        segment.len() > 0,
        !segment.contains('/'),
        'a' <= segment[0] <= 'z',
        segment.last() != '.',
        url.path == "/"@ + segment + "/"@,
    ensures
        ({
            let parts = local_path(mapper, url, mimetype).parts;
            let name = parts[parts.len() - 2];
            &&& parts.len() == if mapper.is_primary(host) {
                2int
            } else {
                4int
            }
            &&& parts.last() == "index.html"@
            &&& name.len() == segment.len()
            &&& forall|j: int|
                0 <= j < segment.len() ==> {
                    let c = #[trigger] segment[j];
                    name[j] == if c == '\\' || c == ':' || c == '*' || c == '?' || c
                        == '"' || c == '<' || c == '>' || c == '|' || c <= '\u{1f}' || ('\u{7f}' <= c
                        && c <= '\u{9f}') {
                        '_'
                    } else {
                        c
                    }
                }
        }),
{
    lemma_ordinary_host(mapper, host);
    reveal_strlit("/");
    assert("/"@ == seq!['/']);
    let all = seq![segment, Seq::<char>::empty()];
    assert(all.drop_last() == seq![segment]);
    assert(text::join(seq![segment], "/"@) == segment);
    assert(all.last() == Seq::<char>::empty());
    assert(text::join(all, "/"@) == segment + "/"@ + Seq::<char>::empty());
    assert(url.path.skip(1) == text::join(all, "/"@));
    assert forall|i: int| 0 <= i < all.len() implies !(#[trigger] all[i]).contains('/') by {}
    text::lemma_split_join(all, '/');
    assert(url.path[0] == '/');
    let m = masked(segment);
    text::lemma_trim_start_by(m, text::is_char('.'), 0);
    assert(m.skip(0) == m);
    text::lemma_trim_end_by(m, text::is_char('.'), m.len() as int);
    assert(m.take(m.len() as int) == m);
    assert(safe_segment(segment) == m);
    assert(seq![segment].drop_last() == Seq::<Seq<char>>::empty());
    assert(safe_segments(Seq::<Seq<char>>::empty()) == Seq::<Seq<char>>::empty());
    assert(safe_segments(seq![segment]) == seq![m]);
    assert(safe_segments(all) == seq![m]);
    assert(url.path.subrange(url.path.len() - 1, url.path.len() as int) == "/"@);
    let local = seq![m].push("index.html"@);
    assert(local_names(url.path, mimetype) == local);
    assert(local[0] == m);
    lemma_no_host_folder(local);
    assert forall|j: int| 0 <= j < segment.len() implies segment[j] != '/' by {
        assert(segment.contains(segment[j]));
    }
    if mapper.is_primary(host) {
        assert(host_names(mapper, url.host) + local == local);
    }
}

/// A parameter whose ampersand was escaped twice counts as the parameter that was meant.
pub proof fn law_twice_escaped_ampersands_do_not_matter(
    before: Seq<(Seq<char>, Seq<char>)>,
    key: Seq<char>,
    value: Seq<char>,
    after: Seq<(Seq<char>, Seq<char>)>,
)
    requires
        !(key.len() >= 4 && text::lower(key.take(4)) == "amp;"@),
    ensures
        lasting_pairs(before.push(("amp;"@ + key, value)) + after) == lasting_pairs(
            before.push((key, value)) + after,
        ),
    decreases after.len(),
{
    let a = before.push(("amp;"@ + key, value)) + after;
    let b = before.push((key, value)) + after;
    if after.len() == 0 {
        reveal_strlit("amp;");
        lemma_key_is_plain(key);
        assert(("amp;"@ + key).take(4) == "amp;"@);
        assert(("amp;"@ + key).skip(4) == key);
        assert(a.drop_last() == before);
        assert(b.drop_last() == before);
        assert(a.last() == ("amp;"@ + key, value));
        assert(b.last() == (key, value));
    } else {
        law_twice_escaped_ampersands_do_not_matter(before, key, value, after.drop_last());
        assert(a.drop_last() == before.push(("amp;"@ + key, value)) + after.drop_last());
        assert(b.drop_last() == before.push((key, value)) + after.drop_last());
        assert(a.last() == after.last() && b.last() == after.last());
    }
}

/// The hash of the canonical query stands before the extension of the file.
pub proof fn law_queries_are_hashed_into_names(
    mapper: MapperView,
    url: urls::UrlView,
    plain: urls::UrlView,
    query: Seq<char>,
    mimetype: Seq<char>,
    stem: Seq<char>,
    extension: Seq<char>,
)
    requires
        plain.host == url.host,
        plain.path == url.path,
        plain.query is None,
        canonical_query(url) == Some(query),
        local_path(mapper, plain, mimetype).parts.len() >= 2,
        local_path(mapper, plain, mimetype).parts.last() == stem + "."@ + extension,
        stem.len() > 0,
        !extension.contains('.'),
    ensures
        local_path(mapper, url, mimetype).parts == local_path(
            mapper,
            plain,
            mimetype,
        ).parts.drop_last().push(stem + "__q_"@ + numbers::text_hash(query) + "."@ + extension),
{
    lemma_extension_is_read(stem, extension);
    reveal_strlit(".");
    let hosts = host_names(mapper, url.host);
    let names = hosts + local_names(url.path, mimetype);
    let at_top = hosts.len() == 0;
    assert(canonical_query(plain) is None);
    let local = path::PathView { absolute: false, parts: names };
    let whole = local_path(mapper, plain, mimetype);
    assert(whole.parts == if at_top { kept_apart(names) } else { names });
    assert(names.last() == stem + "."@ + extension);
    lemma_all_names(mapper, plain, mimetype);
    assert(names.len() >= 2);
    let name = names.last();
    assert(name.take(stem.len() as int) == stem);
    assert(name.skip(stem.len() as int + 1) == extension);
    assert(hashed_name(name, query) == stem + ("__q_"@ + numbers::text_hash(query)) + "."@
        + extension);
    assert(stem + ("__q_"@ + numbers::text_hash(query)) == stem + "__q_"@ + numbers::text_hash(query));
}

/// Each record is found by its lookup key, at the local path of the last record with that key. All
/// records are mapped where each of them is a URL, and no other key is known.
pub proof fn law_records_are_found_by_key(mapper: MapperView, records: Seq<cdx::RecordView>)
    ensures
        mapped_paths(mapper, records) is Ok <==> forall|i: int|
            0 <= i < records.len() ==> urls::url_parse((#[trigger] records[i]).original) is Ok,
        mapped_paths(mapper, records) matches Ok(paths) ==> {
            &&& forall|key: Seq<char>| #[trigger]
                paths.dom().contains(key) <==> exists|i: int|
                    0 <= i < records.len() && lookup_key((#[trigger] records[i]).original) == key
            &&& forall|i: int|
                0 <= i < records.len() && (forall|j: int|
                    i < j < records.len() ==> lookup_key((#[trigger] records[j]).original)
                        != lookup_key(records[i].original)) ==> paths[lookup_key(
                    (#[trigger] records[i]).original,
                )] == local_path(
                    mapper,
                    urls::url_parse(records[i].original)->Ok_0,
                    records[i].mimetype,
                )
        },
    decreases records.len(),
{
    if records.len() > 0 {
        let front = records.drop_last();
        let last = records.len() - 1;
        law_records_are_found_by_key(mapper, front);
        assert(records[last] == records.last());
        assert(forall|i: int| 0 <= i < front.len() ==> #[trigger] front[i] == records[i]);
        if mapped_paths(mapper, records) is Ok {
            let old_paths = mapped_paths(mapper, front)->Ok_0;
            let paths = mapped_paths(mapper, records)->Ok_0;
            assert forall|i: int| 0 <= i < records.len() implies urls::url_parse(
                (#[trigger] records[i]).original,
            ) is Ok by {
                if i < last {
                    assert(front[i] == records[i]);
                }
            }
            assert forall|key: Seq<char>| #[trigger]
                paths.dom().contains(key) <==> exists|i: int|
                    0 <= i < records.len() && lookup_key((#[trigger] records[i]).original)
                        == key by {
                if old_paths.dom().contains(key) {
                    let i = choose|i: int|
                        0 <= i < front.len() && lookup_key((#[trigger] front[i]).original) == key;
                    assert(lookup_key(records[i].original) == key);
                }
                if exists|i: int|
                    0 <= i < records.len() && lookup_key((#[trigger] records[i]).original) == key {
                    let i = choose|i: int|
                        0 <= i < records.len() && lookup_key((#[trigger] records[i]).original)
                            == key;
                    if i < last {
                        assert(lookup_key(front[i].original) == key);
                    }
                }
            }
            assert forall|i: int|
                0 <= i < records.len() && (forall|j: int|
                    i < j < records.len() ==> lookup_key((#[trigger] records[j]).original)
                        != lookup_key(records[i].original)) implies paths[lookup_key(
                (#[trigger] records[i]).original,
            )] == local_path(
                mapper,
                urls::url_parse(records[i].original)->Ok_0,
                records[i].mimetype,
            ) by {
                if i < last {
                    assert(lookup_key(records[last].original) != lookup_key(records[i].original));
                    assert forall|j: int| i < j < front.len() implies lookup_key(
                        (#[trigger] front[j]).original,
                    ) != lookup_key(front[i].original) by {
                        assert(front[j] == records[j]);
                    }
                    assert(front[i] == records[i]);
                }
            }
        } else if forall|i: int|
            0 <= i < records.len() ==> urls::url_parse((#[trigger] records[i]).original) is Ok {
            assert forall|i: int| 0 <= i < front.len() implies urls::url_parse(
                (#[trigger] front[i]).original,
            ) is Ok by {
                assert(front[i] == records[i]);
            }
            assert(urls::url_parse(records[last].original) is Ok);
        }
    }
}

/// A file of the site may stand for a URL on each of the site's hosts, with `http`, with `http` and
/// its port written out, and with `https`.
pub proof fn law_candidates_cover_hosts_and_schemes(
    mapper: MapperView,
    local: path::PathView,
    host: Seq<char>,
    plain: Seq<char>,
    secure: Seq<char>,
)
    requires
        mapper.primary_hosts.contains(host),
        local.parts.len() > 0,
        forall|i: int| 0 <= i < local.parts.len() ==> is_ordinary(#[trigger] local.parts[i]),
        local.parts[0][0] != '_',
        urls::url_with_segments("http://"@ + host + "/"@, local.parts) == Some(
            "http://"@ + host + "/"@ + plain,
        ),
        urls::url_with_segments("https://"@ + host + "/"@, local.parts) == Some(secure),
    ensures
        url_candidates(mapper, local).contains("http://"@ + host + "/"@ + plain),
        url_candidates(mapper, local).contains("http://"@ + host + ":80/"@ + plain),
        url_candidates(mapper, local).contains(secure),
{
    let names = local.parts;
    lemma_ordinary_plain_names(names);
    lemma_no_host_folder(names);
    assert(put_back(names) == names) by {
        reveal_strlit("hosts");
        text::lemma_trim_start_by(names[0], text::is_char('_'), 0);
        assert(names[0].skip(0) == names[0]);
    }
    reveal_strlit("_hosts");
    assert("_hosts"@[0] == '_');
    lemma_candidates_of_host(host, names, plain, secure);
    let at = choose|at: int|
        0 <= at < mapper.primary_hosts.len() && mapper.primary_hosts[at] == host;
    lemma_candidates_of_hosts(mapper.primary_hosts, names, at);
    let all = hosts_candidates(mapper.primary_hosts, names);
    let of_host = host_candidates(host, names);
    assert(of_host[0] == "http://"@ + host + ":80/"@ + plain && of_host[1] == "http://"@ + host
        + "/"@ + plain && of_host[2] == secure);
    assert(of_host.contains(of_host[0]) && of_host.contains(of_host[1]) && of_host.contains(
        of_host[2],
    ));
    assert forall|c: Seq<char>| #[trigger] of_host.contains(c) implies all.contains(c) by {
        assert(host_candidates(mapper.primary_hosts[at], names).contains(c));
    }
    order::lemma_sort_dedup_of(all);
}

/// A file of another host may stand for a URL on that host, with `http`, with `http` and its port
/// written out, and with `https`.
pub proof fn law_candidates_of_other_hosts(
    mapper: MapperView,
    local: path::PathView,
    host: Seq<char>,
    names: Seq<Seq<char>>,
    plain: Seq<char>,
    secure: Seq<char>,
)
    requires
        names.len() > 0,
        is_ordinary(host),
        forall|i: int| 0 <= i < names.len() ==> is_ordinary(#[trigger] names[i]),
        local.parts == seq!["_hosts"@, host] + names,
        urls::url_with_segments("http://"@ + host + "/"@, names) == Some(
            "http://"@ + host + "/"@ + plain,
        ),
        urls::url_with_segments("https://"@ + host + "/"@, names) == Some(secure),
    ensures
        url_candidates(mapper, local).contains("http://"@ + host + "/"@ + plain),
        url_candidates(mapper, local).contains("http://"@ + host + ":80/"@ + plain),
        url_candidates(mapper, local).contains(secure),
        forall|c: Seq<char>| #[trigger]
            url_candidates(mapper, local).contains(c) ==> c == "http://"@ + host + "/"@ + plain || c
                == "http://"@ + host + ":80/"@ + plain || c == secure,
{
    reveal_strlit("_hosts");
    let all = local.parts;
    assert forall|i: int| 0 <= i < all.len() implies is_ordinary(#[trigger] all[i]) by {
        if i == 0 {
            assert(all[i] == "_hosts"@);
            assert("_hosts"@.len() == 6 && "_hosts"@[0] == '_' && "_hosts"@[5] == 's');
        } else if i == 1 {
            assert(all[i] == host);
        } else {
            assert(all[i] == names[i - 2]);
        }
    }
    lemma_ordinary_plain_names(all);
    assert(all.skip(2) == names);
    lemma_candidates_of_host(host, names, plain, secure);
    let of_host = host_candidates(host, names);
    assert(of_host[0] == "http://"@ + host + ":80/"@ + plain && of_host[1] == "http://"@ + host
        + "/"@ + plain && of_host[2] == secure);
    assert(of_host.contains(of_host[0]) && of_host.contains(of_host[1]) && of_host.contains(
        of_host[2],
    ));
    order::lemma_sort_dedup_of(of_host);
}

/// Ordinary names are ordinary components of a path.
proof fn lemma_ordinary_plain_names(names: Seq<Seq<char>>)
    requires
        forall|i: int| 0 <= i < names.len() ==> is_ordinary(#[trigger] names[i]),
    ensures
        plain_names(names) == names,
    decreases names.len(),
{
    if names.len() > 0 {
        let front = names.drop_last();
        assert forall|i: int| 0 <= i < front.len() implies is_ordinary(#[trigger] front[i]) by {
            assert(front[i] == names[i]);
        }
        lemma_ordinary_plain_names(front);
        assert(is_ordinary(names[names.len() - 1]));
        let name = names.last();
        lemma_ordinary(name);
        lemma_safe_segment(name);
        assert(front.push(name) == names);
        reveal_strlit(".");
        reveal_strlit("..");
        assert("."@[0] == '.' && ".."@[0] == '.');
        assert(path::is_normal(name));
    } else {
        assert(names == Seq::<Seq<char>>::empty());
    }
}

/// The three URLs of a path on a host.
proof fn lemma_candidates_of_host(
    host: Seq<char>,
    names: Seq<Seq<char>>,
    plain: Seq<char>,
    secure: Seq<char>,
)
    requires
        urls::url_with_segments("http://"@ + host + "/"@, names) == Some(
            "http://"@ + host + "/"@ + plain,
        ),
        urls::url_with_segments("https://"@ + host + "/"@, names) == Some(secure),
    ensures
        host_candidates(host, names) == seq![
            "http://"@ + host + ":80/"@ + plain,
            "http://"@ + host + "/"@ + plain,
            secure,
        ],
{
    reveal_strlit("http");
    reveal_strlit("https");
    reveal_strlit("://");
    reveal_strlit("http://");
    reveal_strlit("https://");
    assert("http"@ + "://"@ == "http://"@);
    assert("https"@ + "://"@ == "https://"@);
    let front = "http://"@ + host + "/"@;
    let c = front + plain;
    assert(c.subrange(0, front.len() as int) == front);
    assert(c.skip(front.len() as int) == plain);
    assert(with_port(c, host) == seq!["http://"@ + host + ":80/"@ + plain]);
}

/// The URLs on one of several hosts are among those on all of them.
proof fn lemma_candidates_of_hosts(hosts: Seq<Seq<char>>, names: Seq<Seq<char>>, at: int)
    requires
        0 <= at < hosts.len(),
    ensures
        forall|c: Seq<char>| #[trigger]
            host_candidates(hosts[at], names).contains(c) ==> hosts_candidates(
                hosts,
                names,
            ).contains(c),
    decreases hosts.len(),
{
    let front = hosts_candidates(hosts.drop_last(), names);
    let last = host_candidates(hosts.last(), names);
    if at < hosts.len() - 1 {
        lemma_candidates_of_hosts(hosts.drop_last(), names, at);
        assert(hosts.drop_last()[at] == hosts[at]);
    }
    assert forall|c: Seq<char>| #[trigger] host_candidates(
        hosts[at],
        names,
    ).contains(c) implies (front + last).contains(c) by {
        if at < hosts.len() - 1 {
            assert(front.contains(c));
            let k = choose|k: int| 0 <= k < front.len() && front[k] == c;
            assert((front + last)[k] == c);
        } else {
            let k = choose|k: int| 0 <= k < last.len() && last[k] == c;
            assert((front + last)[front.len() + k] == c);
        }
    }
}

/// A directory of the site that is named like that of the other hosts, or like one that was renamed
/// for this, gets one more underscore before its name; every other name stays.
pub proof fn law_names_like_the_host_folder_are_renamed(
    underscores: nat,
    name: Seq<char>,
    rest: Seq<Seq<char>>,
)
    requires
        name == Seq::new(underscores, |i: int| '_') + "hosts"@,
    ensures
        kept_apart(seq![name] + rest) == if underscores > 0 {
            seq![Seq::new(underscores + 1, |i: int| '_') + "hosts"@] + rest
        } else {
            seq![name] + rest
        },
{
    reveal_strlit("hosts");
    reveal_strlit("_");
    assert("hosts"@.len() == 5 && "hosts"@[0] == 'h');
    let names = seq![name] + rest;
    assert(names[0] == name);
    let n = underscores as int;
    assert forall|i: int| 0 <= i < n implies (text::is_char('_'))(#[trigger] name[i]) by {}
    assert(name[n] == 'h');
    text::lemma_trim_start_by(name, text::is_char('_'), n);
    assert(name.skip(n) == "hosts"@);
    if underscores > 0 {
        let longer = Seq::new(underscores + 1, |i: int| '_') + "hosts"@;
        assert("_"@ + name == longer);
        assert(names.update(0, longer) == seq![longer] + rest);
    }
}

/// A URL without a host lies in the directory of an unknown host.
pub proof fn law_urls_without_a_host_are_kept_apart(
    mapper: MapperView,
    url: urls::UrlView,
    mimetype: Seq<char>,
)
    requires
        url.host is None,
        !mapper.is_primary("unknown-host"@),
    ensures
        local_path(mapper, url, mimetype).parts.len() >= 3,
        local_path(mapper, url, mimetype).parts[0] == "_hosts"@,
        local_path(mapper, url, mimetype).parts[1] == "unknown-host"@,
{
    reveal_strlit("unknown-host");
    let host = "unknown-host"@;
    assert(host.len() == 12 && host[0] == 'u' && host[11] == 't');
    assert(is_ordinary(host));
    assert(text::lower(host) == host);
    lemma_ordinary_host(mapper, host);
    let names = seq!["_hosts"@, host] + local_names(url.path, mimetype);
    lemma_local_names(url.path, mimetype);
    let plain = path::PathView { absolute: false, parts: names };
    assert(host_names(mapper, url.host) == seq!["_hosts"@, host]);
    lemma_all_names(mapper, url, mimetype);
    lemma_queried_path(names, url);
    match canonical_query(url) {
        Some(query) => {
            let whole = with_query_hash(plain, query);
            assert(names.drop_last()[0] == names[0] && names.drop_last()[1] == names[1]);
        },
        None => {},
    }
}

} // verus!

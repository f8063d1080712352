//! Which archived URLs are sessions, actions and placeholders rather than content.
use crate::cdx;
use crate::pathmap;
use crate::text;
use crate::urls;
use cdx::CdxRecord;
use urls::UrlParts;
use vstd::prelude::*;

verus! {

/// Whether a path, in lower case, is one of a hosting provider's own pages.
pub open spec fn hosting_path(path: Seq<char>) -> bool {
    ||| text::starts_with(path, "/cgi-sys/"@)
    ||| text::starts_with(path, "/img-sys/"@)
    ||| text::starts_with(path, "/sys_cpanel/"@)
    ||| text::starts_with(path, "/cgi-bin/"@)
    ||| path == "/welcome.png"@
    ||| text::ends_with(path, "/defaultwebpage.cgi"@)
    ||| text::ends_with(path, "/resellerpurchase.cgi"@)
}

/// Whether a path, in lower case, is one of a forum's action pages.
pub open spec fn forum_action_path(path: Seq<char>) -> bool {
    ||| text::ends_with(path, "/cron.php"@)
    ||| text::ends_with(path, "/groupcp.php"@)
    ||| text::ends_with(path, "/login.php"@)
    ||| text::ends_with(path, "/memberlist.php"@)
    ||| text::ends_with(path, "/posting.php"@)
    ||| text::ends_with(path, "/profile.php"@)
    ||| text::ends_with(path, "/search.php"@)
    ||| text::ends_with(path, "/ucp.php"@)
    ||| text::ends_with(path, "/viewonline.php"@)
}

/// Whether a path, in lower case, shows nothing without a query.
pub open spec fn query_path(path: Seq<char>) -> bool {
    text::ends_with(path, "/viewforum.php"@) || text::ends_with(path, "/viewtopic.php"@)
}

/// Whether a media type is that of a static file.
pub open spec fn static_mimetype(mimetype: Seq<char>) -> bool {
    let m = pathmap::bare_mimetype(mimetype);
    ||| text::starts_with(m, "image/"@)
    ||| text::starts_with(m, "font/"@)
    ||| text::starts_with(m, "audio/"@)
    ||| text::starts_with(m, "video/"@)
    ||| m == "application/atom+xml"@
    ||| m == "application/javascript"@
    ||| m == "application/json"@
    ||| m == "application/octet-stream"@
    ||| m == "application/pdf"@
    ||| m == "application/rss+xml"@
    ||| m == "application/x-javascript"@
    ||| m == "application/xml"@
    ||| m == "text/css"@
    ||| m == "text/javascript"@
    ||| m == "text/xml"@
}

/// Whether a pair asks for an action.
pub open spec fn action_pair(pair: (Seq<char>, Seq<char>)) -> bool {
    let v = text::lower(pair.1);
    text::same_ignoring_case(pair.0, "action"@) && {
        ||| v == "add"@
        ||| v == "remove"@
        ||| v == "delete"@
        ||| v == "checkout"@
        ||| v == "purchase"@
        ||| v == "logout"@
        ||| v == "empty"@
        ||| v == "setcurrency"@
    }
}

/// Whether a pair changes what is marked as read.
pub open spec fn marking_pair(pair: (Seq<char>, Seq<char>)) -> bool {
    let v = text::lower(pair.1);
    text::same_ignoring_case(pair.0, "mark"@) && {
        ||| v == "topics"@
        ||| v == "forums"@
        ||| v == "all"@
    }
}

/// Whether a query has a pair that asks for an action or changes state.
pub open spec fn interactive(pairs: Seq<(Seq<char>, Seq<char>)>) -> bool {
    exists|i: int|
        0 <= i < pairs.len() && (action_pair(#[trigger] pairs[i]) || marking_pair(pairs[i]))
}

/// Whether a URL is noise rather than content.
pub open spec fn is_noise(url: urls::UrlView, mimetype: Seq<char>) -> bool {
    let path = text::lower(url.path);
    if hosting_path(path) || forum_action_path(path) {
        true
    } else if static_mimetype(mimetype) {
        false
    } else {
        match url.query {
            None => query_path(path),
            Some(query) => query.len() == 0 || interactive(url.pairs) || pathmap::canonical_query(
                url,
            ) is None,
        }
    }
}

/// Whether an archived URL with a media type is noise; what is no URL is not.
pub open spec fn noise_url(original: Seq<char>, mimetype: Seq<char>) -> bool {
    urls::url_parse(original) matches Ok(url) && is_noise(url, mimetype)
}

/// The media type that the extension of a URL path suggests.
pub open spec fn hinted_mimetype(path: Seq<char>) -> Option<Seq<char>> {
    match urls::segments_of(path) {
        Some(segments) => match text::after_last_dot(segments.last()) {
            Some(extension) => static_hint(text::lower(extension)),
            None => None,
        },
        None => None,
    }
}

/// The media type that an extension suggests.
pub open spec fn static_hint(e: Seq<char>) -> Option<Seq<char>> {
    if e == "css"@ {
        Some("text/css"@)
    } else if e == "js"@ || e == "mjs"@ {
        Some("application/javascript"@)
    } else if e == "gif"@ {
        Some("image/gif"@)
    } else if e == "jpg"@ || e == "jpeg"@ || e == "jpe"@ {
        Some("image/jpeg"@)
    } else if e == "png"@ {
        Some("image/png"@)
    } else if e == "svg"@ {
        Some("image/svg+xml"@)
    } else if e == "webp"@ {
        Some("image/webp"@)
    } else if e == "ico"@ {
        Some("image/x-icon"@)
    } else if e == "ttf"@ {
        Some("font/ttf"@)
    } else if e == "woff"@ {
        Some("font/woff"@)
    } else if e == "woff2"@ {
        Some("font/woff2"@)
    } else if e == "mp3"@ || e == "wav"@ || e == "ogg"@ {
        Some("audio/mpeg"@)
    } else if e == "mp4"@ || e == "webm"@ || e == "mov"@ {
        Some("video/mp4"@)
    } else if e == "pdf"@ {
        Some("application/pdf"@)
    } else if e == "rss"@ || e == "atom"@ || e == "xml"@ {
        Some("application/xml"@)
    } else {
        None
    }
}

/// The media type with which a reference is judged.
pub open spec fn judged_mimetype(url: urls::UrlView) -> Seq<char> {
    match hinted_mimetype(url.path) {
        Some(mimetype) => mimetype,
        None => "text/html"@,
    }
}

/// Whether a reference is noise.
pub open spec fn noise_reference(original: Seq<char>) -> bool {
    urls::url_parse(original) matches Ok(url) && is_noise(url, judged_mimetype(url))
}

/// Whether a path ends with a string.
fn path_ends(path: &[char], suffix: &str) -> (r: bool)
    ensures
        r == text::ends_with(path@, suffix@),
{
    let p = text::chars_of(suffix);
    p.len() <= path.len() && text::is_at(path, &p, path.len() - p.len())
}

/// Whether a path starts with a string.
fn path_starts(path: &[char], prefix: &str) -> (r: bool)
    ensures
        r == text::starts_with(path@, prefix@),
{
    text::is_at(path, &text::chars_of(prefix), 0)
}

/// Whether a path, in lower case, is one of a hosting provider's own pages.
fn is_hosting_placeholder_path(path: &[char]) -> (r: bool)
    ensures
        r == hosting_path(path@),
{
    path_starts(path, "/cgi-sys/") || path_starts(path, "/img-sys/") || path_starts(path, "/sys_cpanel/") || path_starts(path, "/cgi-bin/") || text::is(path, "/welcome.png") || path_ends(path, "/defaultwebpage.cgi")
        || path_ends(path, "/resellerpurchase.cgi")
}

/// Whether a path, in lower case, is one of a forum's action pages.
fn is_forum_action_noise_path(path: &[char]) -> (r: bool)
    ensures
        r == forum_action_path(path@),
{
    path_ends(path, "/cron.php") || path_ends(path, "/groupcp.php") || path_ends(path, "/login.php") || path_ends(path, "/memberlist.php") || path_ends(path, "/posting.php") || path_ends(path, "/profile.php") || path_ends(path, "/search.php") || path_ends(path, "/ucp.php") || path_ends(path, "/viewonline.php")
}

/// Whether a path, in lower case, shows nothing without a query.
fn is_query_required_forum_path(path: &[char]) -> (r: bool)
    ensures
        r == query_path(path@),
{
    path_ends(path, "/viewforum.php") || path_ends(path, "/viewtopic.php")
}

/// Whether a media type is that of a static file.
pub fn is_static_asset_mimetype(mimetype: &str) -> (r: bool)
    ensures
        r == static_mimetype(mimetype@),
{
    let m = pathmap::bare_mimetype_chars(mimetype);
    path_starts(&m, "image/") || path_starts(&m, "font/") || path_starts(&m, "audio/") || path_starts(&m, "video/") || text::is(&m, "application/atom+xml") || text::is(&m, "application/javascript") || text::is(&m, "application/json") || text::is(&m, "application/octet-stream") || text::is(&m, "application/pdf") || text::is(&m, "application/rss+xml") || text::is(&m, "application/x-javascript") || text::is(&m, "application/xml") || text::is(&m, "text/css") || text::is(&m, "text/javascript") || text::is(&m, "text/xml")
}

/// Whether a pair asks for an action.
fn is_action_pair(pair: &(String, String)) -> (r: bool)
    ensures
        r == action_pair((pair.0@, pair.1@)),
{
    let v = text::lower_chars(&text::chars_of(pair.1.as_str()));
    text::equal_ignoring_case(pair.0.as_str(), "action") && (text::is(&v, "add") || text::is(&v, "remove") || text::is(&v, "delete") || text::is(&v, "checkout") || text::is(&v, "purchase") || text::is(&v, "logout") || text::is(&v, "empty") || text::is(&v, "setcurrency"))
}

/// Whether a pair changes what is marked as read.
fn is_marking_pair(pair: &(String, String)) -> (r: bool)
    ensures
        r == marking_pair((pair.0@, pair.1@)),
{
    let v = text::lower_chars(&text::chars_of(pair.1.as_str()));
    text::equal_ignoring_case(pair.0.as_str(), "mark") && (text::is(&v, "topics") || text::is(&v, "forums") || text::is(&v, "all"))
}

/// Whether a query has a pair that asks for an action or changes state.
fn has_interactive_query(pairs: &Vec<(String, String)>) -> (r: bool)
    ensures
        r == interactive(urls::pair_views(pairs@)),
{
    let ghost all = urls::pair_views(pairs@);
    let mut i: usize = 0;
    while i < pairs.len()
        invariant
            i <= pairs@.len(),
            all == urls::pair_views(pairs@),
            forall|j: int| 0 <= j < i ==> !action_pair(#[trigger] all[j]) && !marking_pair(all[j]),
        decreases pairs@.len() - i,
    {
        assert(all[i as int] == (pairs@[i as int].0@, pairs@[i as int].1@));
        if is_action_pair(&pairs[i]) || is_marking_pair(&pairs[i]) {
            return true;
        }
        i += 1;
    }
    false
}

/// Whether a URL that was read before is noise rather than content.
pub fn is_noise_url(url: &UrlParts, mimetype: &str) -> (r: bool)
    ensures
        r == is_noise(url@, mimetype@),
{
    let path = text::lower_chars(&text::chars_of(url.path.as_str()));
    if is_hosting_placeholder_path(&path) || is_forum_action_noise_path(&path) {
        return true;
    }
    if is_static_asset_mimetype(mimetype) {
        return false;
    }
    match &url.query {
        None => is_query_required_forum_path(&path),
        Some(query) => query.as_str().is_empty() || has_interactive_query(&url.pairs)
            || pathmap::canonical_query_without_volatile_params(url).is_none(),
    }
}

/// Whether an archived URL with a media type is noise.
pub fn is_archive_noise_url_with_mimetype(original: &str, mimetype: &str) -> (r: bool)
    ensures
        r == noise_url(original@, mimetype@),
{
    match urls::parse_url(original) {
        Ok(url) => is_noise_url(&url, mimetype),
        Err(_) => false,
    }
}

/// Whether a record is of a noise URL.
pub fn is_archive_noise_record(record: &CdxRecord) -> (r: bool)
    ensures
        r == noise_url(record.original@, record.mimetype@),
{
    is_archive_noise_url_with_mimetype(record.original.as_str(), record.mimetype.as_str())
}

/// The media type that the extension of a URL path suggests.
pub fn static_mimetype_hint(path: &str) -> (r: Option<&'static str>)
    ensures
        match r {
            Some(m) => hinted_mimetype(path@) == Some(m@),
            None => hinted_mimetype(path@) is None,
        },
{
    let segments = match urls::path_segments(path) {
        Some(segments) => segments,
        None => {
            return None;
        },
    };
    let e = match text::lower_extension(segments[segments.len() - 1].as_str()) {
        Some(e) => e,
        None => {
            return None;
        },
    };
    if text::is(&e, "css") {
        Some("text/css")
    } else if text::is(&e, "js") || text::is(&e, "mjs") {
        Some("application/javascript")
    } else if text::is(&e, "gif") {
        Some("image/gif")
    } else if text::is(&e, "jpg") || text::is(&e, "jpeg") || text::is(&e, "jpe") {
        Some("image/jpeg")
    } else if text::is(&e, "png") {
        Some("image/png")
    } else if text::is(&e, "svg") {
        Some("image/svg+xml")
    } else if text::is(&e, "webp") {
        Some("image/webp")
    } else if text::is(&e, "ico") {
        Some("image/x-icon")
    } else if text::is(&e, "ttf") {
        Some("font/ttf")
    } else if text::is(&e, "woff") {
        Some("font/woff")
    } else if text::is(&e, "woff2") {
        Some("font/woff2")
    } else if text::is(&e, "mp3") || text::is(&e, "wav") || text::is(&e, "ogg") {
        Some("audio/mpeg")
    } else if text::is(&e, "mp4") || text::is(&e, "webm") || text::is(&e, "mov") {
        Some("video/mp4")
    } else if text::is(&e, "pdf") {
        Some("application/pdf")
    } else if text::is(&e, "rss") || text::is(&e, "atom") || text::is(&e, "xml") {
        Some("application/xml")
    } else {
        None
    }
}

/// Whether a reference that was read before is noise.
pub fn is_noise_reference_url(url: &UrlParts) -> (r: bool)
    ensures
        r == is_noise(url@, judged_mimetype(url@)),
{
    let mimetype = match static_mimetype_hint(url.path.as_str()) {
        Some(mimetype) => mimetype,
        None => "text/html",
    };
    is_noise_url(url, mimetype)
}

/// Whether a reference is noise.
pub fn is_archive_noise_reference(original: &str) -> (r: bool)
    ensures
        r == noise_reference(original@),
{
    match urls::parse_url(original) {
        Ok(url) => is_noise_reference_url(&url),
        Err(_) => false,
    }
}

/// A page without a query is content, whatever its name: only the pages of hosting providers, the
/// action pages of forums, and the two forum scripts that show nothing without a query are not.
pub proof fn law_pages_without_a_query_are_content(
    original: Seq<char>,
    mimetype: Seq<char>,
    url: urls::UrlView,
)
    requires
        urls::url_parse(original) == Ok::<urls::UrlView, urls::UrlError>(url),
        url.query is None,
        ({
            let path = text::lower(url.path);
            &&& !text::starts_with(path, "/cgi-sys/"@)
            &&& !text::starts_with(path, "/img-sys/"@)
            &&& !text::starts_with(path, "/sys_cpanel/"@)
            &&& !text::starts_with(path, "/cgi-bin/"@)
            &&& path != "/welcome.png"@
            &&& !text::ends_with(path, "/defaultwebpage.cgi"@)
            &&& !text::ends_with(path, "/resellerpurchase.cgi"@)
            &&& !text::ends_with(path, "/cron.php"@)
            &&& !text::ends_with(path, "/groupcp.php"@)
            &&& !text::ends_with(path, "/login.php"@)
            &&& !text::ends_with(path, "/memberlist.php"@)
            &&& !text::ends_with(path, "/posting.php"@)
            &&& !text::ends_with(path, "/profile.php"@)
            &&& !text::ends_with(path, "/search.php"@)
            &&& !text::ends_with(path, "/ucp.php"@)
            &&& !text::ends_with(path, "/viewonline.php"@)
            &&& !text::ends_with(path, "/viewforum.php"@)
            &&& !text::ends_with(path, "/viewtopic.php"@)
        }),
    ensures
        !noise_url(original, mimetype),
        !noise_reference(original),
{
}

/// The pages of hosting providers and the action pages of forums are noise, whatever their media
/// type and their query.
pub proof fn law_action_pages_are_noise(
    original: Seq<char>,
    mimetype: Seq<char>,
    url: urls::UrlView,
)
    requires
        urls::url_parse(original) == Ok::<urls::UrlView, urls::UrlError>(url),
        ({
            let path = text::lower(url.path);
            ||| text::starts_with(path, "/cgi-sys/"@)
            ||| text::starts_with(path, "/img-sys/"@)
            ||| text::starts_with(path, "/sys_cpanel/"@)
            ||| text::starts_with(path, "/cgi-bin/"@)
            ||| path == "/welcome.png"@
            ||| text::ends_with(path, "/defaultwebpage.cgi"@)
            ||| text::ends_with(path, "/resellerpurchase.cgi"@)
            ||| text::ends_with(path, "/cron.php"@)
            ||| text::ends_with(path, "/groupcp.php"@)
            ||| text::ends_with(path, "/login.php"@)
            ||| text::ends_with(path, "/memberlist.php"@)
            ||| text::ends_with(path, "/posting.php"@)
            ||| text::ends_with(path, "/profile.php"@)
            ||| text::ends_with(path, "/search.php"@)
            ||| text::ends_with(path, "/ucp.php"@)
            ||| text::ends_with(path, "/viewonline.php"@)
        }),
    ensures
        noise_url(original, mimetype),
        noise_reference(original),
{
}

/// A topic or forum page that does not say which topic or forum is noise.
pub proof fn law_forum_pages_without_a_query_are_noise(original: Seq<char>, url: urls::UrlView)
    requires
        urls::url_parse(original) == Ok::<urls::UrlView, urls::UrlError>(url),
        url.query is None,
        text::ends_with(text::lower(url.path), "/viewforum.php"@) || text::ends_with(
            text::lower(url.path),
            "/viewtopic.php"@,
        ),
    ensures
        noise_url(original, "text/html"@),
{
    lemma_page_mimetype();
}

/// Pages have a media type of no static file.
proof fn lemma_page_mimetype()
    ensures
        !static_mimetype("text/html"@),
        pathmap::bare_mimetype("text/html"@) == "text/html"@,
{
    let t = "text/html"@;
    reveal_strlit("text/html");
    text::lemma_index_of(t, ';', 0);
    assert(text::index_of(t, ';', 0) is None);
    text::lemma_trim_start_by(t, text::white(), 0);
    assert(t.skip(0) == t);
    text::lemma_trim_end_by(t, text::white(), 9);
    assert(t.take(9) == t);
    assert(text::lower(t) == t);
    reveal_strlit("image/");
    reveal_strlit("font/");
    reveal_strlit("audio/");
    reveal_strlit("video/");
    assert(!text::starts_with(t, "image/"@)) by {
        if text::starts_with(t, "image/"@) {
            assert(t.subrange(0, 6)[0] == "image/"@[0]);
        }
    }
    assert(!text::starts_with(t, "font/"@)) by {
        if text::starts_with(t, "font/"@) {
            assert(t.subrange(0, 5)[0] == "font/"@[0]);
        }
    }
    assert(!text::starts_with(t, "audio/"@)) by {
        if text::starts_with(t, "audio/"@) {
            assert(t.subrange(0, 6)[0] == "audio/"@[0]);
        }
    }
    assert(!text::starts_with(t, "video/"@)) by {
        if text::starts_with(t, "video/"@) {
            assert(t.subrange(0, 6)[0] == "video/"@[0]);
        }
    }
    reveal_strlit("application/atom+xml");
    reveal_strlit("application/javascript");
    reveal_strlit("application/json");
    reveal_strlit("application/octet-stream");
    reveal_strlit("application/pdf");
    reveal_strlit("application/rss+xml");
    reveal_strlit("application/x-javascript");
    reveal_strlit("application/xml");
    reveal_strlit("text/css");
    reveal_strlit("text/javascript");
    reveal_strlit("text/xml");
}

/// A page with a query is content where the query has a parameter that names neither a session nor a
/// way of sorting or marking, unless it asks for an action or marks something as read, or the page is
/// one of a hosting provider or an action page of a forum.
#[verifier::spinoff_prover]
#[verifier::rlimit(50)]
pub proof fn law_pages_with_parameters_are_content(
    original: Seq<char>,
    mimetype: Seq<char>,
    url: urls::UrlView,
    at: int,
)
    requires
        urls::url_parse(original) == Ok::<urls::UrlView, urls::UrlError>(url),
        url.query matches Some(q) && q.len() > 0,
        0 <= at < url.pairs.len(),
        ({
            let key = url.pairs[at].0;
            let k = text::lower(key);
            &&& !(key.len() >= 4 && text::lower(key.take(4)) == "amp;"@)
            &&& k != "sid"@ && k != "sessionid"@ && k != "session_id"@ && k != "phpsessid"@
            &&& k != "jsessionid"@ && k != "aspsessionid"@ && k != "cfid"@ && k != "cftoken"@
            &&& k != "cron_type"@ && k != "amp"@ && k != "highlight"@ && k != "mark"@
            &&& k != "postdays"@ && k != "postorder"@ && k != "sd"@ && k != "sk"@
            &&& k != "ticket"@ && k != "st"@ && k != "view"@
        }),
        forall|i: int|
            0 <= i < url.pairs.len() ==> {
                let k = text::lower((#[trigger] url.pairs[i]).0);
                let v = text::lower(url.pairs[i].1);
                &&& k == "action"@ ==> v != "add"@ && v != "remove"@ && v != "delete"@ && v
                    != "checkout"@ && v != "purchase"@ && v != "logout"@ && v != "empty"@ && v
                    != "setcurrency"@
                &&& k == "mark"@ ==> v != "topics"@ && v != "forums"@ && v != "all"@
            },
        ({
            let path = text::lower(url.path);
            &&& !text::starts_with(path, "/cgi-sys/"@)
            &&& !text::starts_with(path, "/img-sys/"@)
            &&& !text::starts_with(path, "/sys_cpanel/"@)
            &&& !text::starts_with(path, "/cgi-bin/"@)
            &&& path != "/welcome.png"@
            &&& !text::ends_with(path, "/defaultwebpage.cgi"@)
            &&& !text::ends_with(path, "/resellerpurchase.cgi"@)
            &&& !text::ends_with(path, "/cron.php"@)
            &&& !text::ends_with(path, "/groupcp.php"@)
            &&& !text::ends_with(path, "/login.php"@)
            &&& !text::ends_with(path, "/memberlist.php"@)
            &&& !text::ends_with(path, "/posting.php"@)
            &&& !text::ends_with(path, "/profile.php"@)
            &&& !text::ends_with(path, "/search.php"@)
            &&& !text::ends_with(path, "/ucp.php"@)
            &&& !text::ends_with(path, "/viewonline.php"@)
        }),
    ensures
        !noise_url(original, mimetype),
        !noise_reference(original),
{
    lemma_keys_in_lower_case();
    pathmap::lemma_key_is_plain(url.pairs[at].0);
    assert(!pathmap::volatile_key(pathmap::plain_key(url.pairs[at].0)));
    pathmap::lemma_some_pair_lasts(url.pairs);
    assert(!interactive(url.pairs));
}

/// The two keys that ask for something are written in lower case.
proof fn lemma_keys_in_lower_case()
    ensures
        text::lower("action"@) == "action"@,
        text::lower("mark"@) == "mark"@,
{
    reveal_strlit("action");
    reveal_strlit("mark");
    assert(text::lower("action"@) == "action"@);
    assert(text::lower("mark"@) == "mark"@);
}

/// A page with an empty query, or with a query that names nothing but sessions and ways of sorting and
/// marking, is noise.
pub proof fn law_queries_without_content_are_noise(original: Seq<char>, url: urls::UrlView)
    requires
        urls::url_parse(original) == Ok::<urls::UrlView, urls::UrlError>(url),
        url.query matches Some(q) && (q.len() == 0 || forall|i: int|
            0 <= i < url.pairs.len() ==> {
                let key = (#[trigger] url.pairs[i]).0;
                let k = text::lower(key);
                &&& !(key.len() >= 4 && text::lower(key.take(4)) == "amp;"@)
                &&& {
                    ||| k == "sid"@ || k == "sessionid"@ || k == "session_id"@ || k == "phpsessid"@
                    ||| k == "jsessionid"@ || k == "aspsessionid"@ || k == "cfid"@ || k == "cftoken"@
                    ||| k == "cron_type"@ || k == "amp"@ || k == "highlight"@ || k == "mark"@
                    ||| k == "postdays"@ || k == "postorder"@ || k == "sd"@ || k == "sk"@
                    ||| k == "ticket"@ || k == "st"@ || k == "view"@
                }
            }),
    ensures
        noise_url(original, "text/html"@),
{
    lemma_page_mimetype();
    if url.query->Some_0.len() > 0 {
        pathmap::lemma_some_pair_lasts(url.pairs);
        assert forall|i: int| 0 <= i < url.pairs.len() implies pathmap::volatile_key(
            pathmap::plain_key((#[trigger] url.pairs[i]).0),
        ) by {
            pathmap::lemma_key_is_plain(url.pairs[i].0);
        }
    }
}

/// A page that is asked for an action, or that marks something as read, is noise, whatever else its
/// query says.
pub proof fn law_actions_of_a_query_are_noise(original: Seq<char>, url: urls::UrlView, at: int)
    requires
        urls::url_parse(original) == Ok::<urls::UrlView, urls::UrlError>(url),
        url.query is Some,
        0 <= at < url.pairs.len(),
        ({
            let k = text::lower(url.pairs[at].0);
            let v = text::lower(url.pairs[at].1);
            ||| k == "action"@ && (v == "add"@ || v == "remove"@ || v == "delete"@ || v
                == "checkout"@ || v == "purchase"@ || v == "logout"@ || v == "empty"@ || v
                == "setcurrency"@)
            ||| k == "mark"@ && (v == "topics"@ || v == "forums"@ || v == "all"@)
        }),
    ensures
        noise_url(original, "text/html"@),
{
    lemma_page_mimetype();
    lemma_keys_in_lower_case();
    assert(action_pair(url.pairs[at]) || marking_pair(url.pairs[at]));
}

/// Pictures, fonts, sounds, films and the other static files are content, whatever their query says,
/// unless they are of a hosting provider or an action page of a forum.
pub proof fn law_static_files_are_content(
    original: Seq<char>,
    mimetype: Seq<char>,
    url: urls::UrlView,
)
    requires
        urls::url_parse(original) == Ok::<urls::UrlView, urls::UrlError>(url),
        ({
            let m = mimetype;
            ||| text::starts_with(m, "image/"@)
            ||| text::starts_with(m, "font/"@)
            ||| text::starts_with(m, "audio/"@)
            ||| text::starts_with(m, "video/"@)
            ||| m == "application/atom+xml"@
            ||| m == "application/javascript"@
            ||| m == "application/json"@
            ||| m == "application/octet-stream"@
            ||| m == "application/pdf"@
            ||| m == "application/rss+xml"@
            ||| m == "application/x-javascript"@
            ||| m == "application/xml"@
            ||| m == "text/css"@
            ||| m == "text/javascript"@
            ||| m == "text/xml"@
        }),
        !mimetype.contains(';'),
        text::trim(mimetype) == mimetype,
        text::lower(mimetype) == mimetype,
        ({
            let path = text::lower(url.path);
            &&& !text::starts_with(path, "/cgi-sys/"@)
            &&& !text::starts_with(path, "/img-sys/"@)
            &&& !text::starts_with(path, "/sys_cpanel/"@)
            &&& !text::starts_with(path, "/cgi-bin/"@)
            &&& path != "/welcome.png"@
            &&& !text::ends_with(path, "/defaultwebpage.cgi"@)
            &&& !text::ends_with(path, "/resellerpurchase.cgi"@)
            &&& !text::ends_with(path, "/cron.php"@)
            &&& !text::ends_with(path, "/groupcp.php"@)
            &&& !text::ends_with(path, "/login.php"@)
            &&& !text::ends_with(path, "/memberlist.php"@)
            &&& !text::ends_with(path, "/posting.php"@)
            &&& !text::ends_with(path, "/profile.php"@)
            &&& !text::ends_with(path, "/search.php"@)
            &&& !text::ends_with(path, "/ucp.php"@)
            &&& !text::ends_with(path, "/viewonline.php"@)
        }),
    ensures
        !noise_url(original, mimetype),
{
    text::lemma_index_of(mimetype, ';', 0);
    match text::index_of(mimetype, ';', 0) {
        Some(i) => {
            assert(mimetype.contains(mimetype[i]));
        },
        None => {},
    }
    assert(pathmap::bare_mimetype(mimetype) == mimetype);
}

/// A reference whose file name has the extension of a static file is judged as one; with any other
/// extension it is judged as a page.
#[verifier::spinoff_prover]
#[verifier::rlimit(50)]
pub proof fn law_references_are_judged_by_their_extension(
    original: Seq<char>,
    url: urls::UrlView,
    names: Seq<Seq<char>>,
    stem: Seq<char>,
    extension: Seq<char>,
)
    requires
        urls::url_parse(original) == Ok::<urls::UrlView, urls::UrlError>(url),
        url.path == "/"@ + text::join(names, "/"@),
        names.len() > 0,
        forall|i: int| 0 <= i < names.len() ==> !(#[trigger] names[i]).contains('/'),
        names.last() == stem + "."@ + extension,
        !extension.contains('.'),
    ensures
        ({
            let e = text::lower(extension);
            &&& e == "css"@ ==> noise_reference(original) == noise_url(original, "text/css"@)
            &&& e == "js"@ || e == "mjs"@ ==> noise_reference(original) == noise_url(original, "application/javascript"@)
            &&& e == "gif"@ ==> noise_reference(original) == noise_url(original, "image/gif"@)
            &&& e == "jpg"@ || e == "jpeg"@ || e == "jpe"@ ==> noise_reference(original) == noise_url(original, "image/jpeg"@)
            &&& e == "png"@ ==> noise_reference(original) == noise_url(original, "image/png"@)
            &&& e == "svg"@ ==> noise_reference(original) == noise_url(original, "image/svg+xml"@)
            &&& e == "webp"@ ==> noise_reference(original) == noise_url(original, "image/webp"@)
            &&& e == "ico"@ ==> noise_reference(original) == noise_url(original, "image/x-icon"@)
            &&& e == "ttf"@ ==> noise_reference(original) == noise_url(original, "font/ttf"@)
            &&& e == "woff"@ ==> noise_reference(original) == noise_url(original, "font/woff"@)
            &&& e == "woff2"@ ==> noise_reference(original) == noise_url(original, "font/woff2"@)
            &&& e == "mp3"@ || e == "wav"@ || e == "ogg"@ ==> noise_reference(original) == noise_url(original, "audio/mpeg"@)
            &&& e == "mp4"@ || e == "webm"@ || e == "mov"@ ==> noise_reference(original) == noise_url(original, "video/mp4"@)
            &&& e == "pdf"@ ==> noise_reference(original) == noise_url(original, "application/pdf"@)
            &&& e == "rss"@ || e == "atom"@ || e == "xml"@ ==> noise_reference(original) == noise_url(original, "application/xml"@)
            &&& e != "css"@ && e != "js"@ && e != "mjs"@ && e != "gif"@ && e != "jpg"@ && e != "jpeg"@ && e != "jpe"@ && e != "png"@ && e != "svg"@ && e != "webp"@ && e != "ico"@ && e != "ttf"@ && e != "woff"@ && e != "woff2"@ && e != "mp3"@ && e != "wav"@ && e != "ogg"@ && e != "mp4"@ && e != "webm"@ && e != "mov"@ && e != "pdf"@ && e != "rss"@ && e != "atom"@ && e != "xml"@ ==> noise_reference(original) == noise_url(original, "text/html"@)
        }),
{
    reveal_strlit("/");
    reveal_strlit(".");
    assert("/"@ == seq!['/']);
    text::lemma_split_join(names, '/');
    assert(url.path[0] == '/');
    assert(url.path.skip(1) == text::join(names, "/"@));
    let name = names.last();
    let at = stem.len() as int;
    assert(name[at] == '.');
    text::lemma_rindex_of(name, '.', name.len() - 1);
    match text::rindex_of(name, '.', name.len() - 1) {
        Some(i) => {
            if i > at {
                assert(extension[i - at - 1] == name[i]);
                assert(extension.contains(extension[i - at - 1]));
            }
            assert(i == at);
            assert(name.skip(i + 1) == extension);
        },
        None => {},
    }
    lemma_extensions_differ();
}

/// The extensions of static files are told apart.
proof fn lemma_extensions_differ()
    ensures
        static_hint("css"@) == Some("text/css"@),
        static_hint("js"@) == Some("application/javascript"@),
        static_hint("mjs"@) == Some("application/javascript"@),
        static_hint("gif"@) == Some("image/gif"@),
        static_hint("jpg"@) == Some("image/jpeg"@),
        static_hint("jpeg"@) == Some("image/jpeg"@),
        static_hint("jpe"@) == Some("image/jpeg"@),
        static_hint("png"@) == Some("image/png"@),
        static_hint("svg"@) == Some("image/svg+xml"@),
        static_hint("webp"@) == Some("image/webp"@),
        static_hint("ico"@) == Some("image/x-icon"@),
        static_hint("ttf"@) == Some("font/ttf"@),
        static_hint("woff"@) == Some("font/woff"@),
        static_hint("woff2"@) == Some("font/woff2"@),
        static_hint("mp3"@) == Some("audio/mpeg"@),
        static_hint("wav"@) == Some("audio/mpeg"@),
        static_hint("ogg"@) == Some("audio/mpeg"@),
        static_hint("mp4"@) == Some("video/mp4"@),
        static_hint("webm"@) == Some("video/mp4"@),
        static_hint("mov"@) == Some("video/mp4"@),
        static_hint("pdf"@) == Some("application/pdf"@),
        static_hint("rss"@) == Some("application/xml"@),
        static_hint("atom"@) == Some("application/xml"@),
        static_hint("xml"@) == Some("application/xml"@),
{
    reveal_strlit("css");
    reveal_strlit("js");
    reveal_strlit("mjs");
    reveal_strlit("gif");
    reveal_strlit("jpg");
    reveal_strlit("jpeg");
    reveal_strlit("jpe");
    reveal_strlit("png");
    reveal_strlit("svg");
    reveal_strlit("webp");
    reveal_strlit("ico");
    reveal_strlit("ttf");
    reveal_strlit("woff");
    reveal_strlit("woff2");
    reveal_strlit("mp3");
    reveal_strlit("wav");
    reveal_strlit("ogg");
    reveal_strlit("mp4");
    reveal_strlit("webm");
    reveal_strlit("mov");
    reveal_strlit("pdf");
    reveal_strlit("rss");
    reveal_strlit("atom");
    reveal_strlit("xml");
    assert("css"@.len() == 3 && "css"@[0] == 'c' && "css"@[1] == 's' && "css"@[2] == 's');
    assert("js"@.len() == 2 && "js"@[0] == 'j' && "js"@[1] == 's');
    assert("mjs"@.len() == 3 && "mjs"@[0] == 'm' && "mjs"@[1] == 'j' && "mjs"@[2] == 's');
    assert("gif"@.len() == 3 && "gif"@[0] == 'g' && "gif"@[1] == 'i' && "gif"@[2] == 'f');
    assert("jpg"@.len() == 3 && "jpg"@[0] == 'j' && "jpg"@[1] == 'p' && "jpg"@[2] == 'g');
    assert("jpeg"@.len() == 4 && "jpeg"@[0] == 'j' && "jpeg"@[1] == 'p' && "jpeg"@[2] == 'e' && "jpeg"@[3] == 'g');
    assert("jpe"@.len() == 3 && "jpe"@[0] == 'j' && "jpe"@[1] == 'p' && "jpe"@[2] == 'e');
    assert("png"@.len() == 3 && "png"@[0] == 'p' && "png"@[1] == 'n' && "png"@[2] == 'g');
    assert("svg"@.len() == 3 && "svg"@[0] == 's' && "svg"@[1] == 'v' && "svg"@[2] == 'g');
    assert("webp"@.len() == 4 && "webp"@[0] == 'w' && "webp"@[1] == 'e' && "webp"@[2] == 'b' && "webp"@[3] == 'p');
    assert("ico"@.len() == 3 && "ico"@[0] == 'i' && "ico"@[1] == 'c' && "ico"@[2] == 'o');
    assert("ttf"@.len() == 3 && "ttf"@[0] == 't' && "ttf"@[1] == 't' && "ttf"@[2] == 'f');
    assert("woff"@.len() == 4 && "woff"@[0] == 'w' && "woff"@[1] == 'o' && "woff"@[2] == 'f' && "woff"@[3] == 'f');
    assert("woff2"@.len() == 5 && "woff2"@[0] == 'w' && "woff2"@[1] == 'o' && "woff2"@[2] == 'f' && "woff2"@[3] == 'f' && "woff2"@[4] == '2');
    assert("mp3"@.len() == 3 && "mp3"@[0] == 'm' && "mp3"@[1] == 'p' && "mp3"@[2] == '3');
    assert("wav"@.len() == 3 && "wav"@[0] == 'w' && "wav"@[1] == 'a' && "wav"@[2] == 'v');
    assert("ogg"@.len() == 3 && "ogg"@[0] == 'o' && "ogg"@[1] == 'g' && "ogg"@[2] == 'g');
    assert("mp4"@.len() == 3 && "mp4"@[0] == 'm' && "mp4"@[1] == 'p' && "mp4"@[2] == '4');
    assert("webm"@.len() == 4 && "webm"@[0] == 'w' && "webm"@[1] == 'e' && "webm"@[2] == 'b' && "webm"@[3] == 'm');
    assert("mov"@.len() == 3 && "mov"@[0] == 'm' && "mov"@[1] == 'o' && "mov"@[2] == 'v');
    assert("pdf"@.len() == 3 && "pdf"@[0] == 'p' && "pdf"@[1] == 'd' && "pdf"@[2] == 'f');
    assert("rss"@.len() == 3 && "rss"@[0] == 'r' && "rss"@[1] == 's' && "rss"@[2] == 's');
    assert("atom"@.len() == 4 && "atom"@[0] == 'a' && "atom"@[1] == 't' && "atom"@[2] == 'o' && "atom"@[3] == 'm');
    assert("xml"@.len() == 3 && "xml"@[0] == 'x' && "xml"@[1] == 'm' && "xml"@[2] == 'l');
}

/// Files of every other media type are judged as pages are.
pub proof fn law_other_types_are_judged_as_pages(original: Seq<char>, mimetype: Seq<char>)
    requires
        ({
            let m = mimetype;
            &&& !text::starts_with(m, "image/"@)
            &&& !text::starts_with(m, "font/"@)
            &&& !text::starts_with(m, "audio/"@)
            &&& !text::starts_with(m, "video/"@)
            &&& m != "application/atom+xml"@
            &&& m != "application/javascript"@
            &&& m != "application/json"@
            &&& m != "application/octet-stream"@
            &&& m != "application/pdf"@
            &&& m != "application/rss+xml"@
            &&& m != "application/x-javascript"@
            &&& m != "application/xml"@
            &&& m != "text/css"@
            &&& m != "text/javascript"@
            &&& m != "text/xml"@
        }),
        !mimetype.contains(';'),
        text::trim(mimetype) == mimetype,
        text::lower(mimetype) == mimetype,
    ensures
        noise_url(original, mimetype) == noise_url(original, "text/html"@),
{
    lemma_page_mimetype();
    text::lemma_index_of(mimetype, ';', 0);
    match text::index_of(mimetype, ';', 0) {
        Some(i) => {
            assert(mimetype.contains(mimetype[i]));
        },
        None => {},
    }
    assert(pathmap::bare_mimetype(mimetype) == mimetype);
}

} // verus!

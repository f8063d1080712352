//! The references of archived documents that lead to files of the same site.
use crate::css_refs;
use crate::html;
use crate::link_validation;
use crate::noise;
use crate::order;
use crate::path;
use crate::pathmap;
use crate::text;
use crate::urls;
use html::{EditKind, HtmlEdit};
use link_validation::{Removal, SiteFiles, SourceFile, UnreadableHtml};
use path::LocalPath;
use pathmap::SiteMapper;
use urls::UrlParts;
use vstd::prelude::*;

verus! {

/// Whether an extension in lower case is one of archives and installers.
pub open spec fn downloadable_extension(e: Seq<char>) -> bool {
    ||| e == "7z"@
    ||| e == "apk"@
    ||| e == "bin"@
    ||| e == "bz2"@
    ||| e == "deb"@
    ||| e == "dmg"@
    ||| e == "exe"@
    ||| e == "gz"@
    ||| e == "iso"@
    ||| e == "jar"@
    ||| e == "msi"@
    ||| e == "pkg"@
    ||| e == "rar"@
    ||| e == "rpm"@
    ||| e == "sit"@
    ||| e == "sitx"@
    ||| e == "tar"@
    ||| e == "tgz"@
    ||| e == "xz"@
    ||| e == "zip"@
}

/// Whether an extension in lower case is one of static resources.
pub open spec fn static_extension(e: Seq<char>) -> bool {
    ||| e == "atom"@
    ||| e == "bmp"@
    ||| e == "css"@
    ||| e == "eot"@
    ||| e == "gif"@
    ||| e == "ico"@
    ||| e == "jpe"@
    ||| e == "jpeg"@
    ||| e == "jpg"@
    ||| e == "js"@
    ||| e == "json"@
    ||| e == "m4a"@
    ||| e == "mid"@
    ||| e == "midi"@
    ||| e == "mjs"@
    ||| e == "mov"@
    ||| e == "mp3"@
    ||| e == "mp4"@
    ||| e == "ogg"@
    ||| e == "otf"@
    ||| e == "pdf"@
    ||| e == "png"@
    ||| e == "rss"@
    ||| e == "svg"@
    ||| e == "swf"@
    ||| e == "ttf"@
    ||| e == "txt"@
    ||| e == "wav"@
    ||| e == "webm"@
    ||| e == "webp"@
    ||| e == "woff"@
    ||| e == "woff2"@
    ||| e == "xml"@
}

/// The extension of the last segment of a URL path, in lower case.
pub open spec fn url_extension(url: urls::UrlView) -> Option<Seq<char>> {
    match urls::segments_of(url.path) {
        Some(segments) => match text::after_last_dot(segments.last()) {
            Some(e) => Some(text::lower(e)),
            None => None,
        },
        None => None,
    }
}

/// Whether a URL is that of an archive or an installer.
pub open spec fn downloadable_file(url: urls::UrlView) -> bool {
    url_extension(url) matches Some(e) && downloadable_extension(e)
}

/// Whether a URL is that of an archive, an installer or a static resource.
pub open spec fn extra_file(url: urls::UrlView) -> bool {
    url_extension(url) matches Some(e) && (downloadable_extension(e) || static_extension(e))
}

/// The extension of the last segment of a URL path, in lower case.
fn last_extension(url: &UrlParts) -> (r: Option<Vec<char>>)
    ensures
        match r {
            Some(e) => url_extension(url@) == Some(e@),
            None => url_extension(url@) is None,
        },
{
    match urls::path_segments(url.path.as_str()) {
        Some(segments) => {
            let n: usize = segments.len();
            proof {
                assert(text::views(segments@).last() == segments@[n - 1]@);
            }
            text::lower_extension(segments[n - 1].as_str())
        },
        None => None,
    }
}

/// Whether an extension in lower case is one of archives and installers.
fn is_downloadable_extension(e: &[char]) -> (r: bool)
    ensures
        r == downloadable_extension(e@),
{
    text::is(e, "7z")
        || text::is(e, "apk")
        || text::is(e, "bin")
        || text::is(e, "bz2")
        || text::is(e, "deb")
        || text::is(e, "dmg")
        || text::is(e, "exe")
        || text::is(e, "gz")
        || text::is(e, "iso")
        || text::is(e, "jar")
        || text::is(e, "msi")
        || text::is(e, "pkg")
        || text::is(e, "rar")
        || text::is(e, "rpm")
        || text::is(e, "sit")
        || text::is(e, "sitx")
        || text::is(e, "tar")
        || text::is(e, "tgz")
        || text::is(e, "xz")
        || text::is(e, "zip")
}

/// Whether an extension in lower case is one of static resources.
pub fn is_static_resource_extension(e: &[char]) -> (r: bool)
    ensures
        r == static_extension(e@),
{
    text::is(e, "atom")
        || text::is(e, "bmp")
        || text::is(e, "css")
        || text::is(e, "eot")
        || text::is(e, "gif")
        || text::is(e, "ico")
        || text::is(e, "jpe")
        || text::is(e, "jpeg")
        || text::is(e, "jpg")
        || text::is(e, "js")
        || text::is(e, "json")
        || text::is(e, "m4a")
        || text::is(e, "mid")
        || text::is(e, "midi")
        || text::is(e, "mjs")
        || text::is(e, "mov")
        || text::is(e, "mp3")
        || text::is(e, "mp4")
        || text::is(e, "ogg")
        || text::is(e, "otf")
        || text::is(e, "pdf")
        || text::is(e, "png")
        || text::is(e, "rss")
        || text::is(e, "svg")
        || text::is(e, "swf")
        || text::is(e, "ttf")
        || text::is(e, "txt")
        || text::is(e, "wav")
        || text::is(e, "webm")
        || text::is(e, "webp")
        || text::is(e, "woff")
        || text::is(e, "woff2")
        || text::is(e, "xml")
}

/// Whether a URL is that of an archive or an installer.
pub fn is_downloadable_file_url(url: &UrlParts) -> (r: bool)
    ensures
        r == downloadable_file(url@),
{
    match last_extension(url) {
        Some(e) => is_downloadable_extension(&e),
        None => false,
    }
}

/// Whether a URL is that of an archive, an installer or a static resource.
pub fn is_extra_file_url(url: &UrlParts) -> (r: bool)
    ensures
        r == extra_file(url@),
{
    match last_extension(url) {
        Some(e) => is_downloadable_extension(&e) || is_static_resource_extension(&e),
        None => false,
    }
}

/// The references of a document; none where it cannot be read.
pub open spec fn document_references(input: Seq<char>, is_css: bool) -> Option<Seq<Seq<char>>> {
    if is_css {
        Some(css_refs::css_values(css_refs::css_references(input)))
    } else {
        match html::html_nodes(input) {
            Some(nodes) => Some(link_validation::all_references(nodes)),
            None => None,
        }
    }
}

/// The references of a style sheet or a page.
pub fn extract_document_references(input: &str, is_css: bool) -> (r: Result<
    Vec<String>,
    UnreadableHtml,
>)
    ensures
        match r {
            Ok(references) => document_references(input@, is_css) == Some(
                text::views(references@),
            ),
            Err(_) => document_references(input@, is_css) is None,
        },
{
    if is_css {
        Ok(css_refs::reference_values(input))
    } else {
        match link_validation::extract_html_references(input) {
            Ok(report) => Ok(report.references),
            Err(e) => Err(e),
        }
    }
}

/// The URL that a reference of a document leads to, without its fragment.
pub open spec fn referenced_url(base: Seq<char>, value: Seq<char>) -> Option<urls::UrlView> {
    let t = text::trim(value);
    if t.len() == 0 || text::starts_with(t, "#"@) {
        None
    } else {
        match urls::url_join(base, pathmap::unwrapped(t)) {
            Some(url) => match urls::url_without_fragment(url.href) {
                Some(href) => Some(urls::UrlView { href, ..url }),
                None => None,
            },
            None => None,
        }
    }
}

/// Whether a URL is worth asking the archive for: one of a related host that is not noise.
pub open spec fn related_url(mapper: pathmap::MapperView, url: urls::UrlView) -> bool {
    &&& url.scheme == "http"@ || url.scheme == "https"@
    &&& url.host matches Some(host) && mapper.is_related(host)
    &&& !noise::noise_reference(url.href)
}

/// The URLs worth asking the archive for, in the order of the references.
pub open spec fn related_urls(
    base: Seq<char>,
    mapper: pathmap::MapperView,
    values: Seq<Seq<char>>,
) -> Seq<Seq<char>>
    decreases values.len(),
{
    if values.len() == 0 {
        Seq::empty()
    } else {
        let rest = related_urls(base, mapper, values.drop_last());
        match referenced_url(base, values.last()) {
            Some(url) => if related_url(mapper, url) {
                rest.push(url.href)
            } else {
                rest
            },
            None => rest,
        }
    }
}

/// The URL that a reference of a document leads to, without its fragment.
fn resolve_reference(base: &str, value: &str) -> (r: Option<UrlParts>)
    ensures
        match r {
            Some(url) => referenced_url(base@, value@) == Some(url@),
            None => referenced_url(base@, value@) is None,
        },
{
    let t = text::trimmed(value);
    if t.as_str().is_empty() || text::has_prefix(t.as_str(), "#") {
        return None;
    }
    match urls::join_url(base, pathmap::unwrap_wayback_url(t.as_str()).as_str()) {
        Some(url) => match urls::without_fragment(url.href.as_str()) {
            Some(href) => {
                let mut bare = url;
                bare.href = href;
                Some(bare)
            },
            None => None,
        },
        None => None,
    }
}

/// Whether a URL is worth asking the archive for.
pub fn is_related_url(mapper: &SiteMapper, url: &UrlParts) -> (r: bool)
    ensures
        r == related_url(mapper@, url@),
{
    let web = text::same(url.scheme.as_str(), "http") || text::same(url.scheme.as_str(), "https");
    let related = match &url.host {
        Some(host) => mapper.is_related_host(host.as_str()),
        None => false,
    };
    web && related && !noise::is_archive_noise_reference(url.href.as_str())
}

/// The URLs worth asking the archive for, sorted, each once.
pub fn related_references(base: &str, mapper: &SiteMapper, values: &Vec<String>) -> (r: Vec<String>)
    ensures
        text::views(r@) == order::sort_dedup_of(
            related_urls(base@, mapper@, text::views(values@)),
        ),
{
    let ghost all = text::views(values@);
    let mut r: Vec<String> = Vec::new();
    let mut i: usize = 0;
    proof {
        assert(text::views(r@) == related_urls(base@, mapper@, all.take(0)));
    }
    while i < values.len()
        invariant
            i <= values@.len(),
            all == text::views(values@),
            text::views(r@) == related_urls(base@, mapper@, all.take(i as int)),
        decreases values@.len() - i,
    {
        let ghost before = text::views(r@);
        proof {
            assert(all.take(i + 1).drop_last() == all.take(i as int));
            assert(all.take(i + 1).last() == values@[i as int]@);
        }
        if let Some(url) = resolve_reference(base, values[i].as_str()) {
            if is_related_url(mapper, &url) {
                let href = url.href;
                r.push(href);
                proof {
                    assert(text::views(r@) == before.push(href@));
                }
            }
        }
        i += 1;
    }
    proof {
        assert(all.take(all.len() as int) == all);
    }
    order::sort_dedup(r)
}

/// The URLs of the same site that a document refers to, sorted, each once: pages and resources,
/// whatever their extension. Only web addresses are among them.
pub fn extract_related_references(
    input: &str,
    base_url: &UrlParts,
    mapper: &SiteMapper,
    is_css: bool,
) -> (r: Result<Vec<String>, UnreadableHtml>)
    ensures
        match r {
            Ok(found) => document_references(input@, is_css) matches Some(values) && text::views(
                found@,
            ) == order::sort_dedup_of(related_urls(base_url@.href, mapper@, values)),
            Err(_) => document_references(input@, is_css) is None,
        },
{
    match extract_document_references(input, is_css) {
        Ok(values) => Ok(related_references(base_url.href.as_str(), mapper, &values)),
        Err(e) => Err(e),
    }
}

/// Whether a reference in a file leads to an archive or an installer that is not there.
pub open spec fn lacks_download(
    site: link_validation::SiteView,
    file: path::PathView,
    href: Seq<char>,
) -> bool {
    &&& site.lacks(file, href)
    &&& site.resolve(file, href) matches Some(target)
    &&& target.extension() matches Some(e)
    &&& downloadable_extension(text::lower(e))
}

/// Whether a reference in a file leads to an archive or an installer that is not there.
fn is_missing_download(site: &SiteFiles, file: &LocalPath, href: &str) -> (r: bool)
    ensures
        r == lacks_download(site@, file@, href@),
{
    match site.resolve_local_reference(file, href) {
        Some(target) => match target.extension() {
            Some(e) => is_downloadable_extension(&text::lower_chars(&text::chars_of(e.as_str())))
                && site.is_missing(file, href),
            None => false,
        },
        None => false,
    }
}

/// What is taken out of nodes: the targets of anchors and image maps that are archives or
/// installers, and not there.
pub open spec fn download_link_removals(
    site: link_validation::SiteView,
    file: path::PathView,
    nodes: Seq<html::NodeView>,
) -> Seq<(html::EditView, nat)>
    decreases nodes.len(),
{
    if nodes.len() == 0 {
        Seq::empty()
    } else {
        let before = download_link_removals(site, file, nodes.drop_last());
        let n = nodes.last();
        if (n.tag == "a"@ || n.tag == "area"@) && (html::attribute(
            n.attributes,
            "href"@,
        ) matches Some(v) && lacks_download(site, file, v)) {
            before.push(link_validation::attribute_removal(n, "href"@))
        } else {
            before
        }
    }
}

/// A page without the links to archives and installers that are not there; none where there are no
/// such links.
pub open spec fn page_without_missing_downloads(
    site: link_validation::SiteView,
    source: link_validation::SourceView,
) -> Result<Option<(Seq<char>, nat)>, UnreadableHtml> {
    match html::html_nodes(source.text) {
        Some(nodes) => link_validation::after_removals(
            source.text,
            download_link_removals(site, source.path, nodes),
        ),
        None => Err(UnreadableHtml),
    }
}

/// Takes the links to archives and installers that are not there out of a page. Where there are
/// any, returns the page and how many there were.
pub fn remove_missing_download_links(site: &SiteFiles, source: &SourceFile) -> (r: Result<
    Option<(String, usize)>,
    UnreadableHtml,
>)
    ensures
        link_validation::change_view(r) == page_without_missing_downloads(site@, source@),
{
    let nodes = match html::read_nodes(source.text.as_str()) {
        Some(nodes) => nodes,
        None => {
            return Err(UnreadableHtml);
        },
    };
    let ghost all = html::node_views(nodes@);
    let mut out: Vec<Removal> = Vec::new();
    let mut i: usize = 0;
    proof {
        assert(order::keys(out@) == download_link_removals(site@, source.path@, all.take(0)));
    }
    while i < nodes.len()
        invariant
            i <= nodes@.len(),
            all == html::node_views(nodes@),
            order::keys(out@) == download_link_removals(site@, source.path@, all.take(i as int)),
        decreases nodes@.len() - i,
    {
        let ghost before = order::keys(out@);
        let node = &nodes[i];
        proof {
            assert(all.take(i + 1).drop_last() == all.take(i as int));
            assert(all.take(i + 1).last() == node@);
        }
        if text::same(node.tag.as_str(), "a") || text::same(node.tag.as_str(), "area") {
            if let Some(href) = node.get_attribute("href") {
                if is_missing_download(site, &source.path, href.as_str()) {
                    let removal = Removal {
                        edit: HtmlEdit {
                            kind: EditKind::RemoveAttribute,
                            at: node.at,
                            name: "href".to_owned(),
                            value: String::new(),
                        },
                        removed: 1,
                    };
                    out.push(removal);
                    proof {
                        assert(removal@ == link_validation::attribute_removal(node@, "href"@));
                        assert(order::keys(out@) == before.push(removal@));
                    }
                }
            }
        }
        i += 1;
    }
    proof {
        assert(all.take(all.len() as int) == all);
    }
    link_validation::apply_removals(source.text.as_str(), out)
}

/// A URL is that of an archive or an installer by the extension of its last name, in whatever case;
/// with the extension of a static resource it is worth asking for as well.
pub proof fn law_files_are_told_by_extension(
    url: urls::UrlView,
    names: Seq<Seq<char>>,
    stem: Seq<char>,
    extension: Seq<char>,
)
    requires
        url.path == "/"@ + text::join(names, "/"@),
        names.len() > 0,
        forall|i: int| 0 <= i < names.len() ==> !(#[trigger] names[i]).contains('/'),
        names.last() == stem + "."@ + extension,
        !extension.contains('.'),
    ensures
        ({
            let e = text::lower(extension);
            let archive = {
                ||| e == "7z"@ || e == "apk"@ || e == "bin"@ || e == "bz2"@ || e == "deb"@
                ||| e == "dmg"@ || e == "exe"@ || e == "gz"@ || e == "iso"@ || e == "jar"@
                ||| e == "msi"@ || e == "pkg"@ || e == "rar"@ || e == "rpm"@ || e == "sit"@
                ||| e == "sitx"@ || e == "tar"@ || e == "tgz"@ || e == "xz"@ || e == "zip"@
            };
            let resource = {
                ||| e == "atom"@ || e == "bmp"@ || e == "css"@ || e == "eot"@ || e == "gif"@
                ||| e == "ico"@ || e == "jpe"@ || e == "jpeg"@ || e == "jpg"@ || e == "js"@
                ||| e == "json"@ || e == "m4a"@ || e == "mid"@ || e == "midi"@ || e == "mjs"@
                ||| e == "mov"@ || e == "mp3"@ || e == "mp4"@ || e == "ogg"@ || e == "otf"@
                ||| e == "pdf"@ || e == "png"@ || e == "rss"@ || e == "svg"@ || e == "swf"@
                ||| e == "ttf"@ || e == "txt"@ || e == "wav"@ || e == "webm"@ || e == "webp"@
                ||| e == "woff"@ || e == "woff2"@ || e == "xml"@
            };
            &&& downloadable_file(url) <==> archive
            &&& extra_file(url) <==> archive || resource
        }),
{
    reveal_strlit("/");
    assert("/"@ == seq!['/']);
    text::lemma_split_join(names, '/');
    assert(url.path[0] == '/');
    assert(url.path.skip(1) == text::join(names, "/"@));
    pathmap::lemma_extension_is_read(stem, extension);
    let name = names.last();
    assert(name.len() - 1 == stem.len() + extension.len());
    reveal_strlit(".");
    assert(name.skip(stem.len() as int + 1) == extension);
}

/// A file whose name has no dot is neither an archive nor a static resource.
pub proof fn law_names_without_a_dot_are_no_files(url: urls::UrlView, names: Seq<Seq<char>>)
    requires
        url.path == "/"@ + text::join(names, "/"@),
        names.len() > 0,
        forall|i: int| 0 <= i < names.len() ==> !(#[trigger] names[i]).contains('/'),
        !names.last().contains('.'),
    ensures
        !downloadable_file(url),
        !extra_file(url),
{
    reveal_strlit("/");
    assert("/"@ == seq!['/']);
    text::lemma_split_join(names, '/');
    assert(url.path.skip(1) == text::join(names, "/"@));
    pathmap::lemma_no_extension(names.last());
}

/// Whether a reference of a document, read against its URL and without a replay URL around it, leads
/// to a URL of a related host, by `http` or `https`, that is no noise and is `href` without its
/// fragment.
pub open spec fn leads_to_related(
    base: Seq<char>,
    mapper: pathmap::MapperView,
    value: Seq<char>,
    href: Seq<char>,
) -> bool {
    let t = text::trim(value);
    &&& t.len() > 0
    &&& t[0] != '#'
    &&& urls::url_join(base, pathmap::unwrapped(t)) matches Some(url) && {
        &&& urls::url_without_fragment(url.href) == Some(href)
        &&& url.scheme == "http"@ || url.scheme == "https"@
        &&& url.host matches Some(host) && mapper.is_related(host)
        &&& !noise::noise_reference(href)
    }
}

/// The archive is asked for exactly those references of a document that lead to a related host and
/// are no noise.
pub proof fn law_related_references_are_asked_for(
    base: Seq<char>,
    mapper: pathmap::MapperView,
    values: Seq<Seq<char>>,
    href: Seq<char>,
)
    ensures
        related_urls(base, mapper, values).contains(href) <==> exists|i: int|
            0 <= i < values.len() && leads_to_related(base, mapper, #[trigger] values[i], href),
    decreases values.len(),
{
    if values.len() > 0 {
        let front = values.drop_last();
        law_related_references_are_asked_for(base, mapper, front, href);
        let rest = related_urls(base, mapper, front);
        let all = related_urls(base, mapper, values);
        let last = values.last();
        let end = values.len() - 1;
        assert(values[end] == last);
        reveal_strlit("#");
        let t = text::trim(last);
        assert(text::starts_with(t, "#"@) == (t.len() > 0 && t[0] == '#')) by {
            if t.len() > 0 {
                assert(t.subrange(0, 1)[0] == t[0]);
                if t[0] == '#' {
                    assert(t.subrange(0, 1) == "#"@);
                }
            }
        }
        let asked = leads_to_related(base, mapper, last, href);
        if rest.contains(href) {
            let k = choose|k: int| 0 <= k < rest.len() && rest[k] == href;
            assert(all[k] == href);
            let i = choose|i: int|
                0 <= i < front.len() && leads_to_related(base, mapper, #[trigger] front[i], href);
            assert(leads_to_related(base, mapper, values[i], href));
        }
        if asked {
            assert(all[all.len() - 1] == href);
            assert(leads_to_related(base, mapper, values[end], href));
        }
        if all.contains(href) {
            let k = choose|k: int| 0 <= k < all.len() && all[k] == href;
            if k < rest.len() {
                assert(rest[k] == href);
            } else {
                assert(asked);
            }
        }
        if exists|i: int|
            0 <= i < values.len() && leads_to_related(base, mapper, #[trigger] values[i], href) {
            let i = choose|i: int|
                0 <= i < values.len() && leads_to_related(base, mapper, #[trigger] values[i], href);
            if i < front.len() {
                assert(leads_to_related(base, mapper, front[i], href));
            }
        }
    }
}

/// Whether a removal takes the target of a node away: of an anchor or an image map that leads to an
/// archive or an installer that is not there.
pub open spec fn removes_missing_archive(
    site: link_validation::SiteView,
    file: path::PathView,
    n: html::NodeView,
    removal: (html::EditView, nat),
) -> bool {
    &&& n.tag == "a"@ || n.tag == "area"@
    &&& removal.0.kind == EditKind::RemoveAttribute
    &&& removal.0.at == n.at
    &&& removal.0.name == "href"@
    &&& removal.0.value.len() == 0
    &&& removal.1 == 1
    &&& html::attribute(n.attributes, "href"@) matches Some(v) && lacks_download(site, file, v)
}

/// Of the links of a page exactly those of anchors and image maps are taken away that lead to an
/// archive or an installer that is not there.
pub proof fn law_links_to_missing_archives_are_removed(
    site: link_validation::SiteView,
    file: path::PathView,
    nodes: Seq<html::NodeView>,
    removal: (html::EditView, nat),
)
    ensures
        download_link_removals(site, file, nodes).contains(removal) <==> exists|i: int|
            0 <= i < nodes.len() && removes_missing_archive(
                site,
                file,
                #[trigger] nodes[i],
                removal,
            ),
    decreases nodes.len(),
{
    if nodes.len() > 0 {
        let front = nodes.drop_last();
        law_links_to_missing_archives_are_removed(site, file, front, removal);
        let rest = download_link_removals(site, file, front);
        let all = download_link_removals(site, file, nodes);
        let last = nodes.last();
        let end = nodes.len() - 1;
        assert(nodes[end] == last);
        if rest.contains(removal) {
            let k = choose|k: int| 0 <= k < rest.len() && rest[k] == removal;
            assert(all[k] == removal);
            let i = choose|i: int|
                0 <= i < front.len() && removes_missing_archive(
                    site,
                    file,
                    #[trigger] front[i],
                    removal,
                );
            assert(removes_missing_archive(site, file, nodes[i], removal));
        }
        if removes_missing_archive(site, file, last, removal) {
            assert(removal.0.value == Seq::<char>::empty());
            assert(all[all.len() - 1] == removal);
            assert(removes_missing_archive(site, file, nodes[end], removal));
        }
        if all.contains(removal) {
            let k = choose|k: int| 0 <= k < all.len() && all[k] == removal;
            if k < rest.len() {
                assert(rest[k] == removal);
            } else {
                assert(removes_missing_archive(site, file, last, removal));
            }
        }
        if exists|i: int|
            0 <= i < nodes.len() && removes_missing_archive(
                site,
                file,
                #[trigger] nodes[i],
                removal,
            ) {
            let i = choose|i: int|
                0 <= i < nodes.len() && removes_missing_archive(
                    site,
                    file,
                    #[trigger] nodes[i],
                    removal,
                );
            if i < front.len() {
                assert(removes_missing_archive(site, file, front[i], removal));
            }
        }
    }
}

/// A reference leads to a missing archive where it leads to no file that the site serves, and the name
/// of that file has the extension of an archive or an installer.
pub proof fn law_missing_archives(
    site: link_validation::SiteView,
    file: path::PathView,
    href: Seq<char>,
    target: path::PathView,
    extension: Seq<char>,
)
    requires
        site.resolve(file, href) == Some(target),
        target.extension() == Some(extension),
    ensures
        ({
            let e = text::lower(extension);
            let archive = {
                ||| e == "7z"@ || e == "apk"@ || e == "bin"@ || e == "bz2"@ || e == "deb"@
                ||| e == "dmg"@ || e == "exe"@ || e == "gz"@ || e == "iso"@ || e == "jar"@
                ||| e == "msi"@ || e == "pkg"@ || e == "rar"@ || e == "rpm"@ || e == "sit"@
                ||| e == "sitx"@ || e == "tar"@ || e == "tgz"@ || e == "xz"@ || e == "zip"@
            };
            lacks_download(site, file, href) <==> !site.serves(target) && archive
        }),
{
}

} // verus!

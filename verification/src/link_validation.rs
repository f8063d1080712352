//! The references of saved pages: which lead nowhere, and how to take those away.
use crate::css_refs;
use crate::html;
use crate::maps::TextSet;
use crate::numbers;
use crate::order;
use crate::path;
use crate::pathmap;
use crate::scan;
use crate::soft_redirect;
use crate::text;
use crate::urls;
use html::{EditKind, HtmlEdit, HtmlNode, NodeKind};
use path::LocalPath;
use vstd::prelude::*;

verus! {

/// What stands in the parentheses of a `url(` function, without white space and quotes; quotes may
/// be written as HTML entities.
pub open spec fn css_url_value(raw: Seq<char>) -> Seq<char> {
    let t = text::trim(raw);
    let n = t.len() as int;
    if n >= 2 && scan::is_quote(t[0]) && t[n - 1] == t[0] {
        t.subrange(1, n - 1)
    } else if n >= 12 && text::starts_with(t, "&quot;"@) && text::ends_with(t, "&quot;"@) {
        t.subrange(6, n - 6)
    } else if n >= 10 && text::starts_with(t, "&#39;"@) && text::ends_with(t, "&#39;"@) {
        t.subrange(5, n - 5)
    } else if n >= 12 && text::starts_with(t, "&#x27;"@) && text::ends_with(t, "&#x27;"@) {
        t.subrange(6, n - 6)
    } else {
        t
    }
}

/// Whether a text ends with a string.
fn ends(s: &[char], suffix: &str) -> (r: bool)
    ensures
        r == text::ends_with(s@, suffix@),
{
    let p = text::chars_of(suffix);
    p.len() <= s.len() && text::is_at(s, &p, s.len() - p.len())
}

/// Whether a text starts with a string.
fn starts(s: &[char], prefix: &str) -> (r: bool)
    ensures
        r == text::starts_with(s@, prefix@),
{
    text::is_at(s, &text::chars_of(prefix), 0)
}

/// What stands in the parentheses of a `url(` function, without white space and quotes.
pub fn trim_css_url(raw: &[char]) -> (r: Vec<char>)
    ensures
        r@ == css_url_value(raw@),
{
    let t = text::trim_chars(raw);
    let n: usize = t.len();
    if n >= 2 && (t[0] == '\'' || t[0] == '"') && t[n - 1] == t[0] {
        text::part(&t, 1, n - 1)
    } else if n >= 12 && starts(&t, "&quot;") && ends(&t, "&quot;") {
        text::part(&t, 6, n - 6)
    } else if n >= 10 && starts(&t, "&#39;") && ends(&t, "&#39;") {
        text::part(&t, 5, n - 5)
    } else if n >= 12 && starts(&t, "&#x27;") && ends(&t, "&#x27;") {
        text::part(&t, 6, n - 6)
    } else {
        t
    }
}

/// Whether an extension is one that references commonly have.
pub open spec fn common_extension(e: Seq<char>) -> bool {
    ||| e == "7z"@
    ||| e == "avi"@
    ||| e == "bmp"@
    ||| e == "class"@
    ||| e == "css"@
    ||| e == "exe"@
    ||| e == "gif"@
    ||| e == "gz"@
    ||| e == "htm"@
    ||| e == "html"@
    ||| e == "ico"@
    ||| e == "jar"@
    ||| e == "jpeg"@
    ||| e == "jpg"@
    ||| e == "js"@
    ||| e == "mid"@
    ||| e == "midi"@
    ||| e == "mov"@
    ||| e == "mp3"@
    ||| e == "mp4"@
    ||| e == "msi"@
    ||| e == "pdf"@
    ||| e == "png"@
    ||| e == "rar"@
    ||| e == "svg"@
    ||| e == "swf"@
    ||| e == "tar"@
    ||| e == "tgz"@
    ||| e == "txt"@
    ||| e == "wav"@
    ||| e == "webp"@
    ||| e == "woff"@
    ||| e == "woff2"@
    ||| e == "zip"@
}

/// The last piece of a path between slashes.
pub open spec fn last_piece(p: Seq<char>) -> Seq<char> {
    match text::rindex_of(p, '/', p.len() - 1) {
        Some(i) => p.skip(i + 1),
        None => p,
    }
}

/// Whether the file name of a reference has a common extension.
pub open spec fn has_common_extension(s: Seq<char>) -> bool {
    text::after_last_dot(last_piece(scan::bare_path(s))) matches Some(e) && common_extension(
        text::lower(e),
    )
}

/// Whether a reference asks a program on the server.
pub open spec fn is_server_action(s: Seq<char>) -> bool {
    let p = text::lower(scan::bare_path(s));
    p == "/cgi-bin"@ || text::contains(p, "/cgi-bin/"@)
}

/// Whether a text looks like a URL or a file name rather than like prose.
pub open spec fn looks_like_reference(s: Seq<char>) -> bool {
    &&& s.len() > 0
    &&& text::trim(s) == s
    &&& text::index_of(s, '\\', 0) is None
    &&& !text::has_white(s)
    &&& !scan::is_skipped(s)
    &&& !is_server_action(s)
    &&& {
        ||| text::starts_with(s, "/"@)
        ||| text::starts_with(s, "./"@)
        ||| text::starts_with(s, "../"@)
        ||| text::starts_with(s, "http://"@)
        ||| text::starts_with(s, "https://"@)
        ||| has_common_extension(s)
    }
}

/// Whether the file name of a reference has a common extension.
fn looks_like_file_reference(s: &[char]) -> (r: bool)
    ensures
        r == has_common_extension(s@),
{
    let p = scan::strip_query_and_fragment(s);
    let n: usize = p.len();
    let name = match text::last_index(&p, '/') {
        Some(i) => {
            proof {
                assert(p@.subrange(i + 1, n as int) == p@.skip(i + 1));
            }
            text::cut_string(&p, i + 1, n)
        },
        None => text::string_of(&p),
    };
    match text::lower_extension(name.as_str()) {
        Some(e) => text::is(&e, "7z") || text::is(&e, "avi") || text::is(&e, "bmp") || text::is(&e, "class") || text::is(&e, "css") || text::is(&e, "exe") || text::is(&e, "gif") || text::is(&e, "gz") || text::is(&e, "htm") || text::is(&e, "html") || text::is(&e, "ico") || text::is(&e, "jar") || text::is(&e, "jpeg") || text::is(&e, "jpg") || text::is(&e, "js") || text::is(&e, "mid") || text::is(&e, "midi") || text::is(&e, "mov") || text::is(&e, "mp3") || text::is(&e, "mp4") || text::is(&e, "msi") || text::is(&e, "pdf") || text::is(&e, "png") || text::is(&e, "rar") || text::is(&e, "svg") || text::is(&e, "swf") || text::is(&e, "tar") || text::is(&e, "tgz") || text::is(&e, "txt") || text::is(&e, "wav") || text::is(&e, "webp") || text::is(&e, "woff") || text::is(&e, "woff2") || text::is(&e, "zip"),
        None => false,
    }
}

/// Whether a reference asks a program on the server.
fn is_dynamic_action_reference(s: &[char]) -> (r: bool)
    ensures
        r == is_server_action(s@),
{
    let p = text::lower_chars(&scan::strip_query_and_fragment(s));
    text::is(&p, "/cgi-bin") || text::find_from(&p, &text::chars_of("/cgi-bin/"), 0).is_some()
}

/// Whether a text looks like a URL or a file name rather than like prose.
pub fn looks_like_url_reference_or_file(value: &str) -> (r: bool)
    ensures
        r == looks_like_reference(value@),
{
    let s = text::chars_of(value);
    if s.len() == 0 || !text::equal(&text::trim_chars(&s), &s) || text::index_from(
        &s,
        '\\',
        0,
    ).is_some() || text::contains_whitespace(&s) || scan::should_skip_reference(value)
        || is_dynamic_action_reference(&s) {
        return false;
    }
    starts(&s, "/") || starts(&s, "./") || starts(&s, "../") || starts(&s, "http://") || starts(
        &s,
        "https://",
    ) || looks_like_file_reference(&s)
}

/// The texts that look like references.
pub open spec fn kept_references(values: Seq<Seq<char>>) -> Seq<Seq<char>>
    decreases values.len(),
{
    if values.len() == 0 {
        Seq::empty()
    } else if looks_like_reference(values.last()) {
        kept_references(values.drop_last()).push(values.last())
    } else {
        kept_references(values.drop_last())
    }
}

/// The texts that look like references.
fn keep_references(values: &Vec<String>) -> (r: Vec<String>)
    ensures
        text::views(r@) == kept_references(text::views(values@)),
{
    let ghost all = text::views(values@);
    let mut r: Vec<String> = Vec::new();
    let mut i: usize = 0;
    proof {
        assert(text::views(r@) == kept_references(all.take(0)));
    }
    while i < values.len()
        invariant
            i <= values@.len(),
            all == text::views(values@),
            text::views(r@) == kept_references(all.take(i as int)),
        decreases values@.len() - i,
    {
        let ghost before = text::views(r@);
        proof {
            assert(all.take(i + 1).drop_last() == all.take(i as int));
            assert(all.take(i + 1).last() == values@[i as int]@);
        }
        if looks_like_url_reference_or_file(values[i].as_str()) {
            r.push(values[i].clone());
            proof {
                assert(text::views(r@) == before.push(values@[i as int]@));
            }
        }
        i += 1;
    }
    proof {
        assert(all.take(all.len() as int) == all);
    }
    r
}

/// The pieces of a text as strings.
pub fn piece_strings(s: &[char], spans: &Vec<scan::Span>) -> (r: Vec<String>)
    requires
        scan::in_order(scan::span_views(spans@), s@.len() as int),
    ensures
        text::views(r@) == scan::pieces(s@, scan::span_views(spans@)),
{
    let ghost all = scan::span_views(spans@);
    let ghost whole = scan::pieces(s@, all);
    let mut r: Vec<String> = Vec::new();
    let mut i: usize = 0;
    while i < spans.len()
        invariant
            i <= spans@.len(),
            all == scan::span_views(spans@),
            whole == scan::pieces(s@, all),
            scan::in_order(all, s@.len() as int),
            text::views(r@) == whole.take(i as int),
        decreases spans@.len() - i,
    {
        let ghost before = text::views(r@);
        assert(all[i as int] == (spans@[i as int].0 as int, spans@[i as int].1 as int));
        let piece = text::cut_string(s, spans[i].0, spans[i].1);
        r.push(piece);
        i += 1;
        proof {
            assert(text::views(r@) == before.push(piece@));
            assert(whole.take(i as int) == whole.take(i - 1).push(whole[i - 1]));
        }
    }
    proof {
        assert(whole.take(spans@.len() as int) == whole);
    }
    r
}

/// The references in script strings.
pub open spec fn script_references(s: Seq<char>) -> Seq<Seq<char>> {
    kept_references(scan::pieces(s, scan::string_spans(s, 0)))
}

/// The references in script strings.
pub fn extract_javascript_string_references(value: &str) -> (r: Vec<String>)
    ensures
        text::views(r@) == script_references(value@),
{
    let s = text::chars_of(value);
    let spans = scan::find_string_spans(&s);
    keep_references(&piece_strings(&s, &spans))
}

/// The values in the `url(` functions of a `style` attribute.
pub open spec fn style_references(s: Seq<char>) -> Seq<Seq<char>> {
    let raw = scan::pieces(s, scan::url_spans(s, text::lower(s), 0));
    Seq::new(raw.len(), |i: int| css_url_value(raw[i]))
}

/// The values in the `url(` functions of a `style` attribute.
pub fn extract_css_url_references(value: &str) -> (r: Vec<String>)
    ensures
        text::views(r@) == style_references(value@),
{
    let s = text::chars_of(value);
    let folded = text::lower_chars(&s);
    let spans = scan::find_url_spans(&s, &folded);
    let raw = piece_strings(&s, &spans);
    let ghost pieces = text::views(raw@);
    let ghost whole = style_references(value@);
    let mut r: Vec<String> = Vec::new();
    let mut i: usize = 0;
    while i < raw.len()
        invariant
            i <= raw@.len(),
            pieces == text::views(raw@),
            whole.len() == raw@.len(),
            forall|k: int| 0 <= k < whole.len() ==> #[trigger] whole[k] == css_url_value(pieces[k]),
            text::views(r@) == whole.take(i as int),
        decreases raw@.len() - i,
    {
        let ghost before = text::views(r@);
        let url = text::string_of(&trim_css_url(&text::chars_of(raw[i].as_str())));
        r.push(url);
        i += 1;
        proof {
            assert(text::views(r@) == before.push(url@));
            assert(whole.take(i as int) == whole.take(i - 1).push(whole[i - 1]));
        }
    }
    proof {
        assert(whole.take(raw@.len() as int) == whole);
    }
    r
}

/// The texts without white space at their ends.
pub open spec fn all_trimmed(values: Seq<Seq<char>>) -> Seq<Seq<char>> {
    Seq::new(values.len(), |i: int| text::trim(values[i]))
}

/// Whether an attribute has a value that is not blank.
pub open spec fn has_value(node: html::NodeView, name: Seq<char>) -> bool {
    html::attribute(node.attributes, name) matches Some(v) && text::trim(v).len() > 0
}

/// The value of an attribute, if the element has it.
pub open spec fn plain_ref(node: html::NodeView, name: Seq<char>) -> Seq<Seq<char>> {
    match html::attribute(node.attributes, name) {
        Some(v) => seq![v],
        None => Seq::empty(),
    }
}

/// The value of an attribute, if the element has the name.
pub open spec fn tagged_ref(node: html::NodeView, tag: Seq<char>, name: Seq<char>) -> Seq<
    Seq<char>,
> {
    if node.tag == tag {
        plain_ref(node, name)
    } else {
        Seq::empty()
    }
}

/// The value of an attribute, if the element has the name and the value looks like a reference.
pub open spec fn guarded_ref(node: html::NodeView, tag: Seq<char>, name: Seq<char>) -> Seq<
    Seq<char>,
> {
    kept_references(tagged_ref(node, tag, name))
}

/// The references in the script of an attribute.
pub open spec fn script_attr_refs(node: html::NodeView, name: Seq<char>) -> Seq<Seq<char>> {
    match html::attribute(node.attributes, name) {
        Some(v) => script_references(v),
        None => Seq::empty(),
    }
}

/// The references in a `srcset` attribute.
pub open spec fn srcset_refs(node: html::NodeView) -> Seq<Seq<char>> {
    match html::attribute(node.attributes, "srcset"@) {
        Some(v) => scan::srcset_of(text::split(v, ',')),
        None => Seq::empty(),
    }
}

/// The archives of an applet.
pub open spec fn archive_refs(node: html::NodeView) -> Seq<Seq<char>> {
    match html::attribute(node.attributes, "archive"@) {
        Some(v) => if node.tag == "applet"@ {
            kept_references(all_trimmed(text::split(v, ',')))
        } else {
            Seq::empty()
        },
        None => Seq::empty(),
    }
}

/// Whether an element asks the browser for another page.
pub open spec fn is_refresh(node: html::NodeView) -> bool {
    &&& node.tag == "meta"@
    &&& html::attribute(node.attributes, "http-equiv"@) matches Some(v)
    &&& text::same_ignoring_case(text::trim(v), "refresh"@)
}

/// The target of a refresh.
pub open spec fn refresh_refs(node: html::NodeView) -> Seq<Seq<char>> {
    match html::attribute(node.attributes, "content"@) {
        Some(v) => match scan::refresh_span(v) {
            Some(span) => if is_refresh(node) {
                seq![v.subrange(span.0, span.1)]
            } else {
                Seq::empty()
            },
            None => Seq::empty(),
        },
        None => Seq::empty(),
    }
}

/// The references of a style sheet.
pub open spec fn sheet_references(s: Seq<char>) -> Seq<Seq<char>> {
    css_refs::css_values(css_refs::css_references(s))
}

/// The references in a `style` attribute.
pub open spec fn style_attr_refs(node: html::NodeView) -> Seq<Seq<char>> {
    match html::attribute(node.attributes, "style"@) {
        Some(v) => style_references(v),
        None => Seq::empty(),
    }
}

/// The references of an element, in the order of its attributes' kinds.
pub open spec fn element_references(n: html::NodeView) -> Seq<Seq<char>> {
    Seq::empty()
        + plain_ref(n, "href"@)
        + plain_ref(n, "src"@)
        + tagged_ref(n, "blockquote"@, "cite"@)
        + tagged_ref(n, "q"@, "cite"@)
        + tagged_ref(n, "del"@, "cite"@)
        + tagged_ref(n, "ins"@, "cite"@)
        + tagged_ref(n, "form"@, "action"@)
        + tagged_ref(n, "object"@, "data"@)
        + guarded_ref(n, "object"@, "codebase"@)
        + guarded_ref(n, "applet"@, "code"@)
        + guarded_ref(n, "option"@, "value"@)
        + guarded_ref(n, "param"@, "value"@)
        + tagged_ref(n, "video"@, "poster"@)
        + plain_ref(n, "background"@)
        + srcset_refs(n)
        + archive_refs(n)
        + refresh_refs(n)
        + script_attr_refs(n, "onclick"@)
        + script_attr_refs(n, "onfocus"@)
        + script_attr_refs(n, "onblur"@)
        + script_attr_refs(n, "onchange"@)
        + script_attr_refs(n, "onload"@)
        + script_attr_refs(n, "onmousedown"@)
        + script_attr_refs(n, "onmouseout"@)
        + script_attr_refs(n, "onmouseover"@)
        + script_attr_refs(n, "onmouseup"@)
        + style_attr_refs(n)
}

/// Appends strings.
fn push_all(out: &mut Vec<String>, more: Vec<String>)
    ensures
        text::views(final(out)@) == text::views(old(out)@) + text::views(more@),
{
    let ghost before = text::views(out@);
    let ghost added = text::views(more@);
    let mut rest = more;
    out.append(&mut rest);
    proof {
        assert(text::views(out@) == before + added);
    }
}

/// Appends the value of an attribute.
fn push_plain(out: &mut Vec<String>, node: &HtmlNode, name: &str)
    ensures
        text::views(final(out)@) == text::views(old(out)@) + plain_ref(node@, name@),
{
    let ghost before = text::views(out@);
    match node.get_attribute(name) {
        Some(v) => {
            out.push(v);
            proof {
                assert(text::views(out@) == before + seq![v@]);
            }
        },
        None => {
            proof {
                assert(before + Seq::<Seq<char>>::empty() == before);
            }
        },
    }
}

/// Appends the value of an attribute of an element with a name.
fn push_tagged(out: &mut Vec<String>, node: &HtmlNode, tag: &str, name: &str)
    ensures
        text::views(final(out)@) == text::views(old(out)@) + tagged_ref(node@, tag@, name@),
{
    if text::same(node.tag.as_str(), tag) {
        push_plain(out, node, name);
    } else {
        proof {
            assert(text::views(out@) + Seq::<Seq<char>>::empty() == text::views(out@));
        }
    }
}

/// Appends the value of an attribute if it looks like a reference.
fn push_guarded(out: &mut Vec<String>, node: &HtmlNode, tag: &str, name: &str)
    ensures
        text::views(final(out)@) == text::views(old(out)@) + guarded_ref(node@, tag@, name@),
{
    let mut found: Vec<String> = Vec::new();
    let ghost none = text::views(found@);
    push_tagged(&mut found, node, tag, name);
    proof {
        assert(none + tagged_ref(node@, tag@, name@) == tagged_ref(node@, tag@, name@));
    }
    push_all(out, keep_references(&found));
}

/// Appends the references in the script of an attribute.
fn push_script(out: &mut Vec<String>, node: &HtmlNode, name: &str)
    ensures
        text::views(final(out)@) == text::views(old(out)@) + script_attr_refs(node@, name@),
{
    match node.get_attribute(name) {
        Some(v) => push_all(out, extract_javascript_string_references(v.as_str())),
        None => {
            proof {
                assert(text::views(out@) + Seq::<Seq<char>>::empty() == text::views(out@));
            }
        },
    }
}

/// Appends the references in a `srcset` attribute.
fn push_srcset(out: &mut Vec<String>, node: &HtmlNode)
    ensures
        text::views(final(out)@) == text::views(old(out)@) + srcset_refs(node@),
{
    match node.get_attribute("srcset") {
        Some(v) => push_all(out, scan::parse_srcset_references(v.as_str())),
        None => {
            proof {
                assert(text::views(out@) + Seq::<Seq<char>>::empty() == text::views(out@));
            }
        },
    }
}

/// The strings without white space at their ends.
fn trim_all(values: &Vec<String>) -> (r: Vec<String>)
    ensures
        text::views(r@) == all_trimmed(text::views(values@)),
{
    let ghost whole = all_trimmed(text::views(values@));
    let mut r: Vec<String> = Vec::new();
    let mut i: usize = 0;
    while i < values.len()
        invariant
            i <= values@.len(),
            whole == all_trimmed(text::views(values@)),
            text::views(r@) == whole.take(i as int),
        decreases values@.len() - i,
    {
        let ghost before = text::views(r@);
        let t = text::trimmed(values[i].as_str());
        r.push(t);
        i += 1;
        proof {
            assert(text::views(r@) == before.push(t@));
            assert(whole.take(i as int) == whole.take(i - 1).push(whole[i - 1]));
        }
    }
    proof {
        assert(whole.take(values@.len() as int) == whole);
    }
    r
}

/// Appends the archives of an applet.
fn push_archives(out: &mut Vec<String>, node: &HtmlNode)
    ensures
        text::views(final(out)@) == text::views(old(out)@) + archive_refs(node@),
{
    proof {
        assert(text::views(out@) + Seq::<Seq<char>>::empty() == text::views(out@));
    }
    if let Some(v) = node.get_attribute("archive") {
        if text::same(node.tag.as_str(), "applet") {
            let names = text::split_at_char(&text::chars_of(v.as_str()), ',');
            push_all(out, keep_references(&trim_all(&names)));
        }
    }
}

/// Whether an element asks the browser for another page.
pub fn is_refresh_element(node: &HtmlNode) -> (r: bool)
    ensures
        r == is_refresh(node@),
{
    if !text::same(node.tag.as_str(), "meta") {
        return false;
    }
    match node.get_attribute("http-equiv") {
        Some(v) => text::equal_ignoring_case(text::trimmed(v.as_str()).as_str(), "refresh"),
        None => false,
    }
}

/// Appends the target of a refresh.
fn push_refresh(out: &mut Vec<String>, node: &HtmlNode)
    ensures
        text::views(final(out)@) == text::views(old(out)@) + refresh_refs(node@),
{
    let ghost before = text::views(out@);
    proof {
        assert(before + Seq::<Seq<char>>::empty() == before);
    }
    if let Some(v) = node.get_attribute("content") {
        let s = text::chars_of(v.as_str());
        if let Some((a, b)) = scan::find_refresh_span(&s) {
            if is_refresh_element(node) {
                let target = text::cut_string(&s, a, b);
                out.push(target);
                proof {
                    assert(text::views(out@) == before + seq![target@]);
                }
            }
        }
    }
}

/// Appends the references in a `style` attribute.
fn push_style(out: &mut Vec<String>, node: &HtmlNode)
    ensures
        text::views(final(out)@) == text::views(old(out)@) + style_attr_refs(node@),
{
    match node.get_attribute("style") {
        Some(v) => push_all(out, extract_css_url_references(v.as_str())),
        None => {
            proof {
                assert(text::views(out@) + Seq::<Seq<char>>::empty() == text::views(out@));
            }
        },
    }
}

/// The references of an element.
pub fn collect_element_references(node: &HtmlNode) -> (r: Vec<String>)
    ensures
        text::views(r@) == element_references(node@),
{
    let mut out: Vec<String> = Vec::new();
    proof {
        assert(text::views(out@) == Seq::<Seq<char>>::empty());
    }
    push_plain(&mut out, node, "href");
    push_plain(&mut out, node, "src");
    push_tagged(&mut out, node, "blockquote", "cite");
    push_tagged(&mut out, node, "q", "cite");
    push_tagged(&mut out, node, "del", "cite");
    push_tagged(&mut out, node, "ins", "cite");
    push_tagged(&mut out, node, "form", "action");
    push_tagged(&mut out, node, "object", "data");
    push_guarded(&mut out, node, "object", "codebase");
    push_guarded(&mut out, node, "applet", "code");
    push_guarded(&mut out, node, "option", "value");
    push_guarded(&mut out, node, "param", "value");
    push_tagged(&mut out, node, "video", "poster");
    push_plain(&mut out, node, "background");
    push_srcset(&mut out, node);
    push_archives(&mut out, node);
    push_refresh(&mut out, node);
    push_script(&mut out, node, "onclick");
    push_script(&mut out, node, "onfocus");
    push_script(&mut out, node, "onblur");
    push_script(&mut out, node, "onchange");
    push_script(&mut out, node, "onload");
    push_script(&mut out, node, "onmousedown");
    push_script(&mut out, node, "onmouseout");
    push_script(&mut out, node, "onmouseover");
    push_script(&mut out, node, "onmouseup");
    push_style(&mut out, node);
    out
}

/// The references of a node.
pub open spec fn node_references(n: html::NodeView) -> Seq<Seq<char>> {
    match n.kind {
        NodeKind::Element => element_references(n),
        NodeKind::StyleText => sheet_references(n.text),
        NodeKind::ScriptText => script_references(n.text),
    }
}

/// The references of nodes, in order.
pub open spec fn all_references(nodes: Seq<html::NodeView>) -> Seq<Seq<char>>
    decreases nodes.len(),
{
    if nodes.len() == 0 {
        Seq::empty()
    } else {
        all_references(nodes.drop_last()) + node_references(nodes.last())
    }
}

/// A string in quotes with escapes, as `Debug` writes it.
pub uninterp spec fn debug_quoted(s: Seq<char>) -> Seq<char>;

/// `str`'s `Debug` output. The result is named.
#[verifier::external_body]
fn quote_debug(s: &str) -> (r: String)
    ensures
        r@ == debug_quoted(s@),
{
    format!("{s:?}")
}

/// An attribute in the description of an image, if it has a value.
pub open spec fn described(n: html::NodeView, name: Seq<char>) -> Seq<char> {
    match html::attribute(n.attributes, name) {
        Some(v) => if text::trim(v).len() > 0 {
            " "@ + name + "="@ + debug_quoted(text::trim(v))
        } else {
            Seq::empty()
        },
        None => Seq::empty(),
    }
}

/// The description of an image by its attributes.
pub open spec fn image_description(n: html::NodeView) -> Seq<char> {
    "img"@ + described(n, "id"@) + described(n, "name"@) + described(n, "alt"@) + described(
        n,
        "width"@,
    ) + described(n, "height"@) + described(n, "class"@)
}

/// Whether an element is an image that cannot show anything.
pub open spec fn lacks_source(n: html::NodeView) -> bool {
    n.kind == NodeKind::Element && n.tag == "img"@ && !has_value(n, "src"@) && !has_value(
        n,
        "srcset"@,
    )
}

/// The descriptions of the images that cannot show anything.
pub open spec fn sourceless_images(nodes: Seq<html::NodeView>) -> Seq<Seq<char>>
    decreases nodes.len(),
{
    if nodes.len() == 0 {
        Seq::empty()
    } else if lacks_source(nodes.last()) {
        sourceless_images(nodes.drop_last()).push(image_description(nodes.last()))
    } else {
        sourceless_images(nodes.drop_last())
    }
}

/// Appends an attribute to the description of an image.
fn push_described(out: &mut Vec<char>, node: &HtmlNode, name: &str)
    ensures
        final(out)@ == old(out)@ + described(node@, name@),
{
    proof {
        assert(out@ + Seq::<char>::empty() == out@);
    }
    if let Some(v) = node.get_attribute(name) {
        let t = text::trimmed(v.as_str());
        if !t.as_str().is_empty() {
            text::push_text(out, " ");
            text::push_text(out, name);
            text::push_text(out, "=");
            text::push_text(out, quote_debug(t.as_str()).as_str());
            proof {
                assert(out@ == old(out)@ + (" "@ + name@ + "="@ + debug_quoted(t@)));
            }
        }
    }
}

/// Describes an image by its attributes.
pub fn describe_img_without_source(node: &HtmlNode) -> (r: String)
    ensures
        r@ == image_description(node@),
{
    let mut out = text::chars_of("img");
    push_described(&mut out, node, "id");
    push_described(&mut out, node, "name");
    push_described(&mut out, node, "alt");
    push_described(&mut out, node, "width");
    push_described(&mut out, node, "height");
    push_described(&mut out, node, "class");
    text::string_of(&out)
}

/// Whether an attribute has a value that is not blank.
fn attribute_has_value(node: &HtmlNode, name: &str) -> (r: bool)
    ensures
        r == has_value(node@, name@),
{
    match node.get_attribute(name) {
        Some(v) => !text::trimmed(v.as_str()).as_str().is_empty(),
        None => false,
    }
}

/// What a page refers to, and the images in it that cannot show anything.
#[derive(Debug)]
pub struct HtmlReferenceReport {
    pub references: Vec<String>,
    pub missing_image_sources: Vec<String>,
}

/// A document that cannot be read as HTML.
#[derive(Debug, Clone, Copy, PartialEq, Eq, Structural)]
pub struct UnreadableHtml;

/// What nodes refer to.
pub fn references_of_nodes(nodes: &Vec<HtmlNode>) -> (r: HtmlReferenceReport)
    ensures
        text::views(r.references@) == all_references(html::node_views(nodes@)),
        text::views(r.missing_image_sources@) == sourceless_images(html::node_views(nodes@)),
{
    let ghost all = html::node_views(nodes@);
    let mut references: Vec<String> = Vec::new();
    let mut images: Vec<String> = Vec::new();
    let mut i: usize = 0;
    proof {
        assert(text::views(references@) == all_references(all.take(0)));
        assert(text::views(images@) == sourceless_images(all.take(0)));
    }
    while i < nodes.len()
        invariant
            i <= nodes@.len(),
            all == html::node_views(nodes@),
            text::views(references@) == all_references(all.take(i as int)),
            text::views(images@) == sourceless_images(all.take(i as int)),
        decreases nodes@.len() - i,
    {
        let ghost before = text::views(images@);
        proof {
            assert(all.take(i + 1).drop_last() == all.take(i as int));
            assert(all.take(i + 1).last() == nodes@[i as int]@);
        }
        let node = &nodes[i];
        let found = match node.kind {
            NodeKind::Element => collect_element_references(node),
            NodeKind::StyleText => css_refs::reference_values(node.text.as_str()),
            NodeKind::ScriptText => extract_javascript_string_references(node.text.as_str()),
        };
        push_all(&mut references, found);
        if node.kind == NodeKind::Element && text::same(node.tag.as_str(), "img")
            && !attribute_has_value(node, "src") && !attribute_has_value(node, "srcset") {
            let description = describe_img_without_source(node);
            images.push(description);
            proof {
                assert(text::views(images@) == before.push(description@));
            }
        }
        i += 1;
    }
    proof {
        assert(all.take(all.len() as int) == all);
    }
    HtmlReferenceReport { references, missing_image_sources: images }
}

/// What a page refers to.
pub fn extract_html_references(input: &str) -> (r: Result<HtmlReferenceReport, UnreadableHtml>)
    ensures
        match r {
            Ok(report) => html::html_nodes(input@) matches Some(nodes) && text::views(
                report.references@,
            ) == all_references(nodes) && text::views(report.missing_image_sources@)
                == sourceless_images(nodes),
            Err(_) => html::html_nodes(input@) is None,
        },
{
    match html::read_nodes(input) {
        Some(nodes) => Ok(references_of_nodes(&nodes)),
        None => Err(UnreadableHtml),
    }
}

/// The files of a saved site.
pub struct SiteFiles {
    /// The directory that holds the site.
    pub root: LocalPath,
    /// The paths of the files.
    pub files: TextSet,
}

/// The mathematical form of a saved site's files.
#[verifier::ext_equal]
pub struct SiteView {
    pub root: path::PathView,
    pub files: Set<Seq<char>>,
}

impl View for SiteFiles {
    type V = SiteView;

    open spec fn view(&self) -> SiteView {
        SiteView { root: self.root@, files: self.files@ }
    }
}

/// The texts of paths.
pub open spec fn path_texts(paths: Seq<path::PathView>) -> Set<Seq<char>>
    decreases paths.len(),
{
    if paths.len() == 0 {
        Set::empty()
    } else {
        path_texts(paths.drop_last()).insert(paths.last().text())
    }
}

impl SiteView {
    /// Whether a static host finds something for a path: a file, or a directory with an index.
    pub open spec fn serves(self, target: path::PathView) -> bool {
        ||| self.files.contains(target.text())
        ||| self.files.contains(target.join(path::parse_of("index.html"@)).text())
        ||| self.files.contains(target.join(path::parse_of("index.htm"@)).text())
    }

    /// The path in the site that a reference in a file leads to; none where it leads elsewhere.
    pub open spec fn resolve(self, file: path::PathView, href: Seq<char>) -> Option<
        path::PathView,
    > {
        let t = text::trim(href);
        let p = scan::bare_path(t);
        if t.len() == 0 || scan::is_skipped(t) || urls::url_parse(t) is Ok || p.len() == 0 {
            None
        } else {
            let d = scan::percent_decoded(p);
            let joined = if text::starts_with(d, "/"@) {
                self.root.join(path::parse_of(text::trim_start_char(d, '/')))
            } else {
                match file.parent() {
                    Some(directory) => directory.join(path::parse_of(d)),
                    None => self.root.join(path::parse_of(d)),
                }
            };
            let target = joined.normalized();
            if target.starts_with(self.root) {
                Some(target)
            } else {
                None
            }
        }
    }

    /// Whether a reference in a file leads to a path of the site at which there is nothing.
    pub open spec fn lacks(self, file: path::PathView, href: Seq<char>) -> bool {
        self.resolve(file, href) matches Some(target) && !self.serves(target)
    }
}

impl SiteFiles {
    /// The files of the site in a directory.
    pub fn new(root: &LocalPath, paths: &Vec<LocalPath>) -> (r: SiteFiles)
        ensures
            r@ == (SiteView {
                root: root@.normalized(),
                files: path_texts(order::keys(paths@)),
            }),
    {
        let ghost all = order::keys(paths@);
        let mut files = TextSet::new();
        let mut i: usize = 0;
        while i < paths.len()
            invariant
                i <= paths@.len(),
                all == order::keys(paths@),
                files@ == path_texts(all.take(i as int)),
            decreases paths@.len() - i,
        {
            proof {
                assert(all.take(i + 1).drop_last() == all.take(i as int));
                assert(all.take(i + 1).last() == paths@[i as int]@);
            }
            files.insert(paths[i].to_text().as_str());
            i += 1;
        }
        proof {
            assert(all.take(all.len() as int) == all);
        }
        SiteFiles { root: root.normalize(), files }
    }

    /// Adds a file.
    pub fn add(&mut self, path: &LocalPath)
        ensures
            final(self)@ == (SiteView {
                root: old(self)@.root,
                files: old(self)@.files.insert(path@.text()),
            }),
    {
        self.files.insert(path.to_text().as_str());
    }

    /// Whether a path is that of a file.
    pub fn is_file(&self, path: &LocalPath) -> (r: bool)
        ensures
            r == self@.files.contains(path@.text()),
    {
        self.files.contains(path.to_text().as_str())
    }

    /// Whether a static host finds something for a path.
    pub fn target_exists_for_static_host(&self, target: &LocalPath) -> (r: bool)
        ensures
            r == self@.serves(target@),
    {
        self.is_file(target) || self.is_file(&target.join(&LocalPath::parse("index.html")))
            || self.is_file(&target.join(&LocalPath::parse("index.htm")))
    }

    /// The path in the site that a reference in a file leads to.
    pub fn resolve_local_reference(&self, from_file: &LocalPath, href: &str) -> (r: Option<
        LocalPath,
    >)
        ensures
            match r {
                Some(target) => self@.resolve(from_file@, href@) == Some(target@),
                None => self@.resolve(from_file@, href@) is None,
            },
    {
        let t = text::trimmed(href);
        if t.as_str().is_empty() || scan::should_skip_reference(t.as_str()) || urls::parse_url(
            t.as_str(),
        ).is_ok() {
            return None;
        }
        let p = scan::strip_query_and_fragment(&text::chars_of(t.as_str()));
        if p.len() == 0 {
            return None;
        }
        let d = scan::percent_decode(text::string_of(&p).as_str());
        let joined = if text::has_prefix(d.as_str(), "/") {
            let inner = text::trim_start_chars(&text::chars_of(d.as_str()), '/');
            self.root.join(&LocalPath::parse(text::string_of(&inner).as_str()))
        } else {
            match from_file.parent() {
                Some(directory) => directory.join(&LocalPath::parse(d.as_str())),
                None => self.root.join(&LocalPath::parse(d.as_str())),
            }
        };
        let target = joined.normalize();
        if target.starts_with(&self.root) {
            Some(target)
        } else {
            None
        }
    }

    /// Whether a reference in a file leads to a path of the site at which there is nothing.
    pub fn is_missing(&self, from_file: &LocalPath, href: &str) -> (r: bool)
        ensures
            r == self@.lacks(from_file@, href@),
    {
        match self.resolve_local_reference(from_file, href) {
            Some(target) => !self.target_exists_for_static_host(&target),
            None => false,
        }
    }
}

/// Whether a path is that of an HTML file.
pub open spec fn html_file(p: path::PathView) -> bool {
    p.extension() matches Some(e) && (text::same_ignoring_case(e, "html"@)
        || text::same_ignoring_case(e, "htm"@) || text::same_ignoring_case(e, "xhtml"@))
}

/// Whether a path is that of a style sheet.
pub open spec fn css_file(p: path::PathView) -> bool {
    p.extension() matches Some(e) && text::same_ignoring_case(e, "css"@)
}

/// Whether a path is that of an HTML file.
pub fn is_html_file(p: &LocalPath) -> (r: bool)
    ensures
        r == html_file(p@),
{
    match p.extension() {
        Some(e) => text::equal_ignoring_case(e.as_str(), "html") || text::equal_ignoring_case(
            e.as_str(),
            "htm",
        ) || text::equal_ignoring_case(e.as_str(), "xhtml"),
        None => false,
    }
}

/// Whether a path is that of a style sheet.
pub fn is_css_file(p: &LocalPath) -> (r: bool)
    ensures
        r == css_file(p@),
{
    match p.extension() {
        Some(e) => text::equal_ignoring_case(e.as_str(), "css"),
        None => false,
    }
}

/// The HTML files and, where asked for, the style sheets among paths.
pub open spec fn scanned_paths(paths: Seq<path::PathView>, styles: bool) -> Seq<path::PathView>
    decreases paths.len(),
{
    if paths.len() == 0 {
        Seq::empty()
    } else if html_file(paths.last()) || styles && css_file(paths.last()) {
        scanned_paths(paths.drop_last(), styles).push(paths.last())
    } else {
        scanned_paths(paths.drop_last(), styles)
    }
}

/// The HTML files and, where asked for, the style sheets among paths, sorted.
fn pick_files(paths: &Vec<LocalPath>, styles: bool) -> (r: Vec<LocalPath>)
    ensures
        order::keys(r@) == order::sort_of::<path::PathView, path::ByPath>(
            scanned_paths(order::keys(paths@), styles),
        ),
{
    let ghost all = order::keys(paths@);
    let mut r: Vec<LocalPath> = Vec::new();
    let mut i: usize = 0;
    proof {
        assert(order::keys(r@) == scanned_paths(all.take(0), styles));
    }
    while i < paths.len()
        invariant
            i <= paths@.len(),
            all == order::keys(paths@),
            order::keys(r@) == scanned_paths(all.take(i as int), styles),
        decreases paths@.len() - i,
    {
        let ghost before = order::keys(r@);
        proof {
            assert(all.take(i + 1).drop_last() == all.take(i as int));
            assert(all.take(i + 1).last() == paths@[i as int]@);
        }
        if is_html_file(&paths[i]) || (styles && is_css_file(&paths[i])) {
            r.push(paths[i].duplicate());
            proof {
                assert(order::keys(r@) == before.push(paths@[i as int]@));
            }
        }
        i += 1;
    }
    proof {
        assert(all.take(all.len() as int) == all);
    }
    order::sort::<LocalPath, path::ByPath>(r)
}

/// The HTML files and style sheets among paths, sorted.
pub fn candidate_files(paths: &Vec<LocalPath>) -> (r: Vec<LocalPath>)
    ensures
        order::keys(r@) == order::sort_of::<path::PathView, path::ByPath>(
            scanned_paths(order::keys(paths@), true),
        ),
{
    pick_files(paths, true)
}

/// The HTML files among paths, sorted.
pub fn html_files(paths: &Vec<LocalPath>) -> (r: Vec<LocalPath>)
    ensures
        order::keys(r@) == order::sort_of::<path::PathView, path::ByPath>(
            scanned_paths(order::keys(paths@), false),
        ),
{
    pick_files(paths, false)
}

/// A file with the text that it holds.
pub struct SourceFile {
    pub path: LocalPath,
    pub text: String,
}

/// The mathematical form of a file with its text.
#[verifier::ext_equal]
pub struct SourceView {
    pub path: path::PathView,
    pub text: Seq<char>,
}

impl View for SourceFile {
    type V = SourceView;

    open spec fn view(&self) -> SourceView {
        SourceView { path: self.path@, text: self.text@ }
    }
}

/// A local reference whose target does not exist.
#[derive(Debug, Clone, PartialEq, Eq)]
pub struct MissingLocalLink {
    /// The file that holds the reference.
    pub source: LocalPath,
    /// The reference as it is written.
    pub href: String,
    /// Where it leads.
    pub target: LocalPath,
}

/// The mathematical form of a missing link.
#[verifier::ext_equal]
pub struct MissingLinkView {
    pub source: path::PathView,
    pub href: Seq<char>,
    pub target: path::PathView,
}

impl View for MissingLocalLink {
    type V = MissingLinkView;

    open spec fn view(&self) -> MissingLinkView {
        MissingLinkView { source: self.source@, href: self.href@, target: self.target@ }
    }
}

/// An image element that has neither `src` nor `srcset`.
#[derive(Debug, Clone, PartialEq, Eq)]
pub struct MissingImageSource {
    /// The file that holds the element.
    pub source: LocalPath,
    /// The attributes that help to find it.
    pub descriptor: String,
}

/// The mathematical form of an image without a source.
#[verifier::ext_equal]
pub struct MissingImageView {
    pub source: path::PathView,
    pub descriptor: Seq<char>,
}

impl View for MissingImageSource {
    type V = MissingImageView;

    open spec fn view(&self) -> MissingImageView {
        MissingImageView { source: self.source@, descriptor: self.descriptor@ }
    }
}

/// What a scan of a saved site has found.
#[derive(Debug, Clone, PartialEq, Eq)]
pub struct LinkValidationReport {
    /// How many local references were looked up.
    pub checked: usize,
    /// The local references whose target does not exist.
    pub missing: Vec<MissingLocalLink>,
    /// The images that cannot show anything.
    pub missing_image_sources: Vec<MissingImageSource>,
}

/// The mathematical form of a report.
#[verifier::ext_equal]
pub struct ReportView {
    pub checked: nat,
    pub missing: Seq<MissingLinkView>,
    pub images: Seq<MissingImageView>,
}

impl View for LinkValidationReport {
    type V = ReportView;

    open spec fn view(&self) -> ReportView {
        ReportView {
            checked: self.checked as nat,
            missing: order::keys(self.missing@),
            images: order::keys(self.missing_image_sources@),
        }
    }
}

impl Default for LinkValidationReport {
    /// Nothing looked at yet.
    fn default() -> (r: LinkValidationReport)
        ensures
            r@ == (ReportView { checked: 0, missing: Seq::empty(), images: Seq::empty() }),
    {
        let r = LinkValidationReport {
            checked: 0,
            missing: Vec::new(),
            missing_image_sources: Vec::new(),
        };
        assert(r@ == (ReportView { checked: 0, missing: Seq::empty(), images: Seq::empty() }));
        r
    }
}

/// The references in a file, none where it cannot be read.
pub open spec fn source_references(source: SourceView) -> Option<Seq<Seq<char>>> {
    if html_file(source.path) {
        match html::html_nodes(source.text) {
            Some(nodes) => Some(all_references(nodes)),
            None => None,
        }
    } else {
        Some(sheet_references(source.text))
    }
}

/// The images in a file that cannot show anything.
pub open spec fn source_images(source: SourceView) -> Seq<MissingImageView> {
    if html_file(source.path) {
        match html::html_nodes(source.text) {
            Some(nodes) => {
                let described = sourceless_images(nodes);
                Seq::new(
                    described.len(),
                    |i: int|
                        MissingImageView { source: source.path, descriptor: described[i] },
                )
            },
            None => Seq::empty(),
        }
    } else {
        Seq::empty()
    }
}

/// The references that lead into the site, each the first time that it stands in the file.
pub open spec fn local_references(
    site: SiteView,
    file: path::PathView,
    references: Seq<Seq<char>>,
) -> Seq<Seq<char>>
    decreases references.len(),
{
    if references.len() == 0 {
        Seq::empty()
    } else {
        let rest = local_references(site, file, references.drop_last());
        if site.resolve(file, references.last()) is Some && !references.drop_last().contains(
            references.last(),
        ) {
            rest.push(references.last())
        } else {
            rest
        }
    }
}

/// The references that lead to nothing.
pub open spec fn missing_links(
    site: SiteView,
    file: path::PathView,
    references: Seq<Seq<char>>,
) -> Seq<MissingLinkView>
    decreases references.len(),
{
    if references.len() == 0 {
        Seq::empty()
    } else {
        let rest = missing_links(site, file, references.drop_last());
        match site.resolve(file, references.last()) {
            Some(target) => if site.serves(target) {
                rest
            } else {
                rest.push(MissingLinkView { source: file, href: references.last(), target })
            },
            None => rest,
        }
    }
}

/// What a scan of files finds; none where a file cannot be read.
pub open spec fn validated(site: SiteView, sources: Seq<SourceView>) -> Option<ReportView>
    decreases sources.len(),
{
    if sources.len() == 0 {
        Some(ReportView { checked: 0, missing: Seq::empty(), images: Seq::empty() })
    } else {
        match (validated(site, sources.drop_last()), source_references(sources.last())) {
            (Some(before), Some(references)) => {
                let local = local_references(site, sources.last().path, references);
                Some(
                    ReportView {
                        checked: before.checked + local.len(),
                        missing: before.missing + missing_links(site, sources.last().path, local),
                        images: before.images + source_images(sources.last()),
                    },
                )
            },
            _ => None,
        }
    }
}

/// The references that lead into the site, each once.
pub fn distinct_local_references(
    site: &SiteFiles,
    file: &LocalPath,
    references: &Vec<String>,
) -> (r: Vec<String>)
    ensures
        text::views(r@) == local_references(site@, file@, text::views(references@)),
{
    let ghost all = text::views(references@);
    let mut seen = TextSet::new();
    let mut r: Vec<String> = Vec::new();
    let mut i: usize = 0;
    proof {
        assert(text::views(r@) == local_references(site@, file@, all.take(0)));
    }
    while i < references.len()
        invariant
            i <= references@.len(),
            all == text::views(references@),
            forall|h: Seq<char>| #[trigger] seen@.contains(h) <==> all.take(i as int).contains(h),
            text::views(r@) == local_references(site@, file@, all.take(i as int)),
        decreases references@.len() - i,
    {
        let ghost before = text::views(r@);
        let ghost seen_before = seen@;
        let href = references[i].as_str();
        proof {
            assert(all.take(i + 1).drop_last() == all.take(i as int));
            assert(all.take(i + 1).last() == href@);
            assert(all.take(i + 1) == all.take(i as int).push(href@));
        }
        let new = seen.insert(href);
        if site.resolve_local_reference(file, href).is_some() && new {
            r.push(references[i].clone());
            proof {
                assert(text::views(r@) == before.push(href@));
            }
        }
        proof {
            assert forall|h: Seq<char>| #[trigger] seen@.contains(h) <==> all.take(i + 1).contains(
                h,
            ) by {
                let now = all.take(i + 1);
                let then = all.take(i as int);
                if then.contains(h) {
                    let k = choose|k: int| 0 <= k < then.len() && then[k] == h;
                    assert(now[k] == h);
                }
                if h == href@ {
                    assert(now[i as int] == h);
                }
                if now.contains(h) && h != href@ {
                    let k = choose|k: int| 0 <= k < now.len() && now[k] == h;
                    assert(then[k] == h);
                }
            }
        }
        i += 1;
    }
    proof {
        assert(all.take(all.len() as int) == all);
    }
    r
}

/// The references that lead to nothing.
pub fn find_missing_links(site: &SiteFiles, file: &LocalPath, references: &Vec<String>) -> (r: Vec<
    MissingLocalLink,
>)
    ensures
        order::keys(r@) == missing_links(site@, file@, text::views(references@)),
{
    let ghost all = text::views(references@);
    let mut r: Vec<MissingLocalLink> = Vec::new();
    let mut i: usize = 0;
    proof {
        assert(order::keys(r@) == missing_links(site@, file@, all.take(0)));
    }
    while i < references.len()
        invariant
            i <= references@.len(),
            all == text::views(references@),
            order::keys(r@) == missing_links(site@, file@, all.take(i as int)),
        decreases references@.len() - i,
    {
        let ghost before = order::keys(r@);
        let href = references[i].as_str();
        proof {
            assert(all.take(i + 1).drop_last() == all.take(i as int));
            assert(all.take(i + 1).last() == href@);
        }
        if let Some(target) = site.resolve_local_reference(file, href) {
            if !site.target_exists_for_static_host(&target) {
                let link = MissingLocalLink {
                    source: file.duplicate(),
                    href: references[i].clone(),
                    target,
                };
                r.push(link);
                proof {
                    assert(order::keys(r@) == before.push(link@));
                }
            }
        }
        i += 1;
    }
    proof {
        assert(all.take(all.len() as int) == all);
    }
    r
}

/// A file of a list that cannot be read as HTML.
#[derive(Debug, Clone, Copy, PartialEq, Eq, Structural)]
pub struct UnreadableSource {
    /// Its index in the list.
    pub index: usize,
}

/// Appends the images of a file.
fn push_images(out: &mut Vec<MissingImageSource>, file: &LocalPath, descriptors: &Vec<String>)
    ensures
        order::keys(final(out)@) == order::keys(old(out)@) + Seq::new(
            descriptors@.len(),
            |i: int| MissingImageView { source: file@, descriptor: descriptors@[i]@ },
        ),
{
    let ghost start = order::keys(out@);
    let ghost whole = Seq::new(
        descriptors@.len(),
        |i: int| MissingImageView { source: file@, descriptor: descriptors@[i]@ },
    );
    let mut i: usize = 0;
    while i < descriptors.len()
        invariant
            i <= descriptors@.len(),
            whole == Seq::new(
                descriptors@.len(),
                |i: int| MissingImageView { source: file@, descriptor: descriptors@[i]@ },
            ),
            order::keys(out@) == start + whole.take(i as int),
        decreases descriptors@.len() - i,
    {
        let ghost before = order::keys(out@);
        let image = MissingImageSource {
            source: file.duplicate(),
            descriptor: descriptors[i].clone(),
        };
        out.push(image);
        i += 1;
        proof {
            assert(order::keys(out@) == before.push(image@));
            assert(whole.take(i as int) == whole.take(i - 1).push(whole[i - 1]));
        }
    }
    proof {
        assert(whole.take(descriptors@.len() as int) == whole);
    }
}

/// Checks the local references in HTML files and style sheets. A file that cannot be read ends the
/// scan.
pub fn validate_local_links(site: &SiteFiles, sources: &Vec<SourceFile>) -> (r: Result<
    LinkValidationReport,
    UnreadableSource,
>)
    ensures
        match r {
            Ok(report) => validated(site@, order::keys(sources@)) matches Some(v)
                && report.checked == numbers::capped(v.checked) && order::keys(report.missing@)
                == v.missing && order::keys(report.missing_image_sources@) == v.images,
            Err(e) => e.index < sources@.len() && validated(
                site@,
                order::keys(sources@).take(e.index as int),
            ) is Some && source_references(sources@[e.index as int]@) is None,
        },
{
    let ghost all = order::keys(sources@);
    let mut report = LinkValidationReport {
        checked: 0,
        missing: Vec::new(),
        missing_image_sources: Vec::new(),
    };
    let mut i: usize = 0;
    proof {
        assert(order::keys(report.missing@) == Seq::<MissingLinkView>::empty());
        assert(order::keys(report.missing_image_sources@) == Seq::<MissingImageView>::empty());
    }
    while i < sources.len()
        invariant
            i <= sources@.len(),
            all == order::keys(sources@),
            validated(site@, all.take(i as int)) is Some,
            report.checked == numbers::capped(validated(site@, all.take(i as int))->Some_0.checked),
            order::keys(report.missing@) == validated(site@, all.take(i as int))->Some_0.missing,
            order::keys(report.missing_image_sources@) == validated(
                site@,
                all.take(i as int),
            )->Some_0.images,
        decreases sources@.len() - i,
    {
        let ghost before = validated(site@, all.take(i as int))->Some_0;
        let source = &sources[i];
        proof {
            assert(all.take(i + 1).drop_last() == all.take(i as int));
            assert(all.take(i + 1).last() == source@);
        }
        let mut images: Vec<MissingImageSource> = Vec::new();
        proof {
            assert(order::keys(images@) == Seq::<MissingImageView>::empty());
        }
        let references = if is_html_file(&source.path) {
            match extract_html_references(source.text.as_str()) {
                Ok(found) => {
                    push_images(&mut images, &source.path, &found.missing_image_sources);
                    proof {
                        let d = text::views(found.missing_image_sources@);
                        assert(order::keys(images@) == Seq::<MissingImageView>::empty() + Seq::new(
                            found.missing_image_sources@.len(),
                            |i: int|
                                MissingImageView {
                                    source: source.path@,
                                    descriptor: found.missing_image_sources@[i]@,
                                },
                        ));
                        assert(order::keys(images@) == source_images(source@));
                    }
                    found.references
                },
                Err(_) => {
                    return Err(UnreadableSource { index: i });
                },
            }
        } else {
            css_refs::reference_values(source.text.as_str())
        };
        let local = distinct_local_references(site, &source.path, &references);
        let mut missing = find_missing_links(site, &source.path, &local);
        let ghost m = order::keys(missing@);
        let ghost g = order::keys(images@);
        let ghost om = order::keys(report.missing@);
        let ghost og = order::keys(report.missing_image_sources@);
        proof {
            assert(local@.len() == text::views(local@).len());
        }
        report.checked = numbers::add_capped(report.checked, local.len());
        report.missing.append(&mut missing);
        report.missing_image_sources.append(&mut images);
        i += 1;
        proof {
            assert(order::keys(report.missing@) == om + m);
            assert(order::keys(report.missing_image_sources@) == og + g);
        }
    }
    proof {
        assert(all.take(all.len() as int) == all);
    }
    Ok(report)
}

/// The texts that take the place of URLs of a `style` attribute that lead to nothing.
pub open spec fn style_replacements(site: SiteView, file: path::PathView, s: Seq<char>) -> Seq<
    Option<Seq<char>>,
> {
    let values = style_references(s);
    Seq::new(
        values.len(),
        |i: int|
            if site.lacks(file, values[i]) {
                Some("\"\""@)
            } else {
                None
            },
    )
}

/// The texts that take the place of the tokens of a style sheet whose references lead to nothing.
pub open spec fn sheet_removals(site: SiteView, file: path::PathView, s: Seq<char>) -> Seq<
    Option<Seq<char>>,
> {
    let refs = css_refs::css_references(s);
    Seq::new(
        refs.len(),
        |i: int|
            if site.lacks(file, refs[i].value) {
                Some(refs[i].emptied())
            } else {
                None
            },
    )
}

/// The texts that take the place of script strings that lead to nothing.
pub open spec fn script_removals(site: SiteView, file: path::PathView, s: Seq<char>) -> Seq<
    Option<Seq<char>>,
> {
    let values = scan::pieces(s, scan::string_spans(s, 0));
    Seq::new(
        values.len(),
        |i: int|
            if looks_like_reference(values[i]) && site.lacks(file, values[i]) {
                Some(""@)
            } else {
                None
            },
    )
}

/// How many pieces are replaced.
pub open spec fn replaced(replacements: Seq<Option<Seq<char>>>) -> nat
    decreases replacements.len(),
{
    if replacements.len() == 0 {
        0
    } else {
        replaced(replacements.drop_last()) + if replacements.last() is Some {
            1nat
        } else {
            0
        }
    }
}

/// The value of a `style` attribute without the URLs that lead to nothing.
pub open spec fn style_without_missing(site: SiteView, file: path::PathView, s: Seq<char>) -> Seq<
    char,
> {
    scan::splice(s, scan::url_spans(s, text::lower(s), 0), style_replacements(site, file, s))
}

/// A style sheet without the references that lead to nothing.
pub open spec fn sheet_without_missing(site: SiteView, file: path::PathView, s: Seq<char>) -> Seq<
    char,
> {
    css_refs::with_tokens(s, sheet_removals(site, file, s))
}

/// A script text without the strings that lead to nothing.
pub open spec fn script_without_missing(site: SiteView, file: path::PathView, s: Seq<char>) -> Seq<
    char,
> {
    scan::splice(s, scan::string_spans(s, 0), script_removals(site, file, s))
}

/// Takes the URLs that lead to nothing out of the value of a `style` attribute; tells how many there
/// were.
pub fn remove_missing_style_urls(input: &str, site: &SiteFiles, file: &LocalPath) -> (r: (
    String,
    usize,
))
    ensures
        r.0@ == style_without_missing(site@, file@, input@),
        r.1 == replaced(style_replacements(site@, file@, input@)),
{
    let s = text::chars_of(input);
    let folded = text::lower_chars(&s);
    let spans = scan::find_url_spans(&s, &folded);
    let values = extract_css_url_references(input);
    let ghost whole = style_replacements(site@, file@, input@);
    let mut reps: Vec<Option<String>> = Vec::new();
    let mut removed: usize = 0;
    let mut i: usize = 0;
    proof {
        assert(text::views(values@).len() == values@.len());
        assert(scan::span_views(spans@).len() == spans@.len());
        assert(whole.len() == values@.len());
        assert(whole.take(0).len() == 0);
        assert(scan::option_views(reps@) == whole.take(0));
    }
    while i < values.len()
        invariant
            i <= values@.len(),
            whole == style_replacements(site@, file@, input@),
            text::views(values@) == style_references(input@),
            values@.len() == whole.len(),
            removed == replaced(whole.take(i as int)),
            removed <= i,
            scan::option_views(reps@) == whole.take(i as int),
        decreases values@.len() - i,
    {
        let ghost before = scan::option_views(reps@);
        let value = values[i].as_str();
        proof {
            assert(style_references(input@)[i as int] == value@);
            assert(whole.take(i + 1).drop_last() == whole.take(i as int));
            assert(whole.take(i + 1) == whole.take(i as int).push(whole[i as int]));
        }
        if site.is_missing(file, value) {
            let empty = "\"\"".to_owned();
            reps.push(Some(empty));
            removed += 1;
            proof {
                assert(scan::option_views(reps@) == before.push(Some(empty@)));
            }
        } else {
            reps.push(None);
            proof {
                assert(scan::option_views(reps@) == before.push(None::<Seq<char>>));
            }
        }
        i += 1;
    }
    proof {
        assert(whole.take(whole.len() as int) == whole);
        assert(reps@.len() == scan::option_views(reps@).len());
    }
    (text::string_of(&scan::splice_text(&s, &spans, &reps)), removed)
}

/// Takes the references that lead to nothing out of a style sheet; tells how many there were.
pub fn remove_missing_css_url_references(input: &str, site: &SiteFiles, file: &LocalPath) -> (r: (
    String,
    usize,
))
    ensures
        r.0@ == sheet_without_missing(site@, file@, input@),
        r.1 == replaced(sheet_removals(site@, file@, input@)),
{
    let refs = css_refs::references(input);
    let ghost all = css_refs::css_references(input@);
    let ghost whole = sheet_removals(site@, file@, input@);
    let mut reps: Vec<Option<String>> = Vec::new();
    let mut removed: usize = 0;
    let mut i: usize = 0;
    proof {
        assert(css_refs::css_reference_views(refs@).len() == refs@.len());
        assert(whole.take(0).len() == 0);
        assert(scan::option_views(reps@) == whole.take(0));
    }
    while i < refs.len()
        invariant
            i <= refs@.len(),
            all == css_refs::css_references(input@),
            all == css_refs::css_reference_views(refs@),
            whole == sheet_removals(site@, file@, input@),
            removed == replaced(whole.take(i as int)),
            removed <= i,
            scan::option_views(reps@) == whole.take(i as int),
        decreases refs@.len() - i,
    {
        let ghost before = scan::option_views(reps@);
        let reference = &refs[i];
        proof {
            assert(all[i as int] == reference@);
            assert(whole.take(i + 1).drop_last() == whole.take(i as int));
            assert(whole.take(i + 1) == whole.take(i as int).push(whole[i as int]));
        }
        if site.is_missing(file, reference.value.as_str()) {
            let empty = reference.emptied();
            reps.push(Some(empty));
            removed += 1;
            proof {
                assert(scan::option_views(reps@) == before.push(Some(empty@)));
            }
        } else {
            reps.push(None);
            proof {
                assert(scan::option_views(reps@) == before.push(None::<Seq<char>>));
            }
        }
        i += 1;
    }
    proof {
        assert(whole.take(whole.len() as int) == whole);
        assert(reps@.len() == scan::option_views(reps@).len());
    }
    (css_refs::replace_tokens(input, &refs, &reps), removed)
}

/// Takes the strings that lead to nothing out of a script text; tells how many there were.
pub fn remove_missing_javascript_string_references(
    input: &str,
    site: &SiteFiles,
    file: &LocalPath,
) -> (r: (String, usize))
    ensures
        r.0@ == script_without_missing(site@, file@, input@),
        r.1 == replaced(script_removals(site@, file@, input@)),
{
    let s = text::chars_of(input);
    let spans = scan::find_string_spans(&s);
    let values = piece_strings(&s, &spans);
    let ghost whole = script_removals(site@, file@, input@);
    let ghost pieces = scan::pieces(input@, scan::string_spans(input@, 0));
    let mut reps: Vec<Option<String>> = Vec::new();
    let mut removed: usize = 0;
    let mut i: usize = 0;
    proof {
        assert(text::views(values@).len() == values@.len());
        assert(scan::span_views(spans@).len() == spans@.len());
        assert(whole.len() == values@.len());
        assert(whole.take(0).len() == 0);
        assert(scan::option_views(reps@) == whole.take(0));
    }
    while i < values.len()
        invariant
            i <= values@.len(),
            whole == script_removals(site@, file@, input@),
            pieces == scan::pieces(input@, scan::string_spans(input@, 0)),
            text::views(values@) == pieces,
            values@.len() == whole.len(),
            removed == replaced(whole.take(i as int)),
            removed <= i,
            scan::option_views(reps@) == whole.take(i as int),
        decreases values@.len() - i,
    {
        let ghost before = scan::option_views(reps@);
        let value = values[i].as_str();
        proof {
            assert(pieces[i as int] == value@);
            assert(whole.take(i + 1).drop_last() == whole.take(i as int));
            assert(whole.take(i + 1) == whole.take(i as int).push(whole[i as int]));
        }
        if looks_like_url_reference_or_file(value) && site.is_missing(file, value) {
            let empty = "".to_owned();
            reps.push(Some(empty));
            removed += 1;
            proof {
                assert(scan::option_views(reps@) == before.push(Some(empty@)));
            }
        } else {
            reps.push(None);
            proof {
                assert(scan::option_views(reps@) == before.push(None::<Seq<char>>));
            }
        }
        i += 1;
    }
    proof {
        assert(whole.take(whole.len() as int) == whole);
        assert(reps@.len() == scan::option_views(reps@).len());
    }
    (text::string_of(&scan::splice_text(&s, &spans, &reps)), removed)
}

/// An edit, and how many references it takes out.
pub struct Removal {
    pub edit: HtmlEdit,
    pub removed: usize,
}

impl View for Removal {
    type V = (html::EditView, nat);

    open spec fn view(&self) -> (html::EditView, nat) {
        (self.edit@, self.removed as nat)
    }
}

/// The edit that takes an attribute away.
pub open spec fn attribute_removal(n: html::NodeView, name: Seq<char>) -> (html::EditView, nat) {
    (html::EditView { kind: EditKind::RemoveAttribute, at: n.at, name, value: Seq::empty() }, 1)
}

/// Takes an attribute away if it leads to nothing.
pub open spec fn plain_removal(
    site: SiteView,
    file: path::PathView,
    n: html::NodeView,
    name: Seq<char>,
) -> Seq<(html::EditView, nat)> {
    match html::attribute(n.attributes, name) {
        Some(v) => if site.lacks(file, v) {
            seq![attribute_removal(n, name)]
        } else {
            Seq::empty()
        },
        None => Seq::empty(),
    }
}

/// Takes an attribute of an element with a name away if it leads to nothing.
pub open spec fn tagged_removal(
    site: SiteView,
    file: path::PathView,
    n: html::NodeView,
    tag: Seq<char>,
    name: Seq<char>,
) -> Seq<(html::EditView, nat)> {
    if n.tag == tag {
        plain_removal(site, file, n, name)
    } else {
        Seq::empty()
    }
}

/// Takes the strings that lead to nothing out of the script of an attribute.
pub open spec fn script_removal(
    site: SiteView,
    file: path::PathView,
    n: html::NodeView,
    name: Seq<char>,
) -> Seq<(html::EditView, nat)> {
    match html::attribute(n.attributes, name) {
        Some(v) => {
            let removed = replaced(script_removals(site, file, v));
            if removed > 0 {
                seq![
                    (
                        html::EditView {
                            kind: EditKind::SetAttribute,
                            at: n.at,
                            name,
                            value: script_without_missing(site, file, v),
                        },
                        removed,
                    ),
                ]
            } else {
                Seq::empty()
            }
        },
        None => Seq::empty(),
    }
}

/// Takes the URLs that lead to nothing out of a `style` attribute.
pub open spec fn style_removal(site: SiteView, file: path::PathView, n: html::NodeView) -> Seq<
    (html::EditView, nat),
> {
    match html::attribute(n.attributes, "style"@) {
        Some(v) => {
            let removed = replaced(style_replacements(site, file, v));
            if removed > 0 {
                seq![
                    (
                        html::EditView {
                            kind: EditKind::SetAttribute,
                            at: n.at,
                            name: "style"@,
                            value: style_without_missing(site, file, v),
                        },
                        removed,
                    ),
                ]
            } else {
                Seq::empty()
            }
        },
        None => Seq::empty(),
    }
}

/// What is taken out of an element's attributes.
pub open spec fn element_removals(site: SiteView, file: path::PathView, n: html::NodeView) -> Seq<
    (html::EditView, nat),
> {
    Seq::empty()
        + tagged_removal(site, file, n, "audio"@, "src"@)
        + tagged_removal(site, file, n, "embed"@, "src"@)
        + tagged_removal(site, file, n, "form"@, "action"@)
        + tagged_removal(site, file, n, "frame"@, "src"@)
        + tagged_removal(site, file, n, "iframe"@, "src"@)
        + tagged_removal(site, file, n, "img"@, "src"@)
        + tagged_removal(site, file, n, "input"@, "src"@)
        + tagged_removal(site, file, n, "link"@, "href"@)
        + tagged_removal(site, file, n, "object"@, "data"@)
        + tagged_removal(site, file, n, "script"@, "src"@)
        + tagged_removal(site, file, n, "source"@, "src"@)
        + tagged_removal(site, file, n, "track"@, "src"@)
        + tagged_removal(site, file, n, "video"@, "poster"@)
        + tagged_removal(site, file, n, "video"@, "src"@)
        + plain_removal(site, file, n, "background"@)
        + script_removal(site, file, n, "onclick"@)
        + script_removal(site, file, n, "onload"@)
        + script_removal(site, file, n, "onmousedown"@)
        + script_removal(site, file, n, "onmouseout"@)
        + script_removal(site, file, n, "onmouseover"@)
        + script_removal(site, file, n, "onmouseup"@)
        + style_removal(site, file, n)
}

/// What is taken out of a style or script text.
pub open spec fn text_removals(n: html::NodeView, changed: Seq<char>, removed: nat) -> Seq<
    (html::EditView, nat),
> {
    if removed > 0 {
        seq![
            (
                html::EditView {
                    kind: EditKind::ReplaceText,
                    at: n.at,
                    name: Seq::empty(),
                    value: changed,
                },
                removed,
            ),
        ]
    } else {
        Seq::empty()
    }
}

/// What is taken out of a node.
pub open spec fn node_removals(site: SiteView, file: path::PathView, n: html::NodeView) -> Seq<
    (html::EditView, nat),
> {
    match n.kind {
        NodeKind::Element => element_removals(site, file, n),
        NodeKind::StyleText => text_removals(
            n,
            sheet_without_missing(site, file, n.text),
            replaced(sheet_removals(site, file, n.text)),
        ),
        NodeKind::ScriptText => text_removals(
            n,
            script_without_missing(site, file, n.text),
            replaced(script_removals(site, file, n.text)),
        ),
    }
}

/// What is taken out of nodes: resources that lead to nothing.
pub open spec fn resource_removals(
    site: SiteView,
    file: path::PathView,
    nodes: Seq<html::NodeView>,
) -> Seq<(html::EditView, nat)>
    decreases nodes.len(),
{
    if nodes.len() == 0 {
        Seq::empty()
    } else {
        resource_removals(site, file, nodes.drop_last()) + node_removals(site, file, nodes.last())
    }
}

/// What is taken out of nodes: the targets of anchors and image maps that lead to nothing.
pub open spec fn link_removals(
    site: SiteView,
    file: path::PathView,
    nodes: Seq<html::NodeView>,
) -> Seq<(html::EditView, nat)>
    decreases nodes.len(),
{
    if nodes.len() == 0 {
        Seq::empty()
    } else {
        link_removals(site, file, nodes.drop_last()) + tagged_removal(
            site,
            file,
            nodes.last(),
            "a"@,
            "href"@,
        ) + tagged_removal(site, file, nodes.last(), "area"@, "href"@)
    }
}

/// The edits of removals.
pub open spec fn removal_edits(removals: Seq<(html::EditView, nat)>) -> Seq<html::EditView> {
    Seq::new(removals.len(), |i: int| removals[i].0)
}

/// How many references removals take out.
pub open spec fn total_removed(removals: Seq<(html::EditView, nat)>) -> nat
    decreases removals.len(),
{
    if removals.len() == 0 {
        0
    } else {
        total_removed(removals.drop_last()) + removals.last().1
    }
}

/// Takes an attribute away if it leads to nothing.
fn push_plain_removal(
    out: &mut Vec<Removal>,
    site: &SiteFiles,
    file: &LocalPath,
    node: &HtmlNode,
    name: &str,
)
    ensures
        order::keys(final(out)@) == order::keys(old(out)@) + plain_removal(
            site@,
            file@,
            node@,
            name@,
        ),
{
    let ghost before = order::keys(out@);
    proof {
        assert(before + Seq::<(html::EditView, nat)>::empty() == before);
    }
    if let Some(v) = node.get_attribute(name) {
        if site.is_missing(file, v.as_str()) {
            let removal = Removal {
                edit: HtmlEdit {
                    kind: EditKind::RemoveAttribute,
                    at: node.at,
                    name: name.to_owned(),
                    value: String::new(),
                },
                removed: 1,
            };
            out.push(removal);
            proof {
                assert(removal@ == attribute_removal(node@, name@));
                assert(order::keys(out@) == before + seq![removal@]);
            }
        }
    }
}

/// Takes an attribute of an element with a name away if it leads to nothing.
fn push_tagged_removal(
    out: &mut Vec<Removal>,
    site: &SiteFiles,
    file: &LocalPath,
    node: &HtmlNode,
    tag: &str,
    name: &str,
)
    ensures
        order::keys(final(out)@) == order::keys(old(out)@) + tagged_removal(
            site@,
            file@,
            node@,
            tag@,
            name@,
        ),
{
    if text::same(node.tag.as_str(), tag) {
        push_plain_removal(out, site, file, node, name);
    } else {
        proof {
            assert(order::keys(out@) + Seq::<(html::EditView, nat)>::empty() == order::keys(out@));
        }
    }
}

/// Gives an attribute another value.
fn push_setting(out: &mut Vec<Removal>, at: usize, name: &str, value: String, removed: usize)
    ensures
        order::keys(final(out)@) == order::keys(old(out)@).push(
            (
                html::EditView {
                    kind: EditKind::SetAttribute,
                    at,
                    name: name@,
                    value: value@,
                },
                removed as nat,
            ),
        ),
{
    let ghost before = order::keys(out@);
    let removal = Removal {
        edit: HtmlEdit { kind: EditKind::SetAttribute, at, name: name.to_owned(), value },
        removed,
    };
    out.push(removal);
    proof {
        assert(order::keys(out@) == before.push(removal@));
    }
}

/// Takes the strings that lead to nothing out of the script of an attribute.
fn push_script_removal(
    out: &mut Vec<Removal>,
    site: &SiteFiles,
    file: &LocalPath,
    node: &HtmlNode,
    name: &str,
)
    ensures
        order::keys(final(out)@) == order::keys(old(out)@) + script_removal(
            site@,
            file@,
            node@,
            name@,
        ),
{
    let ghost before = order::keys(out@);
    proof {
        assert(before + Seq::<(html::EditView, nat)>::empty() == before);
    }
    if let Some(v) = node.get_attribute(name) {
        let (changed, removed) = remove_missing_javascript_string_references(
            v.as_str(),
            site,
            file,
        );
        if removed > 0 {
            push_setting(out, node.at, name, changed, removed);
            proof {
                assert(order::keys(out@) == before + script_removal(site@, file@, node@, name@));
            }
        }
    }
}

/// Takes the URLs that lead to nothing out of a `style` attribute.
fn push_style_removal(
    out: &mut Vec<Removal>,
    site: &SiteFiles,
    file: &LocalPath,
    node: &HtmlNode,
)
    ensures
        order::keys(final(out)@) == order::keys(old(out)@) + style_removal(site@, file@, node@),
{
    let ghost before = order::keys(out@);
    proof {
        assert(before + Seq::<(html::EditView, nat)>::empty() == before);
    }
    if let Some(v) = node.get_attribute("style") {
        let (changed, removed) = remove_missing_style_urls(v.as_str(), site, file);
        if removed > 0 {
            push_setting(out, node.at, "style", changed, removed);
            proof {
                assert(order::keys(out@) == before + style_removal(site@, file@, node@));
            }
        }
    }
}

/// What is taken out of an element's attributes.
fn collect_element_removals(site: &SiteFiles, file: &LocalPath, node: &HtmlNode) -> (r: Vec<
    Removal,
>)
    ensures
        order::keys(r@) == element_removals(site@, file@, node@),
{
    let mut out: Vec<Removal> = Vec::new();
    proof {
        assert(order::keys(out@) == Seq::<(html::EditView, nat)>::empty());
    }
    push_tagged_removal(&mut out, site, file, node, "audio", "src");
    push_tagged_removal(&mut out, site, file, node, "embed", "src");
    push_tagged_removal(&mut out, site, file, node, "form", "action");
    push_tagged_removal(&mut out, site, file, node, "frame", "src");
    push_tagged_removal(&mut out, site, file, node, "iframe", "src");
    push_tagged_removal(&mut out, site, file, node, "img", "src");
    push_tagged_removal(&mut out, site, file, node, "input", "src");
    push_tagged_removal(&mut out, site, file, node, "link", "href");
    push_tagged_removal(&mut out, site, file, node, "object", "data");
    push_tagged_removal(&mut out, site, file, node, "script", "src");
    push_tagged_removal(&mut out, site, file, node, "source", "src");
    push_tagged_removal(&mut out, site, file, node, "track", "src");
    push_tagged_removal(&mut out, site, file, node, "video", "poster");
    push_tagged_removal(&mut out, site, file, node, "video", "src");
    push_plain_removal(&mut out, site, file, node, "background");
    push_script_removal(&mut out, site, file, node, "onclick");
    push_script_removal(&mut out, site, file, node, "onload");
    push_script_removal(&mut out, site, file, node, "onmousedown");
    push_script_removal(&mut out, site, file, node, "onmouseout");
    push_script_removal(&mut out, site, file, node, "onmouseover");
    push_script_removal(&mut out, site, file, node, "onmouseup");
    push_style_removal(&mut out, site, file, node);
    out
}

/// What is taken out of a style or script text.
fn text_removal_list(node: &HtmlNode, changed: String, removed: usize) -> (r: Vec<Removal>)
    ensures
        order::keys(r@) == text_removals(node@, changed@, removed as nat),
{
    let mut out: Vec<Removal> = Vec::new();
    if removed > 0 {
        let removal = Removal {
            edit: HtmlEdit {
                kind: EditKind::ReplaceText,
                at: node.at,
                name: String::new(),
                value: changed,
            },
            removed,
        };
        out.push(removal);
        proof {
            assert(order::keys(out@) == seq![removal@]);
            assert(removal@.0.name == Seq::<char>::empty());
        }
    } else {
        proof {
            assert(order::keys(out@) == Seq::<(html::EditView, nat)>::empty());
        }
    }
    out
}

/// The resources that are taken out of a node.
fn collect_node_removals(site: &SiteFiles, file: &LocalPath, node: &HtmlNode) -> (r: Vec<Removal>)
    ensures
        order::keys(r@) == node_removals(site@, file@, node@),
{
    match node.kind {
        NodeKind::Element => collect_element_removals(site, file, node),
        NodeKind::StyleText => {
            let (changed, removed) = remove_missing_css_url_references(
                node.text.as_str(),
                site,
                file,
            );
            text_removal_list(node, changed, removed)
        },
        NodeKind::ScriptText => {
            let (changed, removed) = remove_missing_javascript_string_references(
                node.text.as_str(),
                site,
                file,
            );
            text_removal_list(node, changed, removed)
        },
    }
}

/// The resources that are taken out of nodes.
#[verifier::spinoff_prover]
#[verifier::rlimit(50)]
pub fn collect_resource_removals(
    site: &SiteFiles,
    file: &LocalPath,
    nodes: &Vec<HtmlNode>,
) -> (r: Vec<Removal>)
    ensures
        order::keys(r@) == resource_removals(site@, file@, html::node_views(nodes@)),
{
    let ghost all = html::node_views(nodes@);
    let mut out: Vec<Removal> = Vec::new();
    let mut i: usize = 0;
    proof {
        assert(order::keys(out@) == resource_removals(site@, file@, all.take(0)));
    }
    while i < nodes.len()
        invariant
            i <= nodes@.len(),
            all == html::node_views(nodes@),
            order::keys(out@) == resource_removals(site@, file@, all.take(i as int)),
        decreases nodes@.len() - i,
    {
        let ghost before = order::keys(out@);
        let node = &nodes[i];
        proof {
            assert(all.take(i + 1).drop_last() == all.take(i as int));
            assert(all.take(i + 1).last() == node@);
        }
        let mut more = collect_node_removals(site, file, node);
        let ghost added = order::keys(more@);
        out.append(&mut more);
        i += 1;
        proof {
            assert(order::keys(out@) == before + added);
        }
    }
    proof {
        assert(all.take(all.len() as int) == all);
    }
    out
}

/// The targets of anchors and image maps that are taken out of nodes.
pub fn collect_link_removals(
    site: &SiteFiles,
    file: &LocalPath,
    nodes: &Vec<HtmlNode>,
) -> (r: Vec<Removal>)
    ensures
        order::keys(r@) == link_removals(site@, file@, html::node_views(nodes@)),
{
    let ghost all = html::node_views(nodes@);
    let mut out: Vec<Removal> = Vec::new();
    let mut i: usize = 0;
    proof {
        assert(order::keys(out@) == link_removals(site@, file@, all.take(0)));
    }
    while i < nodes.len()
        invariant
            i <= nodes@.len(),
            all == html::node_views(nodes@),
            order::keys(out@) == link_removals(site@, file@, all.take(i as int)),
        decreases nodes@.len() - i,
    {
        let node = &nodes[i];
        proof {
            assert(all.take(i + 1).drop_last() == all.take(i as int));
            assert(all.take(i + 1).last() == node@);
        }
        push_tagged_removal(&mut out, site, file, node, "a", "href");
        push_tagged_removal(&mut out, site, file, node, "area", "href");
        i += 1;
    }
    proof {
        assert(all.take(all.len() as int) == all);
    }
    out
}

/// Parts removals into their edits and how many references they take out.
fn split_removals(removals: Vec<Removal>) -> (r: (Vec<HtmlEdit>, usize))
    ensures
        html::edit_views(r.0@) == removal_edits(order::keys(removals@)),
        r.1 == numbers::capped(total_removed(order::keys(removals@))),
{
    let ghost all = order::keys(removals@);
    let ghost whole = removal_edits(all);
    let mut edits: Vec<HtmlEdit> = Vec::new();
    let mut total: usize = 0;
    let mut i: usize = 0;
    proof {
        assert(html::edit_views(edits@) == whole.take(0));
        assert(all.take(0).len() == 0);
    }
    while i < removals.len()
        invariant
            i <= removals@.len(),
            all == order::keys(removals@),
            whole == removal_edits(all),
            html::edit_views(edits@) == whole.take(i as int),
            total == numbers::capped(total_removed(all.take(i as int))),
        decreases removals@.len() - i,
    {
        let ghost before = html::edit_views(edits@);
        let removal = &removals[i];
        proof {
            assert(all.take(i + 1).drop_last() == all.take(i as int));
            assert(all.take(i + 1).last() == removal@);
        }
        let edit = HtmlEdit {
            kind: removal.edit.kind,
            at: removal.edit.at,
            name: removal.edit.name.clone(),
            value: removal.edit.value.clone(),
        };
        edits.push(edit);
        total = numbers::add_capped(total, removal.removed);
        i += 1;
        proof {
            assert(edit@ == removal@.0);
            assert(html::edit_views(edits@) == before.push(edit@));
            assert(whole.take(i as int) == whole.take(i - 1).push(whole[i - 1]));
        }
    }
    proof {
        assert(whole.take(removals@.len() as int) == whole);
        assert(all.take(all.len() as int) == all);
    }
    (edits, total)
}

/// A document after removals, and how many references were taken out; none where nothing was.
pub open spec fn after_removals(input: Seq<char>, removals: Seq<(html::EditView, nat)>) -> Result<
    Option<(Seq<char>, nat)>,
    UnreadableHtml,
> {
    if total_removed(removals) == 0 {
        Ok(None)
    } else {
        match html::html_edited(input, removal_edits(removals)) {
            Some(changed) => Ok(Some((changed, numbers::capped(total_removed(removals))))),
            None => Err(UnreadableHtml),
        }
    }
}

/// The view of a changed document.
pub open spec fn change_view(r: Result<Option<(String, usize)>, UnreadableHtml>) -> Result<
    Option<(Seq<char>, nat)>,
    UnreadableHtml,
> {
    match r {
        Ok(Some((changed, removed))) => Ok(Some((changed@, removed as nat))),
        Ok(None) => Ok(None),
        Err(e) => Err(e),
    }
}

/// Makes removals in a document.
pub fn apply_removals(input: &str, removals: Vec<Removal>) -> (r: Result<
    Option<(String, usize)>,
    UnreadableHtml,
>)
    ensures
        change_view(r) == after_removals(input@, order::keys(removals@)),
{
    let (edits, total) = split_removals(removals);
    if total == 0 {
        return Ok(None);
    }
    match html::apply_edits(input, &edits) {
        Some(changed) => Ok(Some((changed, total))),
        None => Err(UnreadableHtml),
    }
}

/// A page without the anchor and image-map targets that lead to nothing; none where there are none.
pub open spec fn page_without_missing_links(site: SiteView, source: SourceView) -> Result<
    Option<(Seq<char>, nat)>,
    UnreadableHtml,
> {
    match html::html_nodes(source.text) {
        Some(nodes) => after_removals(source.text, link_removals(site, source.path, nodes)),
        None => Err(UnreadableHtml),
    }
}

/// A page or style sheet without the resources that lead to nothing; none where there are none.
pub open spec fn file_without_missing_resources(site: SiteView, source: SourceView) -> Result<
    Option<(Seq<char>, nat)>,
    UnreadableHtml,
> {
    if html_file(source.path) {
        match html::html_nodes(source.text) {
            Some(nodes) => after_removals(source.text, resource_removals(site, source.path, nodes)),
            None => Err(UnreadableHtml),
        }
    } else {
        let removed = replaced(sheet_removals(site, source.path, source.text));
        if removed > 0 {
            Ok(Some((sheet_without_missing(site, source.path, source.text), removed)))
        } else {
            Ok(None)
        }
    }
}

/// Takes the anchor and image-map targets that lead to nothing out of a page. Where there are any,
/// returns the page and how many there were.
pub fn remove_missing_local_href_links(site: &SiteFiles, source: &SourceFile) -> (r: Result<
    Option<(String, usize)>,
    UnreadableHtml,
>)
    ensures
        change_view(r) == page_without_missing_links(site@, source@),
{
    match html::read_nodes(source.text.as_str()) {
        Some(nodes) => apply_removals(
            source.text.as_str(),
            collect_link_removals(site, &source.path, &nodes),
        ),
        None => Err(UnreadableHtml),
    }
}

/// Takes the resources that lead to nothing out of a page or style sheet. Where there are any,
/// returns the text and how many there were.
pub fn remove_missing_local_resource_references(site: &SiteFiles, source: &SourceFile) -> (r:
    Result<Option<(String, usize)>, UnreadableHtml>)
    ensures
        change_view(r) == file_without_missing_resources(site@, source@),
{
    let input = source.text.as_str();
    if is_html_file(&source.path) {
        match html::read_nodes(input) {
            Some(nodes) => apply_removals(
                input,
                collect_resource_removals(site, &source.path, &nodes),
            ),
            None => Err(UnreadableHtml),
        }
    } else {
        let (changed, removed) = remove_missing_css_url_references(input, site, &source.path);
        if removed > 0 {
            Ok(Some((changed, removed)))
        } else {
            Ok(None)
        }
    }
}

/// The texts of the targets of missing links.
pub open spec fn target_texts(missing: Seq<MissingLinkView>) -> Seq<Seq<char>> {
    Seq::new(missing.len(), |i: int| missing[i].target.text())
}

/// How many different targets missing links have.
pub fn unique_missing_targets(missing: &Vec<MissingLocalLink>) -> (r: usize)
    ensures
        r == order::sort_dedup_of(target_texts(order::keys(missing@))).len(),
{
    let ghost whole = target_texts(order::keys(missing@));
    let mut texts: Vec<String> = Vec::new();
    let mut i: usize = 0;
    proof {
        assert(text::views(texts@) == whole.take(0));
    }
    while i < missing.len()
        invariant
            i <= missing@.len(),
            whole == target_texts(order::keys(missing@)),
            text::views(texts@) == whole.take(i as int),
        decreases missing@.len() - i,
    {
        let ghost before = text::views(texts@);
        let target = missing[i].target.to_text();
        texts.push(target);
        i += 1;
        proof {
            assert(text::views(texts@) == before.push(target@));
            assert(whole.take(i as int) == whole.take(i - 1).push(whole[i - 1]));
        }
    }
    proof {
        assert(whole.take(missing@.len() as int) == whole);
    }
    let unique = order::sort_dedup(texts);
    proof {
        assert(unique@.len() == text::views(unique@).len());
    }
    unique.len()
}

/// The pages among files that hold nothing but an error, a redirect or a login wall.
pub open spec fn unusable_pages(sources: Seq<SourceView>) -> Seq<path::PathView>
    decreases sources.len(),
{
    if sources.len() == 0 {
        Seq::empty()
    } else if html_file(sources.last().path) && soft_redirect::unusable(sources.last().text) {
        unusable_pages(sources.drop_last()).push(sources.last().path)
    } else {
        unusable_pages(sources.drop_last())
    }
}

/// The pages among files that hold nothing but an error, a redirect or a login wall.
pub fn find_unusable_pages(sources: &Vec<SourceFile>) -> (r: Vec<LocalPath>)
    ensures
        order::keys(r@) == unusable_pages(order::keys(sources@)),
{
    let ghost all = order::keys(sources@);
    let mut pages: Vec<LocalPath> = Vec::new();
    let mut i: usize = 0;
    proof {
        assert(order::keys(pages@) == unusable_pages(all.take(0)));
    }
    while i < sources.len()
        invariant
            i <= sources@.len(),
            all == order::keys(sources@),
            order::keys(pages@) == unusable_pages(all.take(i as int)),
        decreases sources@.len() - i,
    {
        let ghost before = order::keys(pages@);
        let source = &sources[i];
        proof {
            assert(all.take(i + 1).drop_last() == all.take(i as int));
            assert(all.take(i + 1).last() == source@);
        }
        if is_html_file(&source.path) && soft_redirect::is_unusable_html_capture(
            source.text.as_str(),
        ) {
            let page = source.path.duplicate();
            pages.push(page);
            proof {
                assert(order::keys(pages@) == before.push(page@));
            }
        }
        i += 1;
    }
    proof {
        assert(all.take(all.len() as int) == all);
    }
    pages
}

/// Whether a file holds a reference that leads to nothing.
pub open spec fn is_dead_in(site: SiteView, source: SourceView, link: MissingLinkView) -> bool {
    &&& source.path == link.source
    &&& source_references(source) matches Some(references)
    &&& references.contains(link.href)
    &&& site.resolve(link.source, link.href) == Some(link.target)
    &&& !site.serves(link.target)
}

/// The local references of a file are those of its references that lead into the site.
proof fn lemma_local_references(
    site: SiteView,
    file: path::PathView,
    references: Seq<Seq<char>>,
    href: Seq<char>,
)
    ensures
        local_references(site, file, references).contains(href) <==> references.contains(href)
            && site.resolve(file, href) is Some,
    decreases references.len(),
{
    if references.len() > 0 {
        let front = references.drop_last();
        let last = references.last();
        let before = local_references(site, file, front);
        let after = local_references(site, file, references);
        lemma_local_references(site, file, front, href);
        assert(references[references.len() - 1] == last);
        if front.contains(href) {
            let k = choose|k: int| 0 <= k < front.len() && front[k] == href;
            assert(references[k] == href);
        }
        if references.contains(href) && href != last {
            let k = choose|k: int| 0 <= k < references.len() && references[k] == href;
            assert(front[k] == href);
        }
        if before.contains(href) {
            let k = choose|k: int| 0 <= k < before.len() && before[k] == href;
            assert(after[k] == href);
        }
        if after.len() > before.len() {
            assert(after[after.len() - 1] == last);
        }
        if after.contains(href) && !(href == last && site.resolve(file, last) is Some) {
            let k = choose|k: int| 0 <= k < after.len() && after[k] == href;
            assert(before[k] == href);
        }
    }
}

/// The missing links of a file are those of its references that lead to nothing.
proof fn lemma_missing_links(
    site: SiteView,
    file: path::PathView,
    references: Seq<Seq<char>>,
    link: MissingLinkView,
)
    ensures
        missing_links(site, file, references).contains(link) <==> link.source == file
            && references.contains(link.href) && site.resolve(file, link.href) == Some(link.target)
            && !site.serves(link.target),
    decreases references.len(),
{
    if references.len() > 0 {
        let front = references.drop_last();
        let last = references.last();
        let before = missing_links(site, file, front);
        let after = missing_links(site, file, references);
        lemma_missing_links(site, file, front, link);
        assert(references[references.len() - 1] == last);
        if front.contains(link.href) {
            let k = choose|k: int| 0 <= k < front.len() && front[k] == link.href;
            assert(references[k] == link.href);
        }
        if references.contains(link.href) && link.href != last {
            let k = choose|k: int| 0 <= k < references.len() && references[k] == link.href;
            assert(front[k] == link.href);
        }
        if before.contains(link) {
            let k = choose|k: int| 0 <= k < before.len() && before[k] == link;
            assert(after[k] == link);
        }
        if after.len() > before.len() {
            assert(after[after.len() - 1].href == last);
            assert(after[after.len() - 1].source == file);
            if link.href == last && link.source == file && site.resolve(file, last) == Some(
                link.target,
            ) {
                assert(after[after.len() - 1] == link);
            }
        }
        if after.contains(link) && link.href != last {
            let k = choose|k: int| 0 <= k < after.len() && after[k] == link;
            assert(before[k] == link);
        }
        if after.contains(link) && !before.contains(link) {
            let k = choose|k: int| 0 <= k < after.len() && after[k] == link;
            if k < before.len() {
                assert(before[k] == link);
            }
        }
    }
}

/// A validation reports exactly the references that lead to nothing.
pub proof fn law_dead_references_are_reported(
    site: SiteView,
    sources: Seq<SourceView>,
    link: MissingLinkView,
)
    requires
        validated(site, sources) is Some,
    ensures
        validated(site, sources)->Some_0.missing.contains(link) <==> exists|i: int|
            0 <= i < sources.len() && is_dead_in(site, #[trigger] sources[i], link),
    decreases sources.len(),
{
    if sources.len() > 0 {
        let front = sources.drop_last();
        let last = sources.last();
        law_dead_references_are_reported(site, front, link);
        let before = validated(site, front)->Some_0;
        let after = validated(site, sources)->Some_0;
        let references = source_references(last)->Some_0;
        let local = local_references(site, last.path, references);
        let new = missing_links(site, last.path, local);
        lemma_local_references(site, last.path, references, link.href);
        lemma_missing_links(site, last.path, local, link);
        assert(new.contains(link) <==> is_dead_in(site, last, link));
        assert(sources[sources.len() - 1] == last);
        if before.missing.contains(link) {
            let k = choose|k: int| 0 <= k < before.missing.len() && before.missing[k] == link;
            assert(after.missing[k] == link);
            let i = choose|i: int|
                0 <= i < front.len() && is_dead_in(site, #[trigger] front[i], link);
            assert(sources[i] == front[i]);
        }
        if new.contains(link) {
            let k = choose|k: int| 0 <= k < new.len() && new[k] == link;
            assert(after.missing[before.missing.len() + k] == link);
            assert(is_dead_in(site, sources[sources.len() - 1], link));
        }
        if after.missing.contains(link) {
            let k = choose|k: int| 0 <= k < after.missing.len() && after.missing[k] == link;
            if k < before.missing.len() {
                assert(before.missing[k] == link);
            } else {
                assert(new[k - before.missing.len()] == link);
            }
        }
        if exists|i: int| 0 <= i < sources.len() && is_dead_in(site, #[trigger] sources[i], link) {
            let i = choose|i: int|
                0 <= i < sources.len() && is_dead_in(site, #[trigger] sources[i], link);
            if i < front.len() {
                assert(is_dead_in(site, front[i], link));
            }
        }
    }
}

/// Whether an element is a link that leads to nothing.
pub open spec fn is_dead_link(site: SiteView, file: path::PathView, n: html::NodeView) -> bool {
    (n.tag == "a"@ || n.tag == "area"@) && (html::attribute(n.attributes, "href"@) matches Some(v)
        && site.lacks(file, v))
}

/// Exactly the targets of links that lead to nothing are taken out of a page.
pub proof fn law_dead_links_are_removed(
    site: SiteView,
    file: path::PathView,
    nodes: Seq<html::NodeView>,
    removal: (html::EditView, nat),
)
    ensures
        link_removals(site, file, nodes).contains(removal) <==> exists|i: int|
            0 <= i < nodes.len() && is_dead_link(site, file, #[trigger] nodes[i]) && removal
                == attribute_removal(nodes[i], "href"@),
    decreases nodes.len(),
{
    if nodes.len() > 0 {
        let front = nodes.drop_last();
        let last = nodes.last();
        let before = link_removals(site, file, front);
        let after = link_removals(site, file, nodes);
        law_dead_links_are_removed(site, file, front, removal);
        reveal_strlit("a");
        reveal_strlit("area");
        assert("a"@.len() == 1);
        assert("area"@.len() == 4);
        let own = tagged_removal(site, file, last, "a"@, "href"@) + tagged_removal(
            site,
            file,
            last,
            "area"@,
            "href"@,
        );
        assert(after == before + own);
        if is_dead_link(site, file, last) {
            assert(own == seq![attribute_removal(last, "href"@)]);
            assert(after[before.len() as int] == attribute_removal(last, "href"@));
        } else {
            assert(own == Seq::<(html::EditView, nat)>::empty());
        }
        assert(nodes[nodes.len() - 1] == last);
        if before.contains(removal) {
            let k = choose|k: int| 0 <= k < before.len() && before[k] == removal;
            assert(after[k] == removal);
            let i = choose|i: int|
                0 <= i < front.len() && is_dead_link(site, file, #[trigger] front[i]) && removal
                    == attribute_removal(front[i], "href"@);
            assert(nodes[i] == front[i]);
        }
        if after.contains(removal) {
            let k = choose|k: int| 0 <= k < after.len() && after[k] == removal;
            if k < before.len() {
                assert(before[k] == removal);
            } else {
                assert(own[k - before.len()] == removal);
                assert(is_dead_link(site, file, nodes[nodes.len() - 1]));
            }
        }
        if exists|i: int|
            0 <= i < nodes.len() && is_dead_link(site, file, #[trigger] nodes[i]) && removal
                == attribute_removal(nodes[i], "href"@) {
            let i = choose|i: int|
                0 <= i < nodes.len() && is_dead_link(site, file, #[trigger] nodes[i]) && removal
                    == attribute_removal(nodes[i], "href"@);
            if i < front.len() {
                assert(is_dead_link(site, file, front[i]));
            }
        }
    }
}

/// A link between two files of a site, with a query or a fragment behind it or without, is found by a
/// validation, wherever the site lies. That leaves out links that read as something else than a path,
/// such as a URL, and names that trimming or decoding changes or that hold a question mark or a hash.
pub proof fn law_links_to_saved_files_are_found(
    site: SiteView,
    from: path::PathView,
    to: path::PathView,
    tail: Seq<char>,
)
    requires
        site.root.is_plain(),
        !from.absolute,
        !to.absolute,
        from.parts.len() > 0,
        path::all_clean(from.parts),
        path::all_clean(to.parts),
        ({
            let link = path::relative_link_of(from, to);
            let href = link + tail;
            &&& text::trim(href) == href
            &&& !scan::is_skipped(href)
            &&& urls::url_parse(href) is Err
            &&& scan::bare_path(href) == link
            &&& scan::percent_decoded(link) == link
        }),
        site.files.contains(site.root.join(to).text()),
    ensures
        site.resolve(site.root.join(from), path::relative_link_of(from, to) + tail) == Some(
            site.root.join(to),
        ),
        !site.lacks(site.root.join(from), path::relative_link_of(from, to) + tail),
{
    let link = path::relative_link_of(from, to);
    path::lemma_links_below(site.root, from, to);
    reveal_strlit("/");
    reveal_strlit(".");
    assert(path::is_clean(from.parts[0]));
    if to.parts.len() > 0 {
        assert(path::is_clean(to.parts[0]));
    }
    let file = site.root.join(from);
    assert(file.parts == site.root.parts + from.parts);
    assert(file.parts.drop_last() == site.root.parts + from.parts.drop_last());
    let target = site.root.join(to);
    assert(target.parts == site.root.parts + to.parts);
    assert(target.parts.take(site.root.parts.len() as int) == site.root.parts);
    assert(!text::starts_with(link, "/"@)) by {
        if text::starts_with(link, "/"@) {
            assert(link.subrange(0, 1)[0] == "/"@[0]);
        }
    }
}

/// An empty reference leads nowhere, so nothing is missing there.
proof fn lemma_empty_reference(site: SiteView, file: path::PathView)
    ensures
        !site.lacks(file, Seq::empty()),
{
    let none = Seq::<char>::empty();
    assert(text::trim_start_by(none, text::white()) == none);
    assert(text::trim_end_by(none, text::white()) == none);
}

/// After the URLs that lead to nothing are taken out of a `style` attribute, none is left in it.
pub proof fn law_cleaned_styles_lead_somewhere(
    site: SiteView,
    file: path::PathView,
    s: Seq<char>,
)
    ensures
        forall|i: int|
            0 <= i < style_references(style_without_missing(site, file, s)).len() ==> !site.lacks(
                file,
                #[trigger] style_references(style_without_missing(site, file, s))[i],
            ),
{
    let removals = style_replacements(site, file, s);
    let spans = scan::url_spans(s, text::lower(s), 0);
    let t = style_without_missing(site, file, s);
    reveal_strlit("\"\"");
    assert(!"\"\""@.contains(')'));
    scan::lemma_spliced_urls(s, removals);
    lemma_empty_reference(site, file);
    let raw = scan::placed(s, spans, removals);
    assert forall|i: int| 0 <= i < style_references(t).len() implies !site.lacks(
        file,
        #[trigger] style_references(t)[i],
    ) by {
        assert(style_references(t)[i] == css_url_value(raw[i]));
        if removals[i] is Some {
            let quotes = "\"\""@;
            assert(raw[i] == quotes);
            lemma_empty_quotes();
        } else {
            assert(raw[i] == scan::pieces(s, spans)[i]);
            assert(style_references(s)[i] == css_url_value(raw[i]));
        }
    }
}

/// Two quotes are the URL that is empty.
proof fn lemma_empty_quotes()
    ensures
        css_url_value("\"\""@) == Seq::<char>::empty(),
{
    let quotes = "\"\""@;
    reveal_strlit("\"\"");
    assert(quotes.len() == 2 && quotes[0] == '"' && quotes[1] == '"');
    assert(text::trim(quotes) == quotes) by {
        assert(text::trim_start_by(quotes, text::white()) == quotes);
        assert(text::trim_end_by(quotes, text::white()) == quotes);
    }
    assert(quotes.subrange(1, 1) == Seq::<char>::empty());
}

/// What is kept of a list of texts are texts of the list that look like references.
proof fn lemma_kept_references(values: Seq<Seq<char>>)
    ensures
        forall|i: int|
            0 <= i < kept_references(values).len() ==> looks_like_reference(
                #[trigger] kept_references(values)[i],
            ) && values.contains(kept_references(values)[i]),
    decreases values.len(),
{
    if values.len() > 0 {
        let front = values.drop_last();
        lemma_kept_references(front);
        assert forall|i: int| 0 <= i < kept_references(values).len() implies looks_like_reference(
            #[trigger] kept_references(values)[i],
        ) && values.contains(kept_references(values)[i]) by {
            if i < kept_references(front).len() {
                let value = kept_references(front)[i];
                let k = choose|k: int| 0 <= k < front.len() && front[k] == value;
                assert(values[k] == value);
            } else {
                assert(values[values.len() - 1] == values.last());
            }
        }
    }
}

/// After the strings that lead to nothing are taken out of a script, none is left in it.
pub proof fn law_cleaned_scripts_lead_somewhere(
    site: SiteView,
    file: path::PathView,
    s: Seq<char>,
)
    ensures
        forall|i: int|
            0 <= i < script_references(script_without_missing(site, file, s)).len() ==> !site.lacks(
                file,
                #[trigger] script_references(script_without_missing(site, file, s))[i],
            ),
{
    let removals = script_removals(site, file, s);
    let spans = scan::string_spans(s, 0);
    let t = script_without_missing(site, file, s);
    reveal_strlit("");
    scan::lemma_spliced_strings(s, removals);
    let values = scan::placed(s, spans, removals);
    lemma_kept_references(values);
    assert forall|i: int| 0 <= i < script_references(t).len() implies !site.lacks(
        file,
        #[trigger] script_references(t)[i],
    ) by {
        let value = kept_references(values)[i];
        let k = choose|k: int| 0 <= k < values.len() && values[k] == value;
        if removals[k] is None {
            assert(value == scan::pieces(s, spans)[k]);
        }
    }
}

/// The references of a style sheet, empty where they lead to nothing.
pub open spec fn sheet_references_left(site: SiteView, file: path::PathView, s: Seq<char>) -> Seq<
    Seq<char>,
> {
    let refs = css_refs::css_references(s);
    Seq::new(
        refs.len(),
        |i: int|
            if site.lacks(file, refs[i].value) {
                Seq::empty()
            } else {
                refs[i].value
            },
    )
}

/// After the resources that lead to nothing are taken out of a style sheet, a validation finds none
/// missing in it, provided that its other tokens are read as before.
pub proof fn law_cleaned_style_sheets_pass(site: SiteView, source: SourceView)
    requires
        !html_file(source.path),
        sheet_references(sheet_without_missing(site, source.path, source.text))
            == sheet_references_left(site, source.path, source.text),
    ensures
        ({
            let text = match file_without_missing_resources(site, source) {
                Ok(Some((changed, _))) => changed,
                _ => source.text,
            };
            validated(site, seq![SourceView { path: source.path, text }]) matches Some(report)
                && report.missing.len() == 0
        }),
{
    let removals = sheet_removals(site, source.path, source.text);
    let text = match file_without_missing_resources(site, source) {
        Ok(Some((changed, _))) => changed,
        _ => source.text,
    };
    let references = sheet_references(text);
    let refs = css_refs::css_references(source.text);
    let local = local_references(site, source.path, references);
    lemma_empty_reference(site, source.path);
    lemma_replaced(removals);
    assert forall|i: int| 0 <= i < local.len() implies !site.lacks(
        source.path,
        #[trigger] local[i],
    ) by {
        lemma_local_references(site, source.path, references, local[i]);
        assert(local.contains(local[i]));
        let k = choose|k: int| 0 <= k < references.len() && references[k] == local[i];
        if replaced(removals) == 0 {
            assert(removals[k] is None);
            assert(references[k] == refs[k].value);
        }
        assert(!site.lacks(source.path, references[k]));
    }
    lemma_nothing_missing(site, source.path, local);
    let cleaned = seq![SourceView { path: source.path, text }];
    assert(cleaned.drop_last() == Seq::<SourceView>::empty());
    assert(validated(site, cleaned.drop_last()) is Some);
}

/// Where nothing is replaced, there is no replacement.
proof fn lemma_replaced(replacements: Seq<Option<Seq<char>>>)
    ensures
        replaced(replacements) == 0 ==> forall|i: int|
            0 <= i < replacements.len() ==> (#[trigger] replacements[i]) is None,
    decreases replacements.len(),
{
    if replacements.len() > 0 {
        let front = replacements.drop_last();
        lemma_replaced(front);
        if replaced(replacements) == 0 {
            assert forall|i: int| 0 <= i < replacements.len() implies (
            #[trigger] replacements[i]) is None by {
                if i < front.len() {
                    assert(front[i] is None);
                }
            }
        }
    }
}

/// References that all lead somewhere are not reported.
proof fn lemma_nothing_missing(
    site: SiteView,
    file: path::PathView,
    references: Seq<Seq<char>>,
)
    requires
        forall|i: int| 0 <= i < references.len() ==> !site.lacks(file, #[trigger] references[i]),
    ensures
        missing_links(site, file, references).len() == 0,
    decreases references.len(),
{
    if references.len() > 0 {
        let front = references.drop_last();
        assert forall|i: int| 0 <= i < front.len() implies !site.lacks(
            file,
            #[trigger] front[i],
        ) by {
            assert(!site.lacks(file, references[i]));
        }
        lemma_nothing_missing(site, file, front);
        assert(!site.lacks(file, references[references.len() - 1]));
    }
}

/// What stands in one of two lists stands in both together.
pub broadcast proof fn lemma_in_either<T>(a: Seq<T>, b: Seq<T>, x: T)
    ensures
        #[trigger] (a + b).contains(x) == (a.contains(x) || b.contains(x)),
{
    let all = a + b;
    if a.contains(x) {
        let i = choose|i: int| 0 <= i < a.len() && a[i] == x;
        assert(all[i] == x);
    }
    if b.contains(x) {
        let i = choose|i: int| 0 <= i < b.len() && b[i] == x;
        assert(all[a.len() + i] == x);
    }
    if all.contains(x) {
        let i = choose|i: int| 0 <= i < all.len() && all[i] == x;
        if i < a.len() {
            assert(a[i] == x);
        } else {
            assert(b[i - a.len()] == x);
        }
    }
}

/// The references of a page are those of its nodes.
proof fn lemma_references_of_nodes(nodes: Seq<html::NodeView>, x: Seq<char>)
    ensures
        all_references(nodes).contains(x) <==> exists|i: int|
            0 <= i < nodes.len() && node_references(#[trigger] nodes[i]).contains(x),
    decreases nodes.len(),
{
    broadcast use lemma_in_either;

    if nodes.len() > 0 {
        let front = nodes.drop_last();
        lemma_references_of_nodes(front, x);
        if all_references(front).contains(x) {
            let i = choose|i: int|
                0 <= i < front.len() && node_references(#[trigger] front[i]).contains(x);
            assert(nodes[i] == front[i]);
        }
        if node_references(nodes.last()).contains(x) {
            assert(nodes[nodes.len() - 1] == nodes.last());
        }
        if exists|i: int| 0 <= i < nodes.len() && node_references(#[trigger] nodes[i]).contains(x) {
            let i = choose|i: int|
                0 <= i < nodes.len() && node_references(#[trigger] nodes[i]).contains(x);
            if i < front.len() {
                assert(front[i] == nodes[i]);
            }
        }
    }
}

/// A list of one value holds that value.
proof fn lemma_plain_ref(n: html::NodeView, name: Seq<char>, v: Seq<char>)
    requires
        html::attribute(n.attributes, name) == Some(v),
    ensures
        plain_ref(n, name).contains(v),
{
    assert(plain_ref(n, name)[0] == v);
}

/// Whatever its tag, an element refers to what its `href`, `src` and `background` attributes name;
/// quotations, forms, objects and videos refer to what their own attributes name.
#[verifier::spinoff_prover]
#[verifier::rlimit(50)]
pub proof fn law_elements_refer_to_what_they_name(
    nodes: Seq<html::NodeView>,
    i: int,
    name: Seq<char>,
    v: Seq<char>,
)
    requires
        0 <= i < nodes.len(),
        nodes[i].kind == NodeKind::Element,
        html::attribute(nodes[i].attributes, name) == Some(v),
        ({
            let tag = nodes[i].tag;
            ||| name == "href"@
            ||| name == "src"@
            ||| name == "background"@
            ||| name == "cite"@ && (tag == "blockquote"@ || tag == "q"@ || tag == "del"@ || tag
                == "ins"@)
            ||| name == "action"@ && tag == "form"@
            ||| name == "data"@ && tag == "object"@
            ||| name == "poster"@ && tag == "video"@
        }),
    ensures
        all_references(nodes).contains(v),
{
    broadcast use lemma_in_either;

    lemma_plain_ref(nodes[i], name, v);
    assert(element_references(nodes[i]).contains(v));
    assert(node_references(nodes[i]).contains(v));
    lemma_references_of_nodes(nodes, v);
}

/// Entries of lists, the parameters of applets and objects, and their code count as references where
/// they look like one.
pub proof fn law_values_that_look_like_references_count(
    nodes: Seq<html::NodeView>,
    i: int,
    name: Seq<char>,
    v: Seq<char>,
)
    requires
        0 <= i < nodes.len(),
        nodes[i].kind == NodeKind::Element,
        html::attribute(nodes[i].attributes, name) == Some(v),
        looks_like_reference(v),
        ({
            let tag = nodes[i].tag;
            ||| name == "value"@ && (tag == "option"@ || tag == "param"@)
            ||| name == "code"@ && tag == "applet"@
            ||| name == "codebase"@ && tag == "object"@
        }),
    ensures
        all_references(nodes).contains(v),
{
    broadcast use lemma_in_either;

    let one = seq![v];
    assert(one.drop_last() == Seq::<Seq<char>>::empty());
    assert(kept_references(one.drop_last()) == Seq::<Seq<char>>::empty());
    assert(kept_references(one)[0] == v);
    assert(element_references(nodes[i]).contains(v));
    assert(node_references(nodes[i]).contains(v));
    lemma_references_of_nodes(nodes, v);
}

/// The references in the scripts of event attributes and of script elements, in style attributes and
/// in style sheets of a page are references of the page.
#[verifier::spinoff_prover]
#[verifier::rlimit(50)]
pub proof fn law_scripts_and_styles_refer(
    nodes: Seq<html::NodeView>,
    i: int,
    name: Seq<char>,
    v: Seq<char>,
    x: Seq<char>,
)
    requires
        0 <= i < nodes.len(),
        ({
            let n = nodes[i];
            ||| n.kind == NodeKind::ScriptText && script_references(n.text).contains(x)
            ||| n.kind == NodeKind::StyleText && css_refs::css_values(
                css_refs::css_references(n.text),
            ).contains(x)
            ||| n.kind == NodeKind::Element && html::attribute(n.attributes, name) == Some(v) && {
                ||| name == "style"@ && style_references(v).contains(x)
                ||| script_references(v).contains(x) && (name == "onclick"@ || name == "onfocus"@
                    || name == "onblur"@ || name == "onchange"@ || name == "onload"@ || name
                    == "onmousedown"@ || name == "onmouseout"@ || name == "onmouseover"@ || name
                    == "onmouseup"@)
            }
        }),
    ensures
        all_references(nodes).contains(x),
{
    broadcast use lemma_in_either;

    assert(node_references(nodes[i]).contains(x));
    lemma_references_of_nodes(nodes, x);
}

/// An element with none of the attributes that can hold a reference refers to nothing.
pub proof fn law_other_attributes_are_no_references(n: html::NodeView)
    requires
        n.kind == NodeKind::Element,
        forall|i: int|
            0 <= i < n.attributes.len() ==> {
                let name = (#[trigger] n.attributes[i]).0;
                &&& name != "href"@ && name != "src"@ && name != "background"@ && name != "srcset"@
                &&& name != "cite"@ && name != "action"@ && name != "data"@ && name != "poster"@
                &&& name != "codebase"@ && name != "code"@ && name != "value"@ && name != "archive"@
                &&& name != "content"@ && name != "style"@
                &&& name != "onclick"@ && name != "onfocus"@ && name != "onblur"@ && name
                    != "onchange"@ && name != "onload"@ && name != "onmousedown"@ && name
                    != "onmouseout"@ && name != "onmouseover"@ && name != "onmouseup"@
            },
    ensures
        node_references(n).len() == 0,
{
    let all = n.attributes;
    lemma_no_attribute(all, "href"@);
    lemma_no_attribute(all, "src"@);
    lemma_no_attribute(all, "background"@);
    lemma_no_attribute(all, "srcset"@);
    lemma_no_attribute(all, "cite"@);
    lemma_no_attribute(all, "action"@);
    lemma_no_attribute(all, "data"@);
    lemma_no_attribute(all, "poster"@);
    lemma_no_attribute(all, "codebase"@);
    lemma_no_attribute(all, "code"@);
    lemma_no_attribute(all, "value"@);
    lemma_no_attribute(all, "archive"@);
    lemma_no_attribute(all, "content"@);
    lemma_no_attribute(all, "style"@);
    lemma_no_attribute(all, "onclick"@);
    lemma_no_attribute(all, "onfocus"@);
    lemma_no_attribute(all, "onblur"@);
    lemma_no_attribute(all, "onchange"@);
    lemma_no_attribute(all, "onload"@);
    lemma_no_attribute(all, "onmousedown"@);
    lemma_no_attribute(all, "onmouseout"@);
    lemma_no_attribute(all, "onmouseover"@);
    lemma_no_attribute(all, "onmouseup"@);
}

/// An attribute that no pair names is not there.
pub proof fn lemma_no_attribute(attributes: Seq<(Seq<char>, Seq<char>)>, name: Seq<char>)
    requires
        forall|i: int| 0 <= i < attributes.len() ==> (#[trigger] attributes[i]).0 != name,
    ensures
        html::attribute(attributes, name) is None,
    decreases attributes.len(),
{
    if attributes.len() > 0 {
        let rest = attributes.drop_first();
        assert forall|i: int| 0 <= i < rest.len() implies (#[trigger] rest[i]).0 != name by {
            assert(rest[i] == attributes[i + 1]);
        }
        lemma_no_attribute(rest, name);
    }
}

/// A validation reports what an element of a page names by `href`, `src` or `background` where that
/// leads into the site and neither a file nor an index page of a directory is there.
pub proof fn law_missing_files_of_elements_are_reported(
    site: SiteView,
    sources: Seq<SourceView>,
    k: int,
    nodes: Seq<html::NodeView>,
    i: int,
    name: Seq<char>,
    v: Seq<char>,
    target: path::PathView,
)
    requires
        validated(site, sources) is Some,
        0 <= k < sources.len(),
        sources[k].path.extension() == Some("html"@),
        html::html_nodes(sources[k].text) == Some(nodes),
        0 <= i < nodes.len(),
        nodes[i].kind == NodeKind::Element,
        html::attribute(nodes[i].attributes, name) == Some(v),
        name == "href"@ || name == "src"@ || name == "background"@,
        site.resolve(sources[k].path, v) == Some(target),
        !site.files.contains(target.text()),
        !site.files.contains(target.join(path::parse_of("index.html"@)).text()),
        !site.files.contains(target.join(path::parse_of("index.htm"@)).text()),
    ensures
        validated(site, sources)->Some_0.missing.contains(
            MissingLinkView { source: sources[k].path, href: v, target },
        ),
        validated(site, sources)->Some_0.checked > 0,
{
    let link = MissingLinkView { source: sources[k].path, href: v, target };
    assert(html_file(sources[k].path));
    law_elements_refer_to_what_they_name(nodes, i, name, v);
    assert(is_dead_in(site, sources[k], link));
    law_dead_references_are_reported(site, sources, link);
    lemma_missing_links_are_checked(site, sources);
    let missing = validated(site, sources)->Some_0.missing;
    let j = choose|j: int| 0 <= j < missing.len() && missing[j] == link;
}

/// No more links are missing than were checked.
proof fn lemma_missing_links_are_checked(site: SiteView, sources: Seq<SourceView>)
    ensures
        validated(site, sources) matches Some(report) ==> report.missing.len() <= report.checked,
    decreases sources.len(),
{
    if sources.len() > 0 {
        lemma_missing_links_are_checked(site, sources.drop_last());
        match source_references(sources.last()) {
            Some(references) => {
                lemma_missing_links_bounded(
                    site,
                    sources.last().path,
                    local_references(site, sources.last().path, references),
                );
            },
            None => {},
        }
    }
}

/// At most every reference is missing.
proof fn lemma_missing_links_bounded(
    site: SiteView,
    file: path::PathView,
    references: Seq<Seq<char>>,
)
    ensures
        missing_links(site, file, references).len() <= references.len(),
    decreases references.len(),
{
    if references.len() > 0 {
        lemma_missing_links_bounded(site, file, references.drop_last());
    }
}

/// A reference of a saved page that is a path, with ordinary names and nothing to decode, leads to the
/// file of that path, seen from the directory of the page or, with a slash in front, from the root of
/// the site.
pub proof fn law_paths_are_resolved(
    site: SiteView,
    page: path::PathView,
    names: Seq<Seq<char>>,
    href: Seq<char>,
)
    requires
        site.root.is_plain(),
        !page.absolute,
        page.parts.len() > 0,
        path::all_clean(page.parts),
        names.len() > 0,
        path::all_clean(names),
        ({
            let joined = text::join(names, "/"@);
            &&& href == joined || href == "/"@ + joined
            &&& text::trim(href) == href
            &&& !scan::is_skipped(href)
            &&& urls::url_parse(href) is Err
            &&& scan::bare_path(href) == href
            &&& scan::percent_decoded(href) == href
        }),
    ensures
        site.resolve(site.root.join(page), href) == Some(
            path::PathView {
                absolute: site.root.absolute,
                parts: site.root.parts + (if href[0] == '/' {
                    names
                } else {
                    page.parts.drop_last() + names
                }),
            },
        ),
{
    reveal_strlit("/");
    reveal_strlit(".");
    reveal_strlit("..");
    let joined = text::join(names, "/"@);
    assert("/"@ == seq!['/']);
    assert(path::is_clean(names[0]));
    text::lemma_join_first(names, "/"@);
    assert(joined[0] != '/') by {
        assert(names[0].contains(names[0][0]));
    }
    let file = site.root.join(page);
    assert(path::is_clean(page.parts[0]));
    assert(file.parts == site.root.parts + page.parts);
    assert(file.parts.drop_last() == site.root.parts + page.parts.drop_last());
    assert forall|i: int| 0 <= i < names.len() implies !(#[trigger] names[i]).contains('/') by {
        assert(path::is_clean(names[i]));
    }
    text::lemma_split_join(names, '/');
    lemma_clean_pieces(names, true);
    assert(path::parse_of(joined) == (path::PathView { absolute: false, parts: names }));
    if href[0] == '/' {
        assert(text::starts_with(href, "/"@)) by {
            assert(href.subrange(0, 1) == "/"@);
        }
        assert(href == "/"@ + joined);
        text::lemma_trim_start_by(href, text::is_char('/'), 1);
        assert(href.skip(1) == joined);
        let target = path::PathView {
            absolute: site.root.absolute,
            parts: site.root.parts + names,
        };
        assert(site.root.join(path::parse_of(joined)) == target);
        lemma_plain_parts(target.parts);
        assert(target.parts.take(site.root.parts.len() as int) == site.root.parts);
    } else {
        assert(!text::starts_with(href, "/"@)) by {
            if text::starts_with(href, "/"@) {
                assert(href.subrange(0, 1)[0] == "/"@[0]);
            }
        }
        assert(href == joined) by {
            if href != joined {
                assert(("/"@ + joined)[0] == '/');
            }
        }
        let directory = file.parent()->Some_0;
        let target = path::PathView {
            absolute: site.root.absolute,
            parts: site.root.parts + (page.parts.drop_last() + names),
        };
        assert(directory.join(path::parse_of(joined)).parts == target.parts);
        lemma_plain_parts(target.parts);
        assert(target.parts.take(site.root.parts.len() as int) == site.root.parts);
    }
}

/// Names that can stand between slashes are all kept.
proof fn lemma_clean_pieces(names: Seq<Seq<char>>, keep_dot: bool)
    requires
        path::all_clean(names),
    ensures
        path::clean_parts(names, keep_dot) == names,
    decreases names.len(),
{
    if names.len() > 0 {
        let rest = names.drop_first();
        assert(path::is_clean(names[0]));
        assert forall|i: int| 0 <= i < rest.len() implies path::is_clean(#[trigger] rest[i]) by {
            assert(path::is_clean(names[i + 1]));
        }
        lemma_clean_pieces(rest, false);
        assert(seq![names[0]] + rest == names);
    }
}

/// Ordinary names stay as they are.
proof fn lemma_plain_parts(parts: Seq<Seq<char>>)
    requires
        forall|i: int| 0 <= i < parts.len() ==> path::is_normal(#[trigger] parts[i]),
    ensures
        path::normal_parts(parts) == parts,
    decreases parts.len(),
{
    if parts.len() > 0 {
        let front = parts.drop_last();
        assert forall|i: int| 0 <= i < front.len() implies path::is_normal(#[trigger] front[i]) by {
            assert(path::is_normal(parts[i]));
        }
        lemma_plain_parts(front);
        assert(path::is_normal(parts[parts.len() - 1]));
        assert(front.push(parts.last()) == parts);
    }
}

/// References to other schemes, to places in the page itself and to whole URLs lead to no file of the
/// site, so that none of them is ever missing.
pub proof fn law_other_references_lead_to_no_file(
    site: SiteView,
    file: path::PathView,
    href: Seq<char>,
)
    requires
        ({
            let t = text::trim(href);
            ||| t.len() == 0
            ||| text::starts_with(t, "#"@)
            ||| text::starts_with(t, "//"@)
            ||| text::starts_with(t, "mailto:"@)
            ||| text::starts_with(t, "tel:"@)
            ||| text::starts_with(t, "javascript:"@)
            ||| text::starts_with(t, "data:"@)
            ||| text::starts_with(t, "blob:"@)
            ||| urls::url_parse(t) is Ok
        }),
    ensures
        site.resolve(file, href) is None,
        !site.lacks(file, href),
{
}

/// A text in scripts, lists and parameters counts as a reference by how it looks: without white space
/// and backslashes, not to be skipped and not for a program of the server, it starts like a path or a
/// URL or its file name has one of the extensions that references commonly have.
#[verifier::spinoff_prover]
#[verifier::rlimit(50)]
pub proof fn law_references_are_told_by_their_looks(
    s: Seq<char>,
    front: Seq<char>,
    stem: Seq<char>,
    extension: Seq<char>,
)
    requires
        s == front + stem + "."@ + extension,
        front.len() == 0 || front.last() == '/',
        !stem.contains('/'),
        !extension.contains('/'),
        !extension.contains('.'),
        !s.contains('?'),
        !s.contains('#'),
        !s.contains('\\'),
        forall|i: int| 0 <= i < s.len() ==> !text::is_white(#[trigger] s[i]),
    ensures
        ({
            let e = text::lower(extension);
            let common = {
                ||| e == "7z"@ || e == "avi"@ || e == "bmp"@ || e == "class"@ || e == "css"@
                ||| e == "exe"@ || e == "gif"@ || e == "gz"@ || e == "htm"@ || e == "html"@
                ||| e == "ico"@ || e == "jar"@ || e == "jpeg"@ || e == "jpg"@ || e == "js"@
                ||| e == "mid"@ || e == "midi"@ || e == "mov"@ || e == "mp3"@ || e == "mp4"@
                ||| e == "msi"@ || e == "pdf"@ || e == "png"@ || e == "rar"@ || e == "svg"@
                ||| e == "swf"@ || e == "tar"@ || e == "tgz"@ || e == "txt"@ || e == "wav"@
                ||| e == "webp"@ || e == "woff"@ || e == "woff2"@ || e == "zip"@
            };
            looks_like_reference(s) <==> {
                &&& !text::starts_with(s, "//"@) && !text::starts_with(s, "mailto:"@)
                &&& !text::starts_with(s, "tel:"@) && !text::starts_with(s, "javascript:"@)
                &&& !text::starts_with(s, "data:"@) && !text::starts_with(s, "blob:"@)
                &&& text::lower(s) != "/cgi-bin"@
                &&& !text::contains(text::lower(s), "/cgi-bin/"@)
                &&& text::starts_with(s, "/"@) || text::starts_with(s, "./"@) || text::starts_with(
                    s,
                    "../"@,
                ) || text::starts_with(s, "http://"@) || text::starts_with(s, "https://"@) || common
            }
        }),
{
    reveal_strlit(".");
    lemma_no_white_at_ends(s);
    scan::lemma_before_char(s, '#', Seq::empty());
    scan::lemma_before_char(s, '?', Seq::empty());
    scan::lemma_before_char(s, '\\', Seq::empty());
    assert(scan::bare_path(s) == s);
    reveal_strlit("#");
    if text::starts_with(s, "#"@) {
        assert(s.subrange(0, 1)[0] == '#');
        assert(s.contains(s[0]));
    }
    assert(!text::has_white(s));
    lemma_last_name(front, stem, extension);
    assert(has_common_extension(s) <==> common_extension(text::lower(extension)));
}

/// The file name of a path, and its extension.
proof fn lemma_last_name(front: Seq<char>, stem: Seq<char>, extension: Seq<char>)
    requires
        front.len() == 0 || front.last() == '/',
        !stem.contains('/'),
        !extension.contains('/'),
        !extension.contains('.'),
    ensures
        text::after_last_dot(last_piece(front + stem + "."@ + extension)) == Some(extension),
{
    reveal_strlit(".");
    let name = stem + "."@ + extension;
    let s = front + stem + "."@ + extension;
    pathmap::lemma_extension_is_read(stem, extension);
    assert(name.skip(stem.len() as int + 1) == extension);
    let f = front.len() as int;
    assert(s == front + name);
    text::lemma_rindex_of(s, '/', s.len() - 1);
    match text::rindex_of(s, '/', s.len() - 1) {
        Some(i) => {
            if i >= f {
                assert(name[i - f] == '/');
                if i - f < stem.len() {
                    assert(stem.contains(stem[i - f]));
                } else if i - f > stem.len() {
                    assert(extension.contains(extension[i - f - stem.len() - 1]));
                }
            }
            if f > 0 {
                assert(s[f - 1] == '/');
            }
            assert(i == f - 1);
            assert(s.skip(f) == name);
        },
        None => {
            if f > 0 {
                assert(s[f - 1] == '/');
            }
            assert(s == name);
        },
    }
    assert(last_piece(s) == name);
}

/// A text without white space is its own trimmed form.
proof fn lemma_no_white_at_ends(s: Seq<char>)
    requires
        forall|i: int| 0 <= i < s.len() ==> !text::is_white(#[trigger] s[i]),
    ensures
        text::trim(s) == s,
{
    text::lemma_trim_start_by(s, text::white(), 0);
    assert(s.skip(0) == s);
    text::lemma_trim_end_by(s, text::white(), s.len() as int);
    assert(s.take(s.len() as int) == s);
}

/// White space and backslashes make a text prose, and so does nothing at all.
pub proof fn law_prose_is_no_reference(s: Seq<char>, at: int)
    requires
        s.len() == 0 || (0 <= at < s.len() && (s[at] == '\\' || text::is_white(s[at]))),
    ensures
        !looks_like_reference(s),
{
    if s.len() > 0 {
        if s[at] == '\\' {
            text::lemma_index_of(s, '\\', 0);
        }
        if text::is_white(s[at]) {
            assert(text::has_white(s));
        }
    }
}

/// The value of a `url(` is what stands in its parentheses, without white space around it and without
/// its quotes, whether they are written as characters or as entities.
pub proof fn law_quotes_of_urls_are_left_out(value: Seq<char>, raw: Seq<char>)
    requires
        value.len() > 0,
        forall|i: int| 0 <= i < value.len() ==> !text::is_white(#[trigger] value[i]),
        value[0] != '\'',
        value[0] != '"',
        value[0] != '&',
        text::trim(raw) == value || text::trim(raw) == seq!['"'] + value + seq!['"'] || text::trim(raw)
            == seq!['\''] + value + seq!['\''] || text::trim(raw) == "&quot;"@ + value + "&quot;"@
            || text::trim(raw) == "&#39;"@ + value + "&#39;"@ || text::trim(raw) == "&#x27;"@ + value
            + "&#x27;"@,
    ensures
        css_url_value(raw) == value,
{
    let t = text::trim(raw);
    let n = t.len() as int;
    reveal_strlit("&quot;");
    reveal_strlit("&#39;");
    reveal_strlit("&#x27;");
    assert("&quot;"@[0] == '&' && "&quot;"@[1] == 'q' && "&quot;"@.len() == 6);
    assert("&#39;"@[0] == '&' && "&#39;"@[1] == '#' && "&#39;"@[2] == '3' && "&#39;"@.len() == 5);
    assert("&#x27;"@[0] == '&' && "&#x27;"@[1] == '#' && "&#x27;"@[2] == 'x' && "&#x27;"@.len()
        == 6);
    if t == value {
        if text::starts_with(t, "&quot;"@) {
            assert(t.subrange(0, 6)[0] == '&');
        }
        if text::starts_with(t, "&#39;"@) {
            assert(t.subrange(0, 5)[0] == '&');
        }
        if text::starts_with(t, "&#x27;"@) {
            assert(t.subrange(0, 6)[0] == '&');
        }
    } else if t == seq!['"'] + value + seq!['"'] || t == seq!['\''] + value + seq!['\''] {
        assert(t[n - 1] == t[0]);
        assert(t.subrange(1, n - 1) == value);
    } else if t == "&quot;"@ + value + "&quot;"@ {
        assert(t[0] == '&');
        assert(t.subrange(0, 6) == "&quot;"@);
        assert(t.subrange(n - 6, n) == "&quot;"@);
        assert(t.subrange(6, n - 6) == value);
    } else if t == "&#39;"@ + value + "&#39;"@ {
        assert(t[0] == '&' && t[1] == '#');
        if text::starts_with(t, "&quot;"@) {
            assert(t.subrange(0, 6)[1] == 'q');
        }
        assert(t.subrange(0, 5) == "&#39;"@);
        assert(t.subrange(n - 5, n) == "&#39;"@);
        assert(t.subrange(5, n - 5) == value);
    } else {
        assert(t[0] == '&' && t[1] == '#' && t[2] == 'x');
        if text::starts_with(t, "&quot;"@) {
            assert(t.subrange(0, 6)[1] == 'q');
        }
        if text::starts_with(t, "&#39;"@) {
            assert(t.subrange(0, 5)[2] == '3');
        }
        assert(t.subrange(0, 6) == "&#x27;"@);
        assert(t.subrange(n - 6, n) == "&#x27;"@);
        assert(t.subrange(6, n - 6) == value);
    }
}

/// Whether an image of a page shows nothing: it has no `src` and no `srcset`, or only blank ones. Its
/// description names the attributes by which it can be found.
pub open spec fn is_blank_image(n: html::NodeView, description: Seq<char>) -> bool {
    let blank = |name: Seq<char>|
        match html::attribute(n.attributes, name) {
            Some(v) => text::trim(v).len() == 0,
            None => true,
        };
    let told = |name: Seq<char>, start: Seq<char>|
        if blank(name) {
            Seq::<char>::empty()
        } else {
            start + debug_quoted(text::trim(html::attribute(n.attributes, name)->Some_0))
        };
    &&& n.kind == NodeKind::Element
    &&& n.tag == "img"@
    &&& blank("src"@)
    &&& blank("srcset"@)
    &&& description == "img"@ + told("id"@, " id="@) + told("name"@, " name="@) + told(
        "alt"@,
        " alt="@,
    ) + told("width"@, " width="@) + told("height"@, " height="@) + told("class"@, " class="@)
}

/// A validation reports exactly those images of a page that show nothing.
pub proof fn law_blank_images_are_reported(
    nodes: Seq<html::NodeView>,
    description: Seq<char>,
)
    ensures
        sourceless_images(nodes).contains(description) <==> exists|i: int|
            0 <= i < nodes.len() && is_blank_image(#[trigger] nodes[i], description),
    decreases nodes.len(),
{
    if nodes.len() > 0 {
        let front = nodes.drop_last();
        law_blank_images_are_reported(front, description);
        let rest = sourceless_images(front);
        let all = sourceless_images(nodes);
        let last = nodes.last();
        let end = nodes.len() - 1;
        assert(nodes[end] == last);
        lemma_image_descriptions(last);
        assert(is_blank_image(last, description) <==> lacks_source(last) && description
            == image_description(last));
        if rest.contains(description) {
            let k = choose|k: int| 0 <= k < rest.len() && rest[k] == description;
            assert(all[k] == description);
            let i = choose|i: int|
                0 <= i < front.len() && is_blank_image(#[trigger] front[i], description);
            assert(is_blank_image(nodes[i], description));
        }
        if is_blank_image(last, description) {
            assert(all[all.len() - 1] == description);
            assert(is_blank_image(nodes[end], description));
        }
        if all.contains(description) {
            let k = choose|k: int| 0 <= k < all.len() && all[k] == description;
            if k < rest.len() {
                assert(rest[k] == description);
            }
        }
        if exists|i: int| 0 <= i < nodes.len() && is_blank_image(#[trigger] nodes[i], description) {
            let i = choose|i: int|
                0 <= i < nodes.len() && is_blank_image(#[trigger] nodes[i], description);
            if i < front.len() {
                assert(is_blank_image(front[i], description));
            }
        }
    }
}

/// How an attribute of an image starts in its description.
proof fn lemma_image_descriptions(n: html::NodeView)
    ensures
        " "@ + "id"@ + "="@ == " id="@,
        " "@ + "name"@ + "="@ == " name="@,
        " "@ + "alt"@ + "="@ == " alt="@,
        " "@ + "width"@ + "="@ == " width="@,
        " "@ + "height"@ + "="@ == " height="@,
        " "@ + "class"@ + "="@ == " class="@,
{
    reveal_strlit(" ");
    reveal_strlit("=");
    reveal_strlit("id");
    reveal_strlit("name");
    reveal_strlit("alt");
    reveal_strlit("width");
    reveal_strlit("height");
    reveal_strlit("class");
    reveal_strlit(" id=");
    reveal_strlit(" name=");
    reveal_strlit(" alt=");
    reveal_strlit(" width=");
    reveal_strlit(" height=");
    reveal_strlit(" class=");
    assert(" "@ + "id"@ + "="@ == " id="@);
    assert(" "@ + "name"@ + "="@ == " name="@);
    assert(" "@ + "alt"@ + "="@ == " alt="@);
    assert(" "@ + "width"@ + "="@ == " width="@);
    assert(" "@ + "height"@ + "="@ == " height="@);
    assert(" "@ + "class"@ + "="@ == " class="@);
}

/// Whether an attribute of an element names a file that a browser loads with the page.
pub open spec fn loads_resource(n: html::NodeView, name: Seq<char>) -> bool {
    {
        ||| n.tag == "audio"@ && name == "src"@
        ||| n.tag == "embed"@ && name == "src"@
        ||| n.tag == "form"@ && name == "action"@
        ||| n.tag == "frame"@ && name == "src"@
        ||| n.tag == "iframe"@ && name == "src"@
        ||| n.tag == "img"@ && name == "src"@
        ||| n.tag == "input"@ && name == "src"@
        ||| n.tag == "link"@ && name == "href"@
        ||| n.tag == "object"@ && name == "data"@
        ||| n.tag == "script"@ && name == "src"@
        ||| n.tag == "source"@ && name == "src"@
        ||| n.tag == "track"@ && name == "src"@
        ||| n.tag == "video"@ && name == "poster"@
        ||| n.tag == "video"@ && name == "src"@
        ||| name == "background"@
    }
}

/// The attributes that are taken away from a page are exactly those that name a file to be loaded with
/// it and lead to nothing. Links that a reader follows are not among them.
#[verifier::spinoff_prover]
#[verifier::rlimit(50)]
pub proof fn law_missing_resources_are_removed(
    site: SiteView,
    file: path::PathView,
    nodes: Seq<html::NodeView>,
    name: Seq<char>,
    at: usize,
)
    ensures
        resource_removals(site, file, nodes).contains(
            (
                html::EditView {
                    kind: EditKind::RemoveAttribute,
                    at,
                    name,
                    value: Seq::empty(),
                },
                1nat,
            ),
        ) <==> exists|i: int|
            0 <= i < nodes.len() && (#[trigger] nodes[i]).kind == NodeKind::Element && nodes[i].at
                == at && loads_resource(nodes[i], name) && (html::attribute(
                nodes[i].attributes,
                name,
            ) matches Some(v) && site.lacks(file, v)),
    decreases nodes.len(),
{
    let removal = (
        html::EditView { kind: EditKind::RemoveAttribute, at, name, value: Seq::<char>::empty() },
        1nat,
    );
    if nodes.len() > 0 {
        let front = nodes.drop_last();
        law_missing_resources_are_removed(site, file, front, name, at);
        let last = nodes.last();
        let end = nodes.len() - 1;
        assert(nodes[end] == last);
        lemma_in_either(
            resource_removals(site, file, front),
            node_removals(site, file, last),
            removal,
        );
        lemma_removed_resource(site, file, last, name, at);
        if resource_removals(site, file, front).contains(removal) {
            let i = choose|i: int|
                0 <= i < front.len() && (#[trigger] front[i]).kind == NodeKind::Element
                    && front[i].at == at && loads_resource(front[i], name) && (html::attribute(
                    front[i].attributes,
                    name,
                ) matches Some(v) && site.lacks(file, v));
            assert(nodes[i] == front[i]);
        }
        if exists|i: int|
            0 <= i < nodes.len() && (#[trigger] nodes[i]).kind == NodeKind::Element && nodes[i].at
                == at && loads_resource(nodes[i], name) && (html::attribute(
                nodes[i].attributes,
                name,
            ) matches Some(v) && site.lacks(file, v)) {
            let i = choose|i: int|
                0 <= i < nodes.len() && (#[trigger] nodes[i]).kind == NodeKind::Element
                    && nodes[i].at == at && loads_resource(nodes[i], name) && (html::attribute(
                    nodes[i].attributes,
                    name,
                ) matches Some(v) && site.lacks(file, v));
            if i < end {
                assert(front[i] == nodes[i]);
            }
        }
    }
}

/// The attributes that are taken away from a node.
#[verifier::spinoff_prover]
#[verifier::rlimit(50)]
proof fn lemma_removed_resource(
    site: SiteView,
    file: path::PathView,
    n: html::NodeView,
    name: Seq<char>,
    at: usize,
)
    ensures
        node_removals(site, file, n).contains(
            (
                html::EditView {
                    kind: EditKind::RemoveAttribute,
                    at,
                    name,
                    value: Seq::empty(),
                },
                1nat,
            ),
        ) <==> n.kind == NodeKind::Element && n.at == at && loads_resource(n, name) && (
        html::attribute(n.attributes, name) matches Some(v) && site.lacks(file, v)),
{
    let removal = (
        html::EditView { kind: EditKind::RemoveAttribute, at, name, value: Seq::<char>::empty() },
        1nat,
    );
    if n.kind == NodeKind::Element {
        let e0 = Seq::<(html::EditView, nat)>::empty();
        let t1 = tagged_removal(site, file, n, "audio"@, "src"@);
        let e1 = e0 + t1;
        lemma_in_either(e0, t1, removal);
        lemma_tagged_removal(site, file, n, "audio"@, "src"@, name, at);
        let t2 = tagged_removal(site, file, n, "embed"@, "src"@);
        let e2 = e1 + t2;
        lemma_in_either(e1, t2, removal);
        lemma_tagged_removal(site, file, n, "embed"@, "src"@, name, at);
        let t3 = tagged_removal(site, file, n, "form"@, "action"@);
        let e3 = e2 + t3;
        lemma_in_either(e2, t3, removal);
        lemma_tagged_removal(site, file, n, "form"@, "action"@, name, at);
        let t4 = tagged_removal(site, file, n, "frame"@, "src"@);
        let e4 = e3 + t4;
        lemma_in_either(e3, t4, removal);
        lemma_tagged_removal(site, file, n, "frame"@, "src"@, name, at);
        let t5 = tagged_removal(site, file, n, "iframe"@, "src"@);
        let e5 = e4 + t5;
        lemma_in_either(e4, t5, removal);
        lemma_tagged_removal(site, file, n, "iframe"@, "src"@, name, at);
        let t6 = tagged_removal(site, file, n, "img"@, "src"@);
        let e6 = e5 + t6;
        lemma_in_either(e5, t6, removal);
        lemma_tagged_removal(site, file, n, "img"@, "src"@, name, at);
        let t7 = tagged_removal(site, file, n, "input"@, "src"@);
        let e7 = e6 + t7;
        lemma_in_either(e6, t7, removal);
        lemma_tagged_removal(site, file, n, "input"@, "src"@, name, at);
        let t8 = tagged_removal(site, file, n, "link"@, "href"@);
        let e8 = e7 + t8;
        lemma_in_either(e7, t8, removal);
        lemma_tagged_removal(site, file, n, "link"@, "href"@, name, at);
        let t9 = tagged_removal(site, file, n, "object"@, "data"@);
        let e9 = e8 + t9;
        lemma_in_either(e8, t9, removal);
        lemma_tagged_removal(site, file, n, "object"@, "data"@, name, at);
        let t10 = tagged_removal(site, file, n, "script"@, "src"@);
        let e10 = e9 + t10;
        lemma_in_either(e9, t10, removal);
        lemma_tagged_removal(site, file, n, "script"@, "src"@, name, at);
        let t11 = tagged_removal(site, file, n, "source"@, "src"@);
        let e11 = e10 + t11;
        lemma_in_either(e10, t11, removal);
        lemma_tagged_removal(site, file, n, "source"@, "src"@, name, at);
        let t12 = tagged_removal(site, file, n, "track"@, "src"@);
        let e12 = e11 + t12;
        lemma_in_either(e11, t12, removal);
        lemma_tagged_removal(site, file, n, "track"@, "src"@, name, at);
        let t13 = tagged_removal(site, file, n, "video"@, "poster"@);
        let e13 = e12 + t13;
        lemma_in_either(e12, t13, removal);
        lemma_tagged_removal(site, file, n, "video"@, "poster"@, name, at);
        let t14 = tagged_removal(site, file, n, "video"@, "src"@);
        let e14 = e13 + t14;
        lemma_in_either(e13, t14, removal);
        lemma_tagged_removal(site, file, n, "video"@, "src"@, name, at);
        let t15 = plain_removal(site, file, n, "background"@);
        let e15 = e14 + t15;
        lemma_in_either(e14, t15, removal);
        lemma_plain_removal(site, file, n, "background"@, removal);
        let t16 = script_removal(site, file, n, "onclick"@);
        let e16 = e15 + t16;
        lemma_in_either(e15, t16, removal);
        lemma_no_script_removal(site, file, n, "onclick"@, removal);
        let t17 = script_removal(site, file, n, "onload"@);
        let e17 = e16 + t17;
        lemma_in_either(e16, t17, removal);
        lemma_no_script_removal(site, file, n, "onload"@, removal);
        let t18 = script_removal(site, file, n, "onmousedown"@);
        let e18 = e17 + t18;
        lemma_in_either(e17, t18, removal);
        lemma_no_script_removal(site, file, n, "onmousedown"@, removal);
        let t19 = script_removal(site, file, n, "onmouseout"@);
        let e19 = e18 + t19;
        lemma_in_either(e18, t19, removal);
        lemma_no_script_removal(site, file, n, "onmouseout"@, removal);
        let t20 = script_removal(site, file, n, "onmouseover"@);
        let e20 = e19 + t20;
        lemma_in_either(e19, t20, removal);
        lemma_no_script_removal(site, file, n, "onmouseover"@, removal);
        let t21 = script_removal(site, file, n, "onmouseup"@);
        let e21 = e20 + t21;
        lemma_in_either(e20, t21, removal);
        lemma_no_script_removal(site, file, n, "onmouseup"@, removal);
        let t22 = style_removal(site, file, n);
        let e22 = e21 + t22;
        lemma_in_either(e21, t22, removal);
        lemma_no_style_removal(site, file, n, removal);
        assert(element_removals(site, file, n) == e22);
    }
}

/// An attribute of an element with a name is taken away where it leads to nothing.
proof fn lemma_tagged_removal(
    site: SiteView,
    file: path::PathView,
    n: html::NodeView,
    tag: Seq<char>,
    attribute: Seq<char>,
    name: Seq<char>,
    at: usize,
)
    ensures
        tagged_removal(site, file, n, tag, attribute).contains(
            (
                html::EditView {
                    kind: EditKind::RemoveAttribute,
                    at,
                    name,
                    value: Seq::empty(),
                },
                1nat,
            ),
        ) <==> n.tag == tag && name == attribute && n.at == at && (html::attribute(
            n.attributes,
            name,
        ) matches Some(v) && site.lacks(file, v)),
{
    lemma_plain_removal(
        site,
        file,
        n,
        attribute,
        (
            html::EditView {
                kind: EditKind::RemoveAttribute,
                at,
                name,
                value: Seq::<char>::empty(),
            },
            1nat,
        ),
    );
}

/// What is taken out of the script of an attribute leaves the attribute.
proof fn lemma_no_script_removal(
    site: SiteView,
    file: path::PathView,
    n: html::NodeView,
    name: Seq<char>,
    removal: (html::EditView, nat),
)
    requires
        removal.0.kind == EditKind::RemoveAttribute,
    ensures
        !script_removal(site, file, n, name).contains(removal),
{
}

/// What is taken out of a style attribute leaves the attribute.
proof fn lemma_no_style_removal(
    site: SiteView,
    file: path::PathView,
    n: html::NodeView,
    removal: (html::EditView, nat),
)
    requires
        removal.0.kind == EditKind::RemoveAttribute,
    ensures
        !style_removal(site, file, n).contains(removal),
{
}

/// An attribute that leads to nothing is taken away, and no other.
proof fn lemma_plain_removal(
    site: SiteView,
    file: path::PathView,
    n: html::NodeView,
    name: Seq<char>,
    removal: (html::EditView, nat),
)
    ensures
        plain_removal(site, file, n, name).contains(removal) <==> (html::attribute(
            n.attributes,
            name,
        ) matches Some(v) && site.lacks(file, v)) && removal == attribute_removal(n, name),
{
    let all = plain_removal(site, file, n, name);
    if (html::attribute(n.attributes, name) matches Some(v) && site.lacks(file, v)) {
        assert(all[0] == attribute_removal(n, name));
    }
}

/// A script, a style attribute and a style sheet of which every reference leads somewhere stay as they
/// are, and nothing is taken out of them.
pub proof fn law_working_references_are_left_alone(site: SiteView, file: path::PathView, s: Seq<char>)
    ensures
        (forall|i: int|
            0 <= i < scan::pieces(s, scan::string_spans(s, 0)).len() ==> !site.lacks(
                file,
                #[trigger] scan::pieces(s, scan::string_spans(s, 0))[i],
            )) ==> script_without_missing(site, file, s) == s && replaced(
            script_removals(site, file, s),
        ) == 0,
        (forall|i: int|
            0 <= i < style_references(s).len() ==> !site.lacks(
                file,
                #[trigger] style_references(s)[i],
            )) ==> style_without_missing(site, file, s) == s && replaced(
            style_replacements(site, file, s),
        ) == 0,
        (forall|i: int|
            0 <= i < css_refs::css_references(s).len() ==> !site.lacks(
                file,
                (#[trigger] css_refs::css_references(s)[i]).value,
            )) ==> replaced(sheet_removals(site, file, s)) == 0,
{
    let strings = scan::string_spans(s, 0);
    scan::lemma_string_spans(s, 0);
    if forall|i: int|
        0 <= i < scan::pieces(s, strings).len() ==> !site.lacks(
            file,
            #[trigger] scan::pieces(s, strings)[i],
        ) {
        let none = script_removals(site, file, s);
        assert forall|i: int| 0 <= i < none.len() implies (#[trigger] none[i]) is None by {
            assert(!site.lacks(file, scan::pieces(s, strings)[i]));
        }
        lemma_none_replaced(none);
        scan::law_splicing_nothing_changes_nothing(s, strings, none);
    }
    let spans = scan::url_spans(s, text::lower(s), 0);
    scan::lemma_url_spans(s, text::lower(s), 0);
    if forall|i: int|
        0 <= i < style_references(s).len() ==> !site.lacks(file, #[trigger] style_references(s)[i]) {
        let none = style_replacements(site, file, s);
        assert forall|i: int| 0 <= i < none.len() implies (#[trigger] none[i]) is None by {
            assert(!site.lacks(file, style_references(s)[i]));
        }
        lemma_none_replaced(none);
        scan::law_splicing_nothing_changes_nothing(s, spans, none);
    }
    let refs = css_refs::css_references(s);
    if forall|i: int|
        0 <= i < refs.len() ==> !site.lacks(file, (#[trigger] refs[i]).value) {
        let none = sheet_removals(site, file, s);
        assert forall|i: int| 0 <= i < none.len() implies (#[trigger] none[i]) is None by {
            assert(!site.lacks(file, refs[i].value));
        }
        lemma_none_replaced(none);
    }
}

/// Without replacements nothing is replaced.
proof fn lemma_none_replaced(replacements: Seq<Option<Seq<char>>>)
    requires
        forall|i: int| 0 <= i < replacements.len() ==> (#[trigger] replacements[i]) is None,
    ensures
        replaced(replacements) == 0,
    decreases replacements.len(),
{
    if replacements.len() > 0 {
        let front = replacements.drop_last();
        assert forall|i: int| 0 <= i < front.len() implies (#[trigger] front[i]) is None by {
            assert(front[i] == replacements[i]);
        }
        lemma_none_replaced(front);
        assert(replacements[replacements.len() - 1] is None);
    }
}

/// Only the strings of a script that look like a reference and lead to nothing are emptied, and only
/// the URLs of a style that lead to nothing; each is counted.
pub proof fn law_only_dead_references_are_emptied(
    site: SiteView,
    file: path::PathView,
    s: Seq<char>,
    i: int,
)
    ensures
        0 <= i < scan::pieces(s, scan::string_spans(s, 0)).len() ==> {
            let value = scan::pieces(s, scan::string_spans(s, 0))[i];
            script_removals(site, file, s)[i] == if looks_like_reference(value) && site.lacks(
                file,
                value,
            ) {
                Some(Seq::<char>::empty())
            } else {
                None
            }
        },
        0 <= i < style_references(s).len() ==> style_replacements(site, file, s)[i]
            == if site.lacks(file, style_references(s)[i]) {
            Some(seq!['"', '"'])
        } else {
            None
        },
        0 <= i < css_refs::css_references(s).len() ==> {
            let reference = css_refs::css_references(s)[i];
            sheet_removals(site, file, s)[i] == if site.lacks(file, reference.value) {
                Some(
                    if reference.quote is Some {
                        "\"\""@
                    } else {
                        "url(\"\")"@
                    },
                )
            } else {
                None
            }
        },
{
    reveal_strlit("");
    reveal_strlit("\"\"");
    assert(""@ == Seq::<char>::empty());
    assert("\"\""@ == seq!['"', '"']);
}

/// The scripts of six events lose what leads to nothing, and so do style attributes, scripts and style
/// sheets in a page.
pub proof fn law_scripts_and_styles_lose_dead_references(
    site: SiteView,
    file: path::PathView,
    nodes: Seq<html::NodeView>,
    i: int,
    name: Seq<char>,
    v: Seq<char>,
)
    requires
        0 <= i < nodes.len(),
    ensures
        nodes[i].kind == NodeKind::Element && html::attribute(nodes[i].attributes, name) == Some(v)
            && (name == "onclick"@ || name == "onload"@ || name == "onmousedown"@ || name == "onmouseout"@ || name == "onmouseover"@ || name == "onmouseup"@) && replaced(script_removals(site, file, v)) > 0
            ==> resource_removals(site, file, nodes).contains(
            (
                html::EditView {
                    kind: EditKind::SetAttribute,
                    at: nodes[i].at,
                    name,
                    value: script_without_missing(site, file, v),
                },
                replaced(script_removals(site, file, v)),
            ),
        ),
        nodes[i].kind == NodeKind::Element && html::attribute(nodes[i].attributes, "style"@) == Some(
            v,
        ) && replaced(style_replacements(site, file, v)) > 0 ==> resource_removals(
            site,
            file,
            nodes,
        ).contains(
            (
                html::EditView {
                    kind: EditKind::SetAttribute,
                    at: nodes[i].at,
                    name: "style"@,
                    value: style_without_missing(site, file, v),
                },
                replaced(style_replacements(site, file, v)),
            ),
        ),
        nodes[i].kind == NodeKind::StyleText && replaced(sheet_removals(site, file, nodes[i].text))
            > 0 ==> resource_removals(site, file, nodes).contains(
            (
                html::EditView {
                    kind: EditKind::ReplaceText,
                    at: nodes[i].at,
                    name: Seq::empty(),
                    value: sheet_without_missing(site, file, nodes[i].text),
                },
                replaced(sheet_removals(site, file, nodes[i].text)),
            ),
        ),
        nodes[i].kind == NodeKind::ScriptText && replaced(script_removals(site, file, nodes[i].text))
            > 0 ==> resource_removals(site, file, nodes).contains(
            (
                html::EditView {
                    kind: EditKind::ReplaceText,
                    at: nodes[i].at,
                    name: Seq::empty(),
                    value: script_without_missing(site, file, nodes[i].text),
                },
                replaced(script_removals(site, file, nodes[i].text)),
            ),
        ),
{
    let n = nodes[i];
    if n.kind == NodeKind::Element && html::attribute(n.attributes, name) == Some(v) {
        lemma_script_removals_count(site, file, n, name, v);
    }
    if n.kind == NodeKind::Element && html::attribute(n.attributes, "style"@) == Some(v) {
        lemma_style_removals_count(site, file, n, v);
    }
    assert forall|removal: (html::EditView, nat)| #[trigger]
        node_removals(site, file, n).contains(removal) implies resource_removals(
        site,
        file,
        nodes,
    ).contains(removal) by {
        lemma_removals_of_nodes(site, file, nodes, i, removal);
    }
    if n.kind == NodeKind::StyleText && replaced(sheet_removals(site, file, n.text)) > 0 {
        let all = node_removals(site, file, n);
        assert(all.contains(all[0]));
    }
    if n.kind == NodeKind::ScriptText && replaced(script_removals(site, file, n.text)) > 0 {
        let all = node_removals(site, file, n);
        assert(all.contains(all[0]));
    }
}

/// What is taken out of a node is taken out of the page.
#[verifier::spinoff_prover]
#[verifier::rlimit(50)]
proof fn lemma_removals_of_nodes(
    site: SiteView,
    file: path::PathView,
    nodes: Seq<html::NodeView>,
    i: int,
    removal: (html::EditView, nat),
)
    requires
        0 <= i < nodes.len(),
        node_removals(site, file, nodes[i]).contains(removal),
    ensures
        resource_removals(site, file, nodes).contains(removal),
    decreases nodes.len(),
{
    let front = nodes.drop_last();
    lemma_in_either(
        resource_removals(site, file, front),
        node_removals(site, file, nodes.last()),
        removal,
    );
    if i < front.len() {
        assert(front[i] == nodes[i]);
        lemma_removals_of_nodes(site, file, front, i, removal);
    }
}

/// What is taken out of the script of an event counts.
proof fn lemma_script_removals_count(
    site: SiteView,
    file: path::PathView,
    n: html::NodeView,
    name: Seq<char>,
    v: Seq<char>,
)
    requires
        n.kind == NodeKind::Element,
        html::attribute(n.attributes, name) == Some(v),
    ensures
        (name == "onclick"@ || name == "onload"@ || name == "onmousedown"@ || name == "onmouseout"@ || name == "onmouseover"@ || name == "onmouseup"@) && replaced(script_removals(site, file, v)) > 0
            ==> node_removals(site, file, n).contains(
            (
                html::EditView {
                    kind: EditKind::SetAttribute,
                    at: n.at,
                    name,
                    value: script_without_missing(site, file, v),
                },
                replaced(script_removals(site, file, v)),
            ),
        ),
{
    let removed = replaced(script_removals(site, file, v));
    if (name == "onclick"@ || name == "onload"@ || name == "onmousedown"@ || name == "onmouseout"@ || name == "onmouseover"@ || name == "onmouseup"@) && removed > 0 {
        let removal = (
            html::EditView {
                kind: EditKind::SetAttribute,
                at: n.at,
                name,
                value: script_without_missing(site, file, v),
            },
            removed,
        );
        let own = script_removal(site, file, n, name);
        assert(own[0] == removal);
        assert(own.contains(removal));
        let all = element_removals(site, file, n);
        let last = style_removal(site, file, n);
        let e7 = script_removal(site, file, n, "onmouseup"@);
        let e6 = script_removal(site, file, n, "onmouseover"@);
        let e5 = script_removal(site, file, n, "onmouseout"@);
        let e4 = script_removal(site, file, n, "onmousedown"@);
        let e3 = script_removal(site, file, n, "onload"@);
        let e2 = script_removal(site, file, n, "onclick"@);
        let front = tagged_removals(site, file, n);
        assert(all == front + e2 + e3 + e4 + e5 + e6 + e7 + last);
        lemma_in_either(front, e2, removal);
        lemma_in_either(front + e2, e3, removal);
        lemma_in_either(front + e2 + e3, e4, removal);
        lemma_in_either(front + e2 + e3 + e4, e5, removal);
        lemma_in_either(front + e2 + e3 + e4 + e5, e6, removal);
        lemma_in_either(front + e2 + e3 + e4 + e5 + e6, e7, removal);
        lemma_in_either(front + e2 + e3 + e4 + e5 + e6 + e7, last, removal);
    }
}

/// What is taken out of a style attribute counts.
proof fn lemma_style_removals_count(
    site: SiteView,
    file: path::PathView,
    n: html::NodeView,
    v: Seq<char>,
)
    requires
        n.kind == NodeKind::Element,
        html::attribute(n.attributes, "style"@) == Some(v),
    ensures
        replaced(style_replacements(site, file, v)) > 0 ==> node_removals(site, file, n).contains(
            (
                html::EditView {
                    kind: EditKind::SetAttribute,
                    at: n.at,
                    name: "style"@,
                    value: style_without_missing(site, file, v),
                },
                replaced(style_replacements(site, file, v)),
            ),
        ),
{
    if replaced(style_replacements(site, file, v)) > 0 {
        let own = style_removal(site, file, n);
        let all = element_removals(site, file, n);
        assert(own.contains(own[0]));
        assert(all.last() == own[0]);
        assert(all.contains(all.last()));
    }
}

/// What is taken away from an element whole.
spec fn tagged_removals(site: SiteView, file: path::PathView, n: html::NodeView) -> Seq<
    (html::EditView, nat),
> {
    Seq::empty()
        + tagged_removal(site, file, n, "audio"@, "src"@)
        + tagged_removal(site, file, n, "embed"@, "src"@)
        + tagged_removal(site, file, n, "form"@, "action"@)
        + tagged_removal(site, file, n, "frame"@, "src"@)
        + tagged_removal(site, file, n, "iframe"@, "src"@)
        + tagged_removal(site, file, n, "img"@, "src"@)
        + tagged_removal(site, file, n, "input"@, "src"@)
        + tagged_removal(site, file, n, "link"@, "href"@)
        + tagged_removal(site, file, n, "object"@, "data"@)
        + tagged_removal(site, file, n, "script"@, "src"@)
        + tagged_removal(site, file, n, "source"@, "src"@)
        + tagged_removal(site, file, n, "track"@, "src"@)
        + tagged_removal(site, file, n, "video"@, "poster"@)
        + tagged_removal(site, file, n, "video"@, "src"@)
        + plain_removal(site, file, n, "background"@)
}

/// A static host finds a path where a file lies there, or a directory with an `index.html` or an
/// `index.htm` in it.
pub proof fn law_directories_are_served_by_their_index(
    site: SiteView,
    target: path::PathView,
)
    requires
        target.parts.len() > 0,
    ensures
        site.serves(target) <==> site.files.contains(target.text()) || site.files.contains(
            (path::PathView { absolute: target.absolute, parts: target.parts.push("index.html"@) }).text(),
        ) || site.files.contains(
            (path::PathView { absolute: target.absolute, parts: target.parts.push("index.htm"@) }).text(),
        ),
{
    lemma_index_names();
    assert(target.parts + seq!["index.html"@] == target.parts.push("index.html"@));
    assert(target.parts + seq!["index.htm"@] == target.parts.push("index.htm"@));
}

/// The names of index pages are paths of one name.
proof fn lemma_index_names()
    ensures
        path::parse_of("index.html"@) == (path::PathView {
            absolute: false,
            parts: seq!["index.html"@],
        }),
        path::parse_of("index.htm"@) == (path::PathView {
            absolute: false,
            parts: seq!["index.htm"@],
        }),
        "index.html"@ != "."@,
        "index.htm"@ != "."@,
{
    reveal_strlit("index.html");
    reveal_strlit("index.htm");
    reveal_strlit(".");
    assert("index.html"@.len() == 10 && "index.htm"@.len() == 9 && "."@.len() == 1);
    let a = "index.html"@;
    let b = "index.htm"@;
    assert(a[0] == 'i' && b[0] == 'i');
    assert(!a.contains('/') && !b.contains('/'));
    lemma_single_name(a);
    lemma_single_name(b);
}

/// A name is the path of that name.
proof fn lemma_single_name(a: Seq<char>)
    requires
        a.len() > 1,
        a[0] != '/',
        !a.contains('/'),
    ensures
        path::parse_of(a) == (path::PathView { absolute: false, parts: seq![a] }),
{
    reveal_strlit(".");
    assert("."@.len() == 1);
    text::lemma_split_plain(a, '/');
    let pieces = seq![a];
    assert(pieces.drop_first() == Seq::<Seq<char>>::empty());
    assert(path::clean_parts(Seq::<Seq<char>>::empty(), false) == Seq::<Seq<char>>::empty());
    assert(path::clean_parts(pieces, true) == seq![a] + Seq::<Seq<char>>::empty());
    assert(seq![a] + Seq::<Seq<char>>::empty() == seq![a]);
}

/// The pages among files that are of no use are those with the extension of HTML files, in whatever
/// case, whose text is of none.
pub proof fn law_unusable_pages_are_listed(sources: Seq<SourceView>, source: SourceView)
    ensures
        unusable_pages(Seq::empty()) == Seq::<path::PathView>::empty(),
        unusable_pages(sources.push(source)) == if (source.path.extension() matches Some(e) && (
        text::lower(e) == "html"@ || text::lower(e) == "htm"@ || text::lower(e) == "xhtml"@))
            && soft_redirect::unusable(source.text) {
            unusable_pages(sources).push(source.path)
        } else {
            unusable_pages(sources)
        },
{
    lemma_extensions_in_lower_case();
    assert(sources.push(source).drop_last() == sources);
}

/// Of the files of a site the pages are scanned and, where that is asked for, the style sheets.
pub proof fn law_pages_and_style_sheets_are_scanned(
    paths: Seq<path::PathView>,
    p: path::PathView,
    styles: bool,
)
    ensures
        scanned_paths(Seq::empty(), styles) == Seq::<path::PathView>::empty(),
        scanned_paths(paths.push(p), styles) == if p.extension() matches Some(e) && (text::lower(e)
            == "html"@ || text::lower(e) == "htm"@ || text::lower(e) == "xhtml"@ || (styles
            && text::lower(e) == "css"@)) {
            scanned_paths(paths, styles).push(p)
        } else {
            scanned_paths(paths, styles)
        },
{
    lemma_extensions_in_lower_case();
    assert(paths.push(p).drop_last() == paths);
}

/// The extensions of pages and style sheets are written in lower case.
proof fn lemma_extensions_in_lower_case()
    ensures
        text::lower("html"@) == "html"@,
        text::lower("htm"@) == "htm"@,
        text::lower("xhtml"@) == "xhtml"@,
        text::lower("css"@) == "css"@,
{
    reveal_strlit("html");
    reveal_strlit("htm");
    reveal_strlit("xhtml");
    reveal_strlit("css");
    assert(text::lower("html"@) == "html"@);
    assert(text::lower("htm"@) == "htm"@);
    assert(text::lower("xhtml"@) == "xhtml"@);
    assert(text::lower("css"@) == "css"@);
}

/// Each reference of a file that leads into the site is looked up once, however often it stands there,
/// and each lookup is counted.
pub proof fn law_references_are_looked_up_once(
    site: SiteView,
    sources: Seq<SourceView>,
    source: SourceView,
    references: Seq<Seq<char>>,
)
    requires
        validated(site, sources) is Some,
        source_references(source) == Some(references),
    ensures
        ({
            let local = local_references(site, source.path, references);
            &&& local.no_duplicates()
            &&& forall|x: Seq<char>| #[trigger]
                local.contains(x) <==> references.contains(x) && site.resolve(source.path, x) is Some
            &&& validated(site, sources.push(source)) matches Some(report) && report.checked
                == validated(site, sources)->Some_0.checked + local.len()
        }),
{
    let local = local_references(site, source.path, references);
    lemma_local_references_once(site, source.path, references);
    assert forall|x: Seq<char>| #[trigger]
        local.contains(x) <==> references.contains(x) && site.resolve(source.path, x) is Some by {
        lemma_local_references(site, source.path, references, x);
    }
    assert(sources.push(source).drop_last() == sources);
}

/// No local reference is listed twice.
proof fn lemma_local_references_once(
    site: SiteView,
    file: path::PathView,
    references: Seq<Seq<char>>,
)
    ensures
        local_references(site, file, references).no_duplicates(),
    decreases references.len(),
{
    if references.len() > 0 {
        let front = references.drop_last();
        lemma_local_references_once(site, file, front);
        lemma_local_references(site, file, front, references.last());
        let before = local_references(site, file, front);
        let after = local_references(site, file, references);
        if after != before {
            assert forall|i: int, j: int|
                0 <= i < after.len() && 0 <= j < after.len() && i != j implies after[i]
                != after[j] by {
                if i < before.len() {
                    assert(before.contains(before[i]));
                }
                if j < before.len() {
                    assert(before.contains(before[j]));
                }
            }
        }
    }
}

/// A refresh in the head of a page refers to its target, an image to the candidates of its `srcset`,
/// and an applet to its archives where they look like references.
#[verifier::spinoff_prover]
#[verifier::rlimit(50)]
pub proof fn law_refreshes_candidates_and_archives_refer(
    nodes: Seq<html::NodeView>,
    i: int,
    v: Seq<char>,
    x: Seq<char>,
)
    requires
        0 <= i < nodes.len(),
        nodes[i].kind == NodeKind::Element,
        ({
            let n = nodes[i];
            ||| html::attribute(n.attributes, "srcset"@) == Some(v) && scan::srcset_of(
                text::split(v, ','),
            ).contains(x)
            ||| n.tag == "meta"@ && html::attribute(n.attributes, "content"@) == Some(v) && (
            html::attribute(n.attributes, "http-equiv"@) matches Some(h) && text::lower(text::trim(h))
                == "refresh"@) && (scan::refresh_span(v) matches Some(span) && x == v.subrange(
                span.0,
                span.1,
            ))
            ||| n.tag == "applet"@ && html::attribute(n.attributes, "archive"@) == Some(v)
                && looks_like_reference(x) && exists|k: int|
                0 <= k < text::split(v, ',').len() && x == text::trim(#[trigger] text::split(v, ',')[k])
        }),
    ensures
        all_references(nodes).contains(x),
{
    let n = nodes[i];
    lemma_references_of_nodes(nodes, x);
    reveal_strlit("refresh");
    assert(text::lower("refresh"@) == "refresh"@);
    let refresh = refresh_refs(n);
    let archives = archive_refs(n);
    let candidates = srcset_refs(n);
    if !candidates.contains(x) {
        if n.tag == "meta"@ && html::attribute(n.attributes, "content"@) == Some(v) && (
        html::attribute(n.attributes, "http-equiv"@) matches Some(h) && text::lower(text::trim(h))
            == "refresh"@) && (scan::refresh_span(v) matches Some(span) && x == v.subrange(
            span.0,
            span.1,
        )) {
            assert(refresh[0] == x);
            assert(refresh.contains(x));
        } else {
            let pieces = text::split(v, ',');
            let k = choose|k: int|
                0 <= k < pieces.len() && x == text::trim(#[trigger] pieces[k]);
            let trimmed = all_trimmed(pieces);
            assert(trimmed[k] == x);
            lemma_kept(trimmed, k);
            assert(archives.contains(x));
        }
    }
    lemma_middle_references(n, x);
    assert(node_references(n).contains(x));
}

/// A text that looks like a reference is kept.
proof fn lemma_kept(values: Seq<Seq<char>>, k: int)
    requires
        0 <= k < values.len(),
        looks_like_reference(values[k]),
    ensures
        kept_references(values).contains(values[k]),
    decreases values.len(),
{
    let front = values.drop_last();
    let rest = kept_references(front);
    let all = kept_references(values);
    if k < front.len() {
        lemma_kept(front, k);
        assert(front[k] == values[k]);
        let j = choose|j: int| 0 <= j < rest.len() && rest[j] == values[k];
        assert(all[j] == values[k]);
    } else {
        assert(all[all.len() - 1] == values[k]);
    }
}

/// What the candidates, archives and the refresh of an element name is among its references.
#[verifier::spinoff_prover]
#[verifier::rlimit(50)]
proof fn lemma_middle_references(n: html::NodeView, x: Seq<char>)
    requires
        srcset_refs(n).contains(x) || archive_refs(n).contains(x) || refresh_refs(n).contains(x),
    ensures
        element_references(n).contains(x),
{
    broadcast use lemma_in_either;

}

/// A page loses the links that lead to nothing and a page or style sheet the resources that do: where
/// there are none it is left alone, and the number of those taken out is told.
pub proof fn law_pages_lose_what_leads_to_nothing(
    site: SiteView,
    source: SourceView,
    nodes: Seq<html::NodeView>,
)
    requires
        html::html_nodes(source.text) == Some(nodes),
        source.path.extension() == Some("html"@),
    ensures
        ({
            let links = link_removals(site, source.path, nodes);
            let resources = resource_removals(site, source.path, nodes);
            &&& total_removed(links) == 0 ==> page_without_missing_links(site, source) == Ok::<
                Option<(Seq<char>, nat)>,
                UnreadableHtml,
            >(None)
            &&& total_removed(links) > 0 ==> (html::html_edited(
                source.text,
                removal_edits(links),
            ) matches Some(page) ==> page_without_missing_links(site, source) == Ok::<
                Option<(Seq<char>, nat)>,
                UnreadableHtml,
            >(Some((page, numbers::capped(total_removed(links))))))
            &&& total_removed(resources) == 0 ==> file_without_missing_resources(site, source)
                == Ok::<Option<(Seq<char>, nat)>, UnreadableHtml>(None)
            &&& total_removed(resources) > 0 ==> (html::html_edited(
                source.text,
                removal_edits(resources),
            ) matches Some(page) ==> file_without_missing_resources(site, source) == Ok::<
                Option<(Seq<char>, nat)>,
                UnreadableHtml,
            >(Some((page, numbers::capped(total_removed(resources))))))
        }),
{
    lemma_extensions_in_lower_case();
}

/// The files of a site are those at the given paths.
pub proof fn law_files_of_a_site(paths: Seq<path::PathView>, place: Seq<char>)
    ensures
        path_texts(paths).contains(place) <==> exists|i: int|
            0 <= i < paths.len() && (#[trigger] paths[i]).text() == place,
    decreases paths.len(),
{
    if paths.len() > 0 {
        let front = paths.drop_last();
        law_files_of_a_site(front, place);
        let end = paths.len() - 1;
        assert(paths[end] == paths.last());
        if path_texts(front).contains(place) {
            let i = choose|i: int| 0 <= i < front.len() && (#[trigger] front[i]).text() == place;
            assert(paths[i] == front[i]);
        }
        if exists|i: int| 0 <= i < paths.len() && (#[trigger] paths[i]).text() == place {
            let i = choose|i: int| 0 <= i < paths.len() && (#[trigger] paths[i]).text() == place;
            if i < end {
                assert(front[i] == paths[i]);
            }
        }
    }
}

/// An element refers by nothing but the attributes that refer in every element and those that refer in
/// elements of its name.
pub proof fn law_elements_refer_by_their_own_attributes_only(n: html::NodeView)
    requires
        n.kind == NodeKind::Element,
        forall|i: int|
            0 <= i < n.attributes.len() ==> {
                let name = (#[trigger] n.attributes[i]).0;
                &&& name == "cite"@ ==> n.tag != "blockquote"@ && n.tag != "q"@ && n.tag != "del"@ && n.tag != "ins"@
                &&& name == "action"@ ==> n.tag != "form"@
                &&& name == "data"@ ==> n.tag != "object"@
                &&& name == "codebase"@ ==> n.tag != "object"@
                &&& name == "code"@ ==> n.tag != "applet"@
                &&& name == "value"@ ==> n.tag != "option"@ && n.tag != "param"@
                &&& name == "poster"@ ==> n.tag != "video"@
                &&& name == "archive"@ ==> n.tag != "applet"@
                &&& name == "content"@ ==> n.tag != "meta"@
                &&& name != "href"@ && name != "src"@ && name != "background"@ && name != "srcset"@
                &&& name != "style"@ && name != "onclick"@ && name != "onfocus"@ && name != "onblur"@
                &&& name != "onchange"@ && name != "onload"@ && name != "onmousedown"@ && name != "onmouseout"@
                &&& name != "onmouseover"@ && name != "onmouseup"@
            },
    ensures
        node_references(n).len() == 0,
{
    lemma_no_attribute(n.attributes, "href"@);
    lemma_no_attribute(n.attributes, "src"@);
    lemma_no_attribute(n.attributes, "background"@);
    lemma_no_attribute(n.attributes, "srcset"@);
    lemma_no_attribute(n.attributes, "style"@);
    lemma_no_attribute(n.attributes, "onclick"@);
    lemma_no_attribute(n.attributes, "onfocus"@);
    lemma_no_attribute(n.attributes, "onblur"@);
    lemma_no_attribute(n.attributes, "onchange"@);
    lemma_no_attribute(n.attributes, "onload"@);
    lemma_no_attribute(n.attributes, "onmousedown"@);
    lemma_no_attribute(n.attributes, "onmouseout"@);
    lemma_no_attribute(n.attributes, "onmouseover"@);
    lemma_no_attribute(n.attributes, "onmouseup"@);
    if n.tag == "blockquote"@ || n.tag == "q"@ || n.tag == "del"@ || n.tag == "ins"@ {
        lemma_no_attribute(n.attributes, "cite"@);
    }
    if n.tag == "form"@ {
        lemma_no_attribute(n.attributes, "action"@);
    }
    if n.tag == "object"@ {
        lemma_no_attribute(n.attributes, "data"@);
    }
    if n.tag == "object"@ {
        lemma_no_attribute(n.attributes, "codebase"@);
    }
    if n.tag == "applet"@ {
        lemma_no_attribute(n.attributes, "code"@);
    }
    if n.tag == "option"@ || n.tag == "param"@ {
        lemma_no_attribute(n.attributes, "value"@);
    }
    if n.tag == "video"@ {
        lemma_no_attribute(n.attributes, "poster"@);
    }
    if n.tag == "applet"@ {
        lemma_no_attribute(n.attributes, "archive"@);
    }
    if n.tag == "meta"@ {
        lemma_no_attribute(n.attributes, "content"@);
    }
}

/// Nothing is taken out of an element but the resources that elements of its name load, its background,
/// and what its style and the scripts of six events hold.
pub proof fn law_other_attributes_are_left_alone(site: SiteView, file: path::PathView, n: html::NodeView)
    requires
        n.kind == NodeKind::Element,
        forall|i: int|
            0 <= i < n.attributes.len() ==> {
                let name = (#[trigger] n.attributes[i]).0;
                &&& name == "src"@ ==> n.tag != "audio"@ && n.tag != "embed"@ && n.tag != "frame"@ && n.tag != "iframe"@ && n.tag != "img"@ && n.tag != "input"@ && n.tag != "script"@ && n.tag != "source"@ && n.tag != "track"@ && n.tag != "video"@
                &&& name == "action"@ ==> n.tag != "form"@
                &&& name == "href"@ ==> n.tag != "link"@
                &&& name == "data"@ ==> n.tag != "object"@
                &&& name == "poster"@ ==> n.tag != "video"@
                &&& name != "background"@ && name != "style"@ && name != "onclick"@ && name != "onload"@
                &&& name != "onmousedown"@ && name != "onmouseout"@ && name != "onmouseover"@ && name != "onmouseup"@
            },
    ensures
        node_removals(site, file, n).len() == 0,
{
    lemma_no_attribute(n.attributes, "background"@);
    lemma_no_attribute(n.attributes, "style"@);
    lemma_no_attribute(n.attributes, "onclick"@);
    lemma_no_attribute(n.attributes, "onload"@);
    lemma_no_attribute(n.attributes, "onmousedown"@);
    lemma_no_attribute(n.attributes, "onmouseout"@);
    lemma_no_attribute(n.attributes, "onmouseover"@);
    lemma_no_attribute(n.attributes, "onmouseup"@);
    if n.tag == "audio"@ || n.tag == "embed"@ || n.tag == "frame"@ || n.tag == "iframe"@ || n.tag == "img"@ || n.tag == "input"@ || n.tag == "script"@ || n.tag == "source"@ || n.tag == "track"@ || n.tag == "video"@ {
        lemma_no_attribute(n.attributes, "src"@);
    }
    if n.tag == "form"@ {
        lemma_no_attribute(n.attributes, "action"@);
    }
    if n.tag == "link"@ {
        lemma_no_attribute(n.attributes, "href"@);
    }
    if n.tag == "object"@ {
        lemma_no_attribute(n.attributes, "data"@);
    }
    if n.tag == "video"@ {
        lemma_no_attribute(n.attributes, "poster"@);
    }
}

/// A text without a dot looks like a reference only by how it starts.
pub proof fn law_names_without_a_dot_are_no_references(s: Seq<char>)
    requires
        s.len() > 0,
        !s.contains('.'),
        !s.contains('?'),
        !s.contains('#'),
        !text::starts_with(s, "/"@),
        !text::starts_with(s, "http://"@),
        !text::starts_with(s, "https://"@),
    ensures
        !looks_like_reference(s),
{
    scan::lemma_before_char(s, '#', Seq::empty());
    scan::lemma_before_char(s, '?', Seq::empty());
    reveal_strlit("./");
    reveal_strlit("../");
    if text::starts_with(s, "./"@) {
        assert(s.subrange(0, 2)[0] == '.');
        assert(s.contains(s[0]));
    }
    if text::starts_with(s, "../"@) {
        assert(s.subrange(0, 3)[0] == '.');
        assert(s.contains(s[0]));
    }
    let piece = last_piece(s);
    assert(!piece.contains('.')) by {
        if piece.contains('.') {
            let k = choose|k: int| 0 <= k < piece.len() && piece[k] == '.';
            text::lemma_rindex_of(s, '/', s.len() - 1);
            match text::rindex_of(s, '/', s.len() - 1) {
                Some(i) => {
                    assert(s[i + 1 + k] == '.');
                    assert(s.contains(s[i + 1 + k]));
                },
                None => {
                    assert(s.contains(s[k]));
                },
            }
        }
    }
    pathmap::lemma_no_extension(piece);
}

} // verus!

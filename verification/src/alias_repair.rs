//! Copies of forum topics under the addresses by which other pages link to them.
use crate::link_validation;
use crate::maps::{TextMap, TextSet};
use crate::numbers;
use crate::order;
use crate::path;
use crate::scan;
use crate::text;
use crate::urls;
use link_validation::{SiteFiles, SourceFile};
use path::LocalPath;
use vstd::prelude::*;
use vstd::utf8::encode_utf8;

verus! {

/// A text with every `p` replaced by `r`, from the left.
pub open spec fn replaced(s: Seq<char>, p: Seq<char>, r: Seq<char>) -> Seq<char>
    decreases s.len(),
{
    match text::find(s, p, 0) {
        Some(i) => if p.len() > 0 && 0 <= i && i + p.len() <= s.len() {
            s.take(i) + r + replaced(s.skip(i + p.len()), p, r)
        } else {
            s
        },
        None => s,
    }
}

/// A text with every `p` replaced by `r`.
pub fn replace_all(s: &[char], p: &str, r: &str) -> (out: Vec<char>)
    requires
        p@.len() > 0,
    ensures
        out@ == replaced(s@, p@, r@),
{
    let pattern = text::chars_of(p);
    let size: usize = pattern.len();
    let n: usize = s.len();
    let mut out: Vec<char> = Vec::new();
    let mut from: usize = 0;
    proof {
        assert(s@.skip(0) == s@);
        assert(out@ + replaced(s@, p@, r@) == replaced(s@, p@, r@));
    }
    loop
        invariant
            from <= n,
            n == s@.len(),
            pattern@ == p@,
            size == p@.len(),
            size > 0,
            out@ + replaced(s@.skip(from as int), p@, r@) == replaced(s@, p@, r@),
        decreases n - from,
    {
        let ghost before = out@;
        let rest = text::part(s, from, n);
        proof {
            assert(rest@ == s@.skip(from as int));
        }
        match text::find_from(&rest, &pattern, 0) {
            Some(i) => {
                text::push_chars(&mut out, &text::part(&rest, 0, i));
                text::push_text(&mut out, r);
                proof {
                    assert(rest@.subrange(0, i as int) == rest@.take(i as int));
                    assert(rest@.skip(i + size) == s@.skip(from + i + size));
                    let tail = replaced(rest@.skip(i + size), p@, r@);
                    assert(before + (rest@.take(i as int) + r@ + tail) == before + rest@.take(
                        i as int,
                    ) + r@ + tail);
                }
                from = from + i + size;
            },
            None => {
                text::push_chars(&mut out, &rest);
                return out;
            },
        }
    }
}

/// A text with the entities of common characters decoded.
pub open spec fn plain_entities(s: Seq<char>) -> Seq<char> {
    replaced(replaced(replaced(replaced(replaced(replaced(replaced(s, "&amp;"@, "&"@), "&quot;"@, "\""@), "&#039;"@, "'"@), "&#39;"@, "'"@), "&lt;"@, "<"@), "&gt;"@, ">"@), "&nbsp;"@, " "@)
}

/// A text with the entities of common characters decoded.
pub fn decode_entities(s: &[char]) -> (r: Vec<char>)
    ensures
        r@ == plain_entities(s@),
{
    proof {
        reveal_strlit("&amp;");
        reveal_strlit("&quot;");
        reveal_strlit("&#039;");
        reveal_strlit("&#39;");
        reveal_strlit("&lt;");
        reveal_strlit("&gt;");
        reveal_strlit("&nbsp;");
        assert(s@.subrange(0, s@.len() as int) == s@);
    }
    let mut out = text::part(s, 0, s.len());
    out = replace_all(&out, "&amp;", "&");
    out = replace_all(&out, "&quot;", "\"");
    out = replace_all(&out, "&#039;", "'");
    out = replace_all(&out, "&#39;", "'");
    out = replace_all(&out, "&lt;", "<");
    out = replace_all(&out, "&gt;", ">");
    out = replace_all(&out, "&nbsp;", " ");
    out
}

/// A text without what stands in tags, from `from` on.
pub open spec fn untagged(s: Seq<char>, from: int, in_tag: bool) -> Seq<char>
    decreases s.len() - from,
{
    if from < 0 || from >= s.len() {
        Seq::empty()
    } else if s[from] == '<' {
        untagged(s, from + 1, true)
    } else if s[from] == '>' {
        untagged(s, from + 1, false)
    } else if in_tag {
        untagged(s, from + 1, true)
    } else {
        seq![s[from]] + untagged(s, from + 1, false)
    }
}

/// A text without what stands in tags.
pub fn strip_tags(s: &[char]) -> (r: Vec<char>)
    ensures
        r@ == untagged(s@, 0, false),
{
    let mut out: Vec<char> = Vec::new();
    let mut in_tag = false;
    let mut i: usize = 0;
    proof {
        assert(out@ + untagged(s@, 0, false) == untagged(s@, 0, false));
    }
    while i < s.len()
        invariant
            i <= s@.len(),
            out@ + untagged(s@, i as int, in_tag) == untagged(s@, 0, false),
        decreases s@.len() - i,
    {
        let ghost before = out@;
        let c = s[i];
        if c == '<' {
            in_tag = true;
        } else if c == '>' {
            in_tag = false;
        } else if !in_tag {
            out.push(c);
            proof {
                let rest = untagged(s@, i + 1, false);
                assert(before + (seq![c] + rest) == before.push(c) + rest);
            }
        }
        i += 1;
    }
    proof {
        assert(out@ + untagged(s@, i as int, in_tag) == out@);
    }
    out
}

/// What a piece of markup says: without tags and entities, one space between words, in lower case.
pub open spec fn plain_text(s: Seq<char>) -> Seq<char> {
    text::lower(text::join(text::words(plain_entities(untagged(s, 0, false)), 0), " "@))
}

/// What a piece of markup says.
pub fn normalize_text(s: &[char]) -> (r: String)
    ensures
        r@ == plain_text(s@),
{
    let words = text::split_words(&decode_entities(&strip_tags(s)));
    text::lowered(text::join_strings(&words, " ").as_str())
}

/// The value of the first quoted attribute with a name in a tag, from `from` on; `needle` is the
/// name with an equals sign.
pub open spec fn attribute_value(
    s: Seq<char>,
    low: Seq<char>,
    needle: Seq<char>,
    from: int,
) -> Option<Seq<char>>
    decreases s.len() - from,
{
    match text::find(low, needle, from) {
        Some(i) => {
            let start = i + needle.len();
            if !(from < start < s.len()) {
                None
            } else if !scan::is_quote(s[start]) {
                attribute_value(s, low, needle, start)
            } else {
                match text::index_of(s, s[start], start + 1) {
                    Some(e) => Some(s.subrange(start + 1, e)),
                    None => None,
                }
            }
        },
        None => None,
    }
}

/// The value of a quoted attribute of a tag; `needle` is the name with an equals sign.
pub fn extract_attr(s: &[char], needle: &str) -> (r: Option<Vec<char>>)
    requires
        needle@.len() > 0,
    ensures
        match r {
            Some(v) => attribute_value(s@, text::lower(s@), needle@, 0) == Some(v@),
            None => attribute_value(s@, text::lower(s@), needle@, 0) is None,
        },
{
    let low = text::lower_chars(s);
    let pattern = text::chars_of(needle);
    let n: usize = s.len();
    let mut from: usize = 0;
    loop
        invariant
            from <= n,
            n == s@.len(),
            low@ == text::lower(s@),
            pattern@ == needle@,
            needle@.len() > 0,
            attribute_value(s@, low@, needle@, 0) == attribute_value(
                s@,
                low@,
                needle@,
                from as int,
            ),
        decreases n - from,
    {
        let start: usize = match text::find_from(&low, &pattern, from) {
            Some(i) => i + pattern.len(),
            None => {
                return None;
            },
        };
        if start >= n {
            return None;
        }
        if s[start] == '\'' || s[start] == '"' {
            return match text::index_from(s, s[start], start + 1) {
                Some(e) => Some(text::part(s, start + 1, e)),
                None => None,
            };
        }
        from = start;
    }
}

/// What stands in the first element with a name; `open` and `close` are its tags without and with
/// the closing bracket.
pub open spec fn element_text(s: Seq<char>, open: Seq<char>, close: Seq<char>) -> Option<
    Seq<char>,
> {
    let low = text::lower(s);
    match text::find(low, open, 0) {
        Some(start) => match text::index_of(low, '>', start) {
            Some(open_end) => match text::find(low, close, open_end + 1) {
                Some(end) => Some(s.subrange(open_end + 1, end)),
                None => None,
            },
            None => None,
        },
        None => None,
    }
}

/// What stands in the first element with a name.
fn extract_tag_text(s: &[char], open: &str, close: &str) -> (r: Option<Vec<char>>)
    ensures
        match r {
            Some(v) => element_text(s@, open@, close@) == Some(v@),
            None => element_text(s@, open@, close@) is None,
        },
{
    let low = text::lower_chars(s);
    let n: usize = low.len();
    let start: usize = match text::find_from(&low, &text::chars_of(open), 0) {
        Some(i) => i,
        None => {
            return None;
        },
    };
    let open_end: usize = match text::index_from(&low, '>', start) {
        Some(i) => i,
        None => {
            return None;
        },
    };
    match text::find_from(&low, &text::chars_of(close), open_end + 1) {
        Some(end) => Some(text::part(s, open_end + 1, end)),
        None => None,
    }
}

/// The title of a topic page: what its title element says behind `View topic -`.
pub open spec fn topic_title(s: Seq<char>) -> Option<Seq<char>> {
    match element_text(s, "<title"@, "</title>"@) {
        Some(title) => match text::find(text::lower(title), "view topic -"@, 0) {
            Some(i) => Some(
                plain_text(text::trim(title.skip(i + "view topic -"@.len()))),
            ),
            None => None,
        },
        None => None,
    }
}

/// The title of a topic page, as it is compared.
pub fn extract_topic_title(s: &[char]) -> (r: Option<String>)
    ensures
        urls::option_view(r) == topic_title(s@),
{
    let title = match extract_tag_text(s, "<title", "</title>") {
        Some(title) => title,
        None => {
            return None;
        },
    };
    let marker = text::chars_of("view topic -");
    let low = text::lower_chars(&title);
    let n: usize = low.len();
    match text::find_from(&low, &marker, 0) {
        Some(i) => {
            let start: usize = i + marker.len();
            proof {
                assert(title@.subrange(start as int, n as int) == title@.skip(start as int));
            }
            Some(normalize_text(&text::trim_chars(&text::part(&title, start, n))))
        },
        None => None,
    }
}

/// An anchor name as it is compared.
pub open spec fn anchor_name(s: Seq<char>) -> Seq<char> {
    text::lower(plain_entities(scan::percent_decoded(text::trim(s))))
}

/// An anchor name as it is compared.
pub fn normalize_anchor_id(s: &[char]) -> (r: String)
    ensures
        r@ == anchor_name(s@),
{
    let decoded = scan::percent_decode(text::string_of(&text::trim_chars(s)).as_str());
    let plain = decode_entities(&text::chars_of(decoded.as_str()));
    text::string_of(&text::lower_chars(&plain))
}

/// The anchor names that an attribute of a tag gives.
pub open spec fn tag_anchor(tag: Seq<char>, needle: Seq<char>) -> Seq<Seq<char>> {
    match attribute_value(tag, text::lower(tag), needle, 0) {
        Some(v) => if anchor_name(v).len() > 0 {
            seq![anchor_name(v)]
        } else {
            Seq::empty()
        },
        None => Seq::empty(),
    }
}

/// The anchor names of the tags of a page, from `from` on.
pub open spec fn anchors_from(s: Seq<char>, from: int) -> Seq<Seq<char>>
    decreases s.len() - from,
{
    match text::index_of(s, '<', from) {
        Some(start) => match text::index_of(s, '>', start) {
            Some(end) => if from <= end < s.len() {
                let tag = s.subrange(start, end + 1);
                tag_anchor(tag, "id="@) + tag_anchor(tag, "name="@) + anchors_from(s, end + 1)
            } else {
                Seq::empty()
            },
            None => Seq::empty(),
        },
        None => Seq::empty(),
    }
}

/// The anchor names of a page, sorted, each once.
pub open spec fn anchor_ids(s: Seq<char>) -> Seq<Seq<char>> {
    order::sort_dedup_of(anchors_from(s, 0))
}

/// Appends the anchor names that an attribute of a tag gives.
fn push_tag_anchor(out: &mut Vec<String>, tag: &[char], needle: &str)
    requires
        needle@.len() > 0,
    ensures
        text::views(final(out)@) == text::views(old(out)@) + tag_anchor(tag@, needle@),
{
    let ghost before = text::views(out@);
    proof {
        assert(before + Seq::<Seq<char>>::empty() == before);
    }
    if let Some(v) = extract_attr(tag, needle) {
        let name = normalize_anchor_id(&v);
        if !name.as_str().is_empty() {
            out.push(name);
            proof {
                assert(text::views(out@) == before + seq![name@]);
            }
        }
    }
}

/// The anchor names of a page, sorted, each once.
pub fn extract_anchor_ids(s: &[char]) -> (r: Vec<String>)
    ensures
        text::views(r@) == anchor_ids(s@),
{
    let n: usize = s.len();
    let mut out: Vec<String> = Vec::new();
    let mut from: usize = 0;
    proof {
        reveal_strlit("id=");
        reveal_strlit("name=");
        assert(text::views(out@) + anchors_from(s@, 0) == anchors_from(s@, 0));
    }
    loop
        invariant_except_break
            from <= n,
            n == s@.len(),
            "id="@.len() > 0,
            "name="@.len() > 0,
            text::views(out@) + anchors_from(s@, from as int) == anchors_from(s@, 0),
        ensures
            text::views(out@) == anchors_from(s@, 0),
        decreases n - from,
    {
        let ghost before = text::views(out@);
        proof {
            assert(before + Seq::<Seq<char>>::empty() == before);
        }
        let start: usize = match text::index_from(s, '<', from) {
            Some(i) => i,
            None => {
                break;
            },
        };
        let end: usize = match text::index_from(s, '>', start) {
            Some(i) => i,
            None => {
                break;
            },
        };
        let tag = text::part(s, start, end + 1);
        push_tag_anchor(&mut out, &tag, "id=");
        push_tag_anchor(&mut out, &tag, "name=");
        from = end + 1;
        proof {
            let a = tag_anchor(tag@, "id="@);
            let b = tag_anchor(tag@, "name="@);
            let rest = anchors_from(s@, from as int);
            assert(before + (a + b + rest) == before + a + b + rest);
        }
    }
    order::sort_dedup(out)
}

/// A link in a page.
pub struct AnchorLink {
    pub href: String,
    /// The markup between its tags.
    pub text: String,
    /// Where it starts.
    pub start: usize,
    /// Where it ends.
    pub end: usize,
}

/// The mathematical form of a link.
#[verifier::ext_equal]
pub struct AnchorLinkView {
    pub href: Seq<char>,
    pub text: Seq<char>,
    pub start: int,
    pub end: int,
}

impl View for AnchorLink {
    type V = AnchorLinkView;

    open spec fn view(&self) -> AnchorLinkView {
        AnchorLinkView {
            href: self.href@,
            text: self.text@,
            start: self.start as int,
            end: self.end as int,
        }
    }
}

/// The links of a page, from `from` on; `low` is the page in lower case.
pub open spec fn links_from(s: Seq<char>, low: Seq<char>, from: int) -> Seq<AnchorLinkView>
    decreases s.len() - from,
{
    match text::find(low, "<a"@, from) {
        Some(start) => match text::index_of(low, '>', start) {
            Some(open_end) => if !(from <= open_end < s.len()) {
                Seq::empty()
            } else {
                let tag = s.subrange(start, open_end + 1);
                match attribute_value(tag, text::lower(tag), "href="@, 0) {
                    Some(href) => match text::find(low, "</a>"@, open_end + 1) {
                        Some(close) => {
                            let end = close + "</a>"@.len();
                            if from < end <= s.len() {
                                seq![
                                    AnchorLinkView {
                                        href,
                                        text: s.subrange(open_end + 1, close),
                                        start,
                                        end,
                                    },
                                ] + links_from(s, low, end)
                            } else {
                                Seq::empty()
                            }
                        },
                        None => Seq::empty(),
                    },
                    None => links_from(s, low, open_end + 1),
                }
            },
            None => Seq::empty(),
        },
        None => Seq::empty(),
    }
}

/// The links of a page.
pub open spec fn anchor_links(s: Seq<char>) -> Seq<AnchorLinkView> {
    links_from(s, text::lower(s), 0)
}

/// The links of a page.
pub fn extract_anchor_links(s: &[char]) -> (r: Vec<AnchorLink>)
    ensures
        order::keys(r@) == anchor_links(s@),
        forall|i: int|
            0 <= i < r@.len() ==> (#[trigger] r@[i]).start <= r@[i].end <= s@.len(),
{
    let low = text::lower_chars(s);
    let n: usize = low.len();
    let a = text::chars_of("<a");
    let close_tag = text::chars_of("</a>");
    let mut out: Vec<AnchorLink> = Vec::new();
    let mut from: usize = 0;
    proof {
        reveal_strlit("href=");
        reveal_strlit("</a>");
        assert(order::keys(out@) + links_from(s@, low@, 0) == links_from(s@, low@, 0));
    }
    loop
        invariant
            from <= n,
            n == s@.len(),
            low@ == text::lower(s@),
            a@ == "<a"@,
            close_tag@ == "</a>"@,
            close_tag@.len() == 4,
            "href="@.len() > 0,
            forall|i: int|
                0 <= i < out@.len() ==> (#[trigger] out@[i]).start <= out@[i].end <= s@.len(),
            order::keys(out@) + links_from(s@, low@, from as int) == links_from(s@, low@, 0),
        decreases n - from,
    {
        let ghost before = order::keys(out@);
        proof {
            assert(before + Seq::<AnchorLinkView>::empty() == before);
        }
        let start: usize = match text::find_from(&low, &a, from) {
            Some(i) => i,
            None => {
                return out;
            },
        };
        let open_end: usize = match text::index_from(&low, '>', start) {
            Some(i) => i,
            None => {
                return out;
            },
        };
        let tag = text::part(s, start, open_end + 1);
        match extract_attr(&tag, "href=") {
            Some(href) => {
                match text::find_from(&low, &close_tag, open_end + 1) {
                    Some(close) => {
                        let end: usize = close + close_tag.len();
                        let link = AnchorLink {
                            href: text::string_of(&href),
                            text: text::cut_string(s, open_end + 1, close),
                            start,
                            end,
                        };
                        out.push(link);
                        proof {
                            let rest = links_from(s@, low@, end as int);
                            assert(order::keys(out@) == before.push(link@));
                            assert(before + (seq![link@] + rest) == before.push(link@) + rest);
                        }
                        from = end;
                    },
                    None => {
                        return out;
                    },
                }
            },
            None => {
                from = open_end + 1;
            },
        }
    }
}

/// The fragment of a reference, without a query behind it.
pub open spec fn reference_fragment_of(href: Seq<char>) -> Option<Seq<char>> {
    match text::index_of(href, '#', 0) {
        Some(i) => {
            let fragment = text::trim(scan::before_char(href.skip(i + 1), '?'));
            if fragment.len() > 0 {
                Some(fragment)
            } else {
                None
            }
        },
        None => None,
    }
}

/// The fragment of a reference, without a query behind it.
pub fn reference_fragment(href: &[char]) -> (r: Option<Vec<char>>)
    ensures
        match r {
            Some(v) => reference_fragment_of(href@) == Some(v@),
            None => reference_fragment_of(href@) is None,
        },
{
    let n: usize = href.len();
    match text::index_from(href, '#', 0) {
        Some(i) => {
            let rest = text::part(href, i + 1, n);
            proof {
                assert(rest@ == href@.skip(i + 1));
            }
            let fragment = text::trim_chars(&scan::cut_before(&rest, '?'));
            if fragment.len() > 0 {
                Some(fragment)
            } else {
                None
            }
        },
        None => None,
    }
}

/// The number of a post that an anchor names: digits, with or without a `p` before them.
pub open spec fn post_number(name: Seq<char>) -> Option<Seq<char>> {
    if name.len() > 0 && numbers::all_digits(name) {
        Some(name)
    } else if name.len() > 1 && name[0] == 'p' && numbers::all_digits(name.skip(1)) {
        Some(name.skip(1))
    } else {
        None
    }
}

/// The anchors that stand for the same post as a fragment; none where it names no post.
pub open spec fn variants(fragment: Seq<char>) -> Seq<Seq<char>> {
    match post_number(anchor_name(fragment)) {
        Some(number) => seq![number, "p"@ + number],
        None => Seq::empty(),
    }
}

/// Whether a text is made of digits.
fn is_all_digits(s: &[char]) -> (r: bool)
    ensures
        r == numbers::all_digits(s@),
{
    let mut i: usize = 0;
    while i < s.len()
        invariant
            i <= s@.len(),
            forall|k: int| 0 <= k < i ==> numbers::is_digit(#[trigger] s@[k]),
        decreases s@.len() - i,
    {
        if !('0' <= s[i] && s[i] <= '9') {
            assert(!numbers::is_digit(s@[i as int]));
            return false;
        }
        i += 1;
    }
    true
}

/// The anchors that stand for the same post as a fragment.
pub fn anchor_variants(fragment: &[char]) -> (r: Vec<String>)
    ensures
        text::views(r@) == variants(fragment@),
{
    let name = text::chars_of(normalize_anchor_id(fragment).as_str());
    let n: usize = name.len();
    let mut out: Vec<String> = Vec::new();
    let number = if n > 0 && is_all_digits(&name) {
        text::string_of(&name)
    } else if n > 1 && name[0] == 'p' {
        let digits = text::part(&name, 1, n);
        proof {
            assert(digits@ == name@.skip(1));
        }
        if !is_all_digits(&digits) {
            proof {
                assert(text::views(out@) == Seq::<Seq<char>>::empty());
            }
            return out;
        }
        text::string_of(&digits)
    } else {
        proof {
            assert(text::views(out@) == Seq::<Seq<char>>::empty());
        }
        return out;
    };
    let with_letter = text::concat("p", number.as_str());
    out.push(number);
    out.push(with_letter);
    proof {
        assert(text::views(out@) == seq![number@, with_letter@]);
    }
    out
}

/// Whether a reference leads out of the saved site.
pub open spec fn leads_elsewhere(href: Seq<char>) -> bool {
    let l = text::lower(text::trim(href));
    ||| l.len() == 0
    ||| text::starts_with(l, "#"@)
    ||| text::starts_with(l, "http://"@)
    ||| text::starts_with(l, "https://"@)
    ||| text::starts_with(l, "mailto:"@)
    ||| text::starts_with(l, "javascript:"@)
    ||| text::starts_with(l, "data:"@)
    ||| text::starts_with(l, "tel:"@)
}

/// Whether a reference leads out of the saved site.
fn should_skip_reference(href: &str) -> (r: bool)
    ensures
        r == leads_elsewhere(href@),
{
    let lower = text::lowered(text::trimmed(href).as_str());
    let l = lower.as_str();
    l.is_empty() || text::has_prefix(l, "#") || text::has_prefix(l, "http://") || text::has_prefix(l, "https://") || text::has_prefix(l, "mailto:") || text::has_prefix(l, "javascript:") || text::has_prefix(l, "data:") || text::has_prefix(l, "tel:")
}

/// The path that a reference in a file leads to.
pub open spec fn reference_path(root: path::PathView, file: path::PathView, href: Seq<char>) -> path::PathView {
    let d = scan::percent_decoded(scan::bare_path(href));
    let joined = if text::starts_with(d, "/"@) {
        root.join(path::parse_of(text::trim_start_char(d, '/')))
    } else {
        match file.parent() {
            Some(directory) => directory.join(path::parse_of(d)),
            None => root.join(path::parse_of(d)),
        }
    };
    joined.normalized()
}

/// The path that a reference in a file leads to.
fn resolve_local_reference(root: &LocalPath, from_file: &LocalPath, href: &str) -> (r: LocalPath)
    ensures
        r@ == reference_path(root@, from_file@, href@),
{
    let bare = scan::strip_query_and_fragment(&text::chars_of(href));
    let d = scan::percent_decode(text::string_of(&bare).as_str());
    let joined = if text::has_prefix(d.as_str(), "/") {
        let inner = text::trim_start_chars(&text::chars_of(d.as_str()), '/');
        root.join(&LocalPath::parse(text::string_of(&inner).as_str()))
    } else {
        match from_file.parent() {
            Some(directory) => directory.join(&LocalPath::parse(d.as_str())),
            None => root.join(&LocalPath::parse(d.as_str())),
        }
    };
    joined.normalize()
}

/// Whether a path is that of a saved topic page.
pub open spec fn topic_file(p: path::PathView) -> bool {
    p.file_name() matches Some(name) && text::starts_with(name, "viewtopic.php"@)
}

/// Whether a path is that of a saved topic page.
pub fn is_topic_file(p: &LocalPath) -> (r: bool)
    ensures
        r == topic_file(p@),
{
    match p.file_name() {
        Some(name) => text::has_prefix(name.as_str(), "viewtopic.php"),
        None => false,
    }
}

/// Whether a path is one by which pages link to a topic with a query.
pub open spec fn alias_name(p: path::PathView) -> bool {
    p.file_name() matches Some(name) && text::starts_with(name, "viewtopic.php__q_"@)
        && text::ends_with(name, ".html"@)
}

/// The topic page that a link in a file leads to, if there is nothing at its path.
pub open spec fn missing_topic(
    site: link_validation::SiteView,
    file: path::PathView,
    href: Seq<char>,
) -> Option<path::PathView> {
    let target = reference_path(site.root, file, href);
    if !leads_elsewhere(href) && target.starts_with(site.root) && !site.files.contains(
        target.text(),
    ) && alias_name(target) {
        Some(target)
    } else {
        None
    }
}

/// The topic page that a link in a file leads to, if there is nothing at its path.
pub fn missing_topic_target(site: &SiteFiles, from_file: &LocalPath, href: &str) -> (r: Option<
    LocalPath,
>)
    ensures
        match r {
            Some(target) => missing_topic(site@, from_file@, href@) == Some(target@),
            None => missing_topic(site@, from_file@, href@) is None,
        },
{
    if should_skip_reference(href) {
        return None;
    }
    let target = resolve_local_reference(&site.root, from_file, href);
    if !target.starts_with(&site.root) || site.is_file(&target) {
        return None;
    }
    let named = match target.file_name() {
        Some(name) => text::has_prefix(name.as_str(), "viewtopic.php__q_") && text::has_suffix(
            name.as_str(),
            ".html",
        ),
        None => false,
    };
    if named {
        Some(target)
    } else {
        None
    }
}

/// The topic pages with a title.
pub open spec fn titled(sources: Seq<link_validation::SourceView>, title: Seq<char>) -> Seq<
    path::PathView,
>
    decreases sources.len(),
{
    if sources.len() == 0 {
        Seq::empty()
    } else {
        let rest = titled(sources.drop_last(), title);
        if topic_file(sources.last().path) && topic_title(sources.last().text) == Some(title)
            && title.len() > 0 {
            rest.push(sources.last().path)
        } else {
            rest
        }
    }
}

/// The topic pages with an anchor.
pub open spec fn anchored(sources: Seq<link_validation::SourceView>, anchor: Seq<char>) -> Seq<
    path::PathView,
>
    decreases sources.len(),
{
    if sources.len() == 0 {
        Seq::empty()
    } else {
        let rest = anchored(sources.drop_last(), anchor);
        if topic_file(sources.last().path) && anchor_ids(sources.last().text).contains(anchor) {
            rest.push(sources.last().path)
        } else {
            rest
        }
    }
}

/// The paths in a directory.
pub open spec fn in_directory(paths: Seq<path::PathView>, directory: Option<path::PathView>) -> Seq<
    path::PathView,
>
    decreases paths.len(),
{
    if paths.len() == 0 {
        Seq::empty()
    } else if paths.last().parent() == directory {
        in_directory(paths.drop_last(), directory).push(paths.last())
    } else {
        in_directory(paths.drop_last(), directory)
    }
}

/// The paths in a directory, sorted, each once.
pub open spec fn candidates(paths: Seq<path::PathView>, directory: Option<path::PathView>) -> Seq<
    path::PathView,
> {
    order::dedup_of(
        order::sort_of::<path::PathView, path::ByPath>(in_directory(paths, directory)),
    )
}

/// A list of paths.
pub struct PathList {
    pub paths: Vec<LocalPath>,
}

impl View for PathList {
    type V = Seq<path::PathView>;

    open spec fn view(&self) -> Seq<path::PathView> {
        order::keys(self.paths@)
    }
}

impl PathList {
    /// A copy of the list.
    pub fn duplicate(&self) -> (r: PathList)
        ensures
            r@ == self@,
    {
        let ghost all = self@;
        let mut paths: Vec<LocalPath> = Vec::new();
        let mut i: usize = 0;
        proof {
            assert(order::keys(paths@) == all.take(0));
        }
        while i < self.paths.len()
            invariant
                i <= self.paths@.len(),
                all == self@,
                order::keys(paths@) == all.take(i as int),
            decreases self.paths@.len() - i,
        {
            let ghost before = order::keys(paths@);
            paths.push(self.paths[i].duplicate());
            i += 1;
            proof {
                assert(order::keys(paths@) == before.push(all[i - 1]));
                assert(all.take(i as int) == all.take(i - 1).push(all[i - 1]));
            }
        }
        proof {
            assert(all.take(self.paths@.len() as int) == all);
        }
        PathList { paths }
    }
}

/// Appends a path to the list of a key.
fn add_path(index: &mut TextMap<PathList>, key: &str, p: &LocalPath)
    ensures
        final(index)@ == old(index)@.insert(
            key@,
            if old(index)@.contains_key(key@) {
                old(index)@[key@].push(p@)
            } else {
                seq![p@]
            },
        ),
{
    let mut list = match index.get(key) {
        Some(list) => list.duplicate(),
        None => PathList { paths: Vec::new() },
    };
    let ghost before = list@;
    list.paths.push(p.duplicate());
    proof {
        assert(list@ == before.push(p@));
        if !index@.contains_key(key@) {
            assert(list@ == seq![p@]);
        }
    }
    index.insert(key, list);
}

/// The topics of a saved site, by title and by anchor.
pub struct TopicIndex {
    titles: TextMap<PathList>,
    posts: TextMap<PathList>,
}

/// Whether an index lists for each key what `listed` says.
pub open spec fn lists(
    index: Map<Seq<char>, Seq<path::PathView>>,
    listed: spec_fn(Seq<char>) -> Seq<path::PathView>,
) -> bool {
    forall|key: Seq<char>|
        if #[trigger] index.contains_key(key) {
            index[key] == listed(key) && listed(key).len() > 0
        } else {
            listed(key).len() == 0
        }
}

impl TopicIndex {
    /// Whether the index is that of the sources.
    pub closed spec fn is_of(self, sources: Seq<link_validation::SourceView>) -> bool {
        lists(self.titles@, |title: Seq<char>| titled(sources, title)) && lists(
            self.posts@,
            |anchor: Seq<char>| anchored(sources, anchor),
        )
    }

    /// Files the anchors of a topic page.
    fn add_anchors(&mut self, p: &LocalPath, anchors: &Vec<String>)
        requires
            forall|i: int, j: int|
                0 <= i < j < anchors@.len() ==> (#[trigger] anchors@[i])@ != (
                #[trigger] anchors@[j])@,
        ensures
            final(self).titles@ == old(self).titles@,
            forall|key: Seq<char>| #[trigger]
                final(self).posts@.contains_key(key) == (old(self).posts@.contains_key(key)
                    || text::views(anchors@).contains(key)),
            forall|key: Seq<char>| #[trigger]
                final(self).posts@.contains_key(key) ==> final(self).posts@[key] == (
                if text::views(anchors@).contains(key) {
                    if old(self).posts@.contains_key(key) {
                        old(self).posts@[key].push(p@)
                    } else {
                        seq![p@]
                    }
                } else {
                    old(self).posts@[key]
                }),
    {
        let ghost all = text::views(anchors@);
        let ghost start = self.posts@;
        let mut i: usize = 0;
        while i < anchors.len()
            invariant
                i <= anchors@.len(),
                all == text::views(anchors@),
                self.titles@ == old(self).titles@,
                start == old(self).posts@,
                forall|i: int, j: int|
                    0 <= i < j < anchors@.len() ==> (#[trigger] anchors@[i])@ != (
                    #[trigger] anchors@[j])@,
                forall|key: Seq<char>| #[trigger]
                    self.posts@.contains_key(key) == (start.contains_key(key) || all.take(
                        i as int,
                    ).contains(key)),
                forall|key: Seq<char>| #[trigger]
                    self.posts@.contains_key(key) ==> self.posts@[key] == (if all.take(
                        i as int,
                    ).contains(key) {
                        if start.contains_key(key) {
                            start[key].push(p@)
                        } else {
                            seq![p@]
                        }
                    } else {
                        start[key]
                    }),
            decreases anchors@.len() - i,
        {
            let ghost now = all.take(i as int);
            let ghost then = all.take(i + 1);
            let ghost here = anchors@[i as int]@;
            let ghost before = self.posts@;
            proof {
                if now.contains(here) {
                    let k = choose|k: int| 0 <= k < now.len() && now[k] == here;
                    assert(anchors@[k]@ != anchors@[i as int]@);
                }
                assert(before.contains_key(here) == start.contains_key(here));
                assert forall|key: Seq<char>| then.contains(key) == (now.contains(key) || key == here) by {
                    if now.contains(key) {
                        let k = choose|k: int| 0 <= k < now.len() && now[k] == key;
                        assert(then[k] == key);
                    }
                    if key == here {
                        assert(then[i as int] == key);
                    }
                    if then.contains(key) && key != here {
                        let k = choose|k: int| 0 <= k < then.len() && then[k] == key;
                        assert(now[k] == key);
                    }
                }
            }
            add_path(&mut self.posts, anchors[i].as_str(), p);
            i += 1;
        }
        proof {
            assert(all.take(all.len() as int) == all);
        }
    }

    /// The topics of a saved site.
    pub fn new(sources: &Vec<SourceFile>) -> (r: TopicIndex)
        ensures
            r.is_of(order::keys(sources@)),
    {
        let ghost all = order::keys(sources@);
        let mut index = TopicIndex { titles: TextMap::new(), posts: TextMap::new() };
        let mut i: usize = 0;
        proof {
            assert(all.take(0).len() == 0);
        }
        while i < sources.len()
            invariant
                i <= sources@.len(),
                all == order::keys(sources@),
                index.is_of(all.take(i as int)),
            decreases sources@.len() - i,
        {
            let ghost before = index;
            let ghost now = all.take(i as int);
            let ghost then = all.take(i + 1);
            let source = &sources[i];
            proof {
                assert(then.drop_last() == now);
                assert(then.last() == source@);
            }
            if is_topic_file(&source.path) {
                let s = text::chars_of(source.text.as_str());
                if let Some(title) = extract_topic_title(&s) {
                    if !title.as_str().is_empty() {
                        add_path(&mut index.titles, title.as_str(), &source.path);
                    }
                }
                proof {
                    assert forall|key: Seq<char>|
                        if #[trigger] index.titles@.contains_key(key) {
                            index.titles@[key] == titled(then, key) && titled(then, key).len() > 0
                        } else {
                            titled(then, key).len() == 0
                        } by {
                        assert(if before.titles@.contains_key(key) {
                            before.titles@[key] == titled(now, key)
                        } else {
                            titled(now, key).len() == 0
                        });
                        if !before.titles@.contains_key(key) {
                            assert(titled(now, key) == Seq::<path::PathView>::empty());
                            assert(titled(now, key).push(source.path@) == seq![source.path@]);
                        }
                    }
                    assert(index.posts@ == before.posts@);
                }
                let anchors = extract_anchor_ids(&s);
                proof {
                    order::lemma_sort_dedup_of(anchors_from(s@, 0));
                    let ids = text::views(anchors@);
                    assert forall|i: int, j: int| 0 <= i < j < anchors@.len() implies (
                    #[trigger] anchors@[i])@ != (#[trigger] anchors@[j])@ by {
                        assert(order::text_lt(ids[i], ids[j]));
                        order::lemma_text_le_total(ids[i], ids[j]);
                    }
                }
                let ghost filed = index;
                index.add_anchors(&source.path, &anchors);
                proof {
                    assert forall|key: Seq<char>|
                        if #[trigger] index.posts@.contains_key(key) {
                            index.posts@[key] == anchored(then, key) && anchored(then, key).len() > 0
                        } else {
                            anchored(then, key).len() == 0
                        } by {
                        assert(if before.posts@.contains_key(key) {
                            before.posts@[key] == anchored(now, key)
                        } else {
                            anchored(now, key).len() == 0
                        });
                        assert(filed.posts@.contains_key(key) == before.posts@.contains_key(key));
                        if !before.posts@.contains_key(key) {
                            assert(anchored(now, key) == Seq::<path::PathView>::empty());
                            assert(anchored(now, key).push(source.path@) == seq![source.path@]);
                        }
                    }
                }
            } else {
                proof {
                    assert forall|key: Seq<char>|
                        if #[trigger] index.titles@.contains_key(key) {
                            index.titles@[key] == titled(then, key) && titled(then, key).len() > 0
                        } else {
                            titled(then, key).len() == 0
                        } by {
                        assert(titled(then, key) == titled(now, key));
                    }
                    assert forall|key: Seq<char>|
                        if #[trigger] index.posts@.contains_key(key) {
                            index.posts@[key] == anchored(then, key) && anchored(then, key).len() > 0
                        } else {
                            anchored(then, key).len() == 0
                        } by {
                        assert(anchored(then, key) == anchored(now, key));
                    }
                }
            }
            i += 1;
        }
        proof {
            assert(all.take(all.len() as int) == all);
        }
        index
    }

    /// The topic pages in a directory that have a title, sorted, each once.
    fn with_title(
        &self,
        title: &str,
        directory: &Option<LocalPath>,
        Ghost(sources): Ghost<Seq<link_validation::SourceView>>,
    ) -> (r: Vec<LocalPath>)
        requires
            self.is_of(sources),
        ensures
            order::keys(r@) == candidates(titled(sources, title@), directory_view(*directory)),
    {
        match self.titles.get(title) {
            Some(list) => pick_candidates(list, directory),
            None => {
                let none = PathList { paths: Vec::new() };
                proof {
                    assert(!self.titles@.contains_key(title@));
                    assert(titled(sources, title@) == none@);
                }
                pick_candidates(&none, directory)
            },
        }
    }

    /// The topic pages in a directory that have an anchor, sorted, each once.
    fn with_anchor(
        &self,
        anchor: &str,
        directory: &Option<LocalPath>,
        Ghost(sources): Ghost<Seq<link_validation::SourceView>>,
    ) -> (r: Vec<LocalPath>)
        requires
            self.is_of(sources),
        ensures
            order::keys(r@) == candidates(anchored(sources, anchor@), directory_view(*directory)),
    {
        match self.posts.get(anchor) {
            Some(list) => pick_candidates(list, directory),
            None => {
                let none = PathList { paths: Vec::new() };
                proof {
                    assert(!self.posts@.contains_key(anchor@));
                    assert(anchored(sources, anchor@) == none@);
                }
                pick_candidates(&none, directory)
            },
        }
    }
}

/// The view of an optional path.
pub open spec fn directory_view(directory: Option<LocalPath>) -> Option<path::PathView> {
    match directory {
        Some(p) => Some(p@),
        None => None,
    }
}

/// Whether a path lies in a directory.
fn is_in(p: &LocalPath, directory: &Option<LocalPath>) -> (r: bool)
    ensures
        r == (p@.parent() == directory_view(*directory)),
{
    match (p.parent(), directory) {
        (Some(a), Some(b)) => a.same(b),
        (None, None) => true,
        _ => false,
    }
}

/// The paths in a directory, sorted, each once.
fn pick_candidates(list: &PathList, directory: &Option<LocalPath>) -> (r: Vec<LocalPath>)
    ensures
        order::keys(r@) == candidates(list@, directory_view(*directory)),
{
    let ghost all = list@;
    let ghost d = directory_view(*directory);
    let mut out: Vec<LocalPath> = Vec::new();
    let mut i: usize = 0;
    proof {
        assert(order::keys(out@) == in_directory(all.take(0), d));
    }
    while i < list.paths.len()
        invariant
            i <= list.paths@.len(),
            all == list@,
            d == directory_view(*directory),
            order::keys(out@) == in_directory(all.take(i as int), d),
        decreases list.paths@.len() - i,
    {
        let ghost before = order::keys(out@);
        proof {
            assert(all.take(i + 1).drop_last() == all.take(i as int));
            assert(all.take(i + 1).last() == list.paths@[i as int]@);
        }
        if is_in(&list.paths[i], directory) {
            out.push(list.paths[i].duplicate());
            proof {
                assert(order::keys(out@) == before.push(list.paths@[i as int]@));
            }
        }
        i += 1;
    }
    proof {
        assert(all.take(all.len() as int) == all);
    }
    order::sort_unique::<LocalPath, path::ByPath>(out)
}

/// The topic pages that can take the place of a missing one.
#[verifier::ext_equal]
pub enum AliasSourceView {
    Resolved(path::PathView),
    Unresolved,
    Ambiguous,
}

/// What can take the place of a missing topic page.
pub enum AliasSource {
    /// This page.
    Resolved(LocalPath),
    /// Nothing that was saved.
    Unresolved,
    /// Several pages, and nothing tells which.
    Ambiguous,
}

impl View for AliasSource {
    type V = AliasSourceView;

    open spec fn view(&self) -> AliasSourceView {
        match self {
            AliasSource::Resolved(p) => AliasSourceView::Resolved(p@),
            AliasSource::Unresolved => AliasSourceView::Unresolved,
            AliasSource::Ambiguous => AliasSourceView::Ambiguous,
        }
    }
}

/// The anchors that a link may name.
pub open spec fn link_anchors(href: Seq<char>) -> Seq<Seq<char>> {
    match reference_fragment_of(href) {
        Some(fragment) => variants(fragment),
        None => Seq::empty(),
    }
}

/// The anchors that a link may name.
fn anchors_of_link(href: &str) -> (r: Vec<String>)
    ensures
        text::views(r@) == link_anchors(href@),
{
    match reference_fragment(&text::chars_of(href)) {
        Some(fragment) => anchor_variants(&fragment),
        None => {
            let none: Vec<String> = Vec::new();
            proof {
                assert(text::views(none@) == Seq::<Seq<char>>::empty());
            }
            none
        },
    }
}

/// The page in the directory that holds a post: the one with the link itself, or the first of the
/// others.
pub open spec fn post_source(
    sources: Seq<link_validation::SourceView>,
    current: link_validation::SourceView,
    anchors: Seq<Seq<char>>,
    directory: Option<path::PathView>,
) -> Option<path::PathView>
    decreases anchors.len(),
{
    if anchors.len() == 0 {
        None
    } else {
        let found = candidates(anchored(sources, anchors[0]), directory);
        if anchor_ids(current.text).contains(anchors[0]) && current.path.parent() == directory {
            Some(current.path)
        } else if found.len() > 0 {
            Some(found[0])
        } else {
            post_source(sources, current, anchors.drop_first(), directory)
        }
    }
}

/// The first path that stands in both lists.
pub open spec fn first_shared(paths: Seq<path::PathView>, others: Seq<path::PathView>) -> Option<
    path::PathView,
>
    decreases paths.len(),
{
    if paths.len() == 0 {
        None
    } else if others.contains(paths[0]) {
        Some(paths[0])
    } else {
        first_shared(paths.drop_first(), others)
    }
}

/// The page in the directory that has a title and holds a post.
pub open spec fn titled_post(
    sources: Seq<link_validation::SourceView>,
    anchors: Seq<Seq<char>>,
    title: Seq<char>,
    directory: Option<path::PathView>,
) -> Option<path::PathView>
    decreases anchors.len(),
{
    if anchors.len() == 0 {
        None
    } else {
        match first_shared(
            candidates(anchored(sources, anchors[0]), directory),
            candidates(titled(sources, title), directory),
        ) {
            Some(p) => Some(p),
            None => titled_post(sources, anchors.drop_first(), title, directory),
        }
    }
}

/// The page in the directory that has a title and to which a reference leads.
pub open spec fn linked_topic(
    site: link_validation::SiteView,
    sources: Seq<link_validation::SourceView>,
    file: path::PathView,
    href: Seq<char>,
    title: Seq<char>,
    directory: Option<path::PathView>,
) -> Option<path::PathView> {
    let target = reference_path(site.root, file, href);
    if !leads_elsewhere(href) && site.files.contains(target.text()) && topic_file(target)
        && candidates(titled(sources, title), directory).contains(target) {
        Some(target)
    } else {
        None
    }
}

/// The page in the directory that has a title and that another link of the same row names.
pub open spec fn sibling_source(
    site: link_validation::SiteView,
    sources: Seq<link_validation::SourceView>,
    file: path::PathView,
    siblings: Seq<AnchorLinkView>,
    href: Seq<char>,
    title: Seq<char>,
    directory: Option<path::PathView>,
) -> Option<path::PathView>
    decreases siblings.len(),
{
    if siblings.len() == 0 {
        None
    } else {
        let rest = sibling_source(
            site,
            sources,
            file,
            siblings.drop_first(),
            href,
            title,
            directory,
        );
        if siblings[0].href == href {
            rest
        } else {
            match linked_topic(site, sources, file, siblings[0].href, title, directory) {
                Some(p) => Some(p),
                None => match titled_post(
                    sources,
                    link_anchors(siblings[0].href),
                    title,
                    directory,
                ) {
                    Some(p) => Some(p),
                    None => rest,
                },
            }
        }
    }
}

/// The element around a piece of a page, from its opening tag to its closing one; `low` is the page
/// in lower case.
pub open spec fn containing(
    low: Seq<char>,
    open: Seq<char>,
    close: Seq<char>,
    start: int,
    end: int,
) -> Option<(int, int)> {
    match text::rfind(low.take(start), open, start) {
        Some(from) => if text::contains(low.subrange(from, start), close) {
            None
        } else {
            match text::find(low, close, end) {
                Some(i) => Some((from, i + close.len())),
                None => None,
            }
        },
        None => None,
    }
}

/// How many bytes a piece of a page takes.
pub open spec fn bytes_in(s: Seq<char>, span: (int, int)) -> nat {
    encode_utf8(s.subrange(span.0, span.1)).len()
}

/// The list item or table row around a piece of a page, the one with fewer bytes.
pub open spec fn row_around(low: Seq<char>, start: int, end: int) -> Option<(int, int)> {
    match (
        containing(low, "<li"@, "</li>"@, start, end),
        containing(low, "<tr"@, "</tr>"@, start, end),
    ) {
        (Some(item), Some(row)) => if bytes_in(low, row) < bytes_in(low, item) {
            Some(row)
        } else {
            Some(item)
        },
        (Some(item), None) => Some(item),
        (None, other) => other,
    }
}

/// The page that the row around a link tells of.
pub open spec fn row_source(
    site: link_validation::SiteView,
    sources: Seq<link_validation::SourceView>,
    current: link_validation::SourceView,
    link: AnchorLinkView,
    title: Seq<char>,
    directory: Option<path::PathView>,
) -> Option<path::PathView> {
    match row_around(text::lower(current.text), link.start, link.end) {
        Some(span) => sibling_source(
            site,
            sources,
            current.path,
            anchor_links(current.text.subrange(span.0, span.1)),
            link.href,
            title,
            directory,
        ),
        None => None,
    }
}

/// What can take the place of the missing topic page in `directory` that a link leads to.
pub open spec fn alias_source(
    site: link_validation::SiteView,
    sources: Seq<link_validation::SourceView>,
    current: link_validation::SourceView,
    link: AnchorLinkView,
    directory: Option<path::PathView>,
) -> AliasSourceView {
    let said = plain_text(link.text);
    let own = topic_title(current.text);
    let found = candidates(titled(sources, said), directory);
    match post_source(sources, current, link_anchors(link.href), directory) {
        Some(p) => AliasSourceView::Resolved(p),
        None => if own is Some && (said == "print view"@ || own == Some(said))
            && current.path.parent() == directory {
            AliasSourceView::Resolved(current.path)
        } else if found.len() == 1 {
            AliasSourceView::Resolved(found[0])
        } else {
            match row_source(site, sources, current, link, said, directory) {
                Some(p) => AliasSourceView::Resolved(p),
                None => if found.len() == 0 {
                    AliasSourceView::Unresolved
                } else {
                    AliasSourceView::Ambiguous
                },
            }
        },
    }
}

/// Whether a path stands in a list.
fn contains_path(paths: &Vec<LocalPath>, p: &LocalPath) -> (r: bool)
    ensures
        r == order::keys(paths@).contains(p@),
{
    let mut i: usize = 0;
    while i < paths.len()
        invariant
            i <= paths@.len(),
            forall|k: int| 0 <= k < i ==> (#[trigger] paths@[k])@ != p@,
        decreases paths@.len() - i,
    {
        if paths[i].same(p) {
            proof {
                assert(order::keys(paths@)[i as int] == p@);
            }
            return true;
        }
        i += 1;
    }
    proof {
        assert forall|k: int| 0 <= k < order::keys(paths@).len() implies order::keys(paths@)[k]
            != p@ by {
            assert(paths@[k]@ != p@);
        }
    }
    false
}

/// The first path that stands in both lists.
fn find_shared(paths: &Vec<LocalPath>, others: &Vec<LocalPath>) -> (r: Option<LocalPath>)
    ensures
        directory_view(r) == first_shared(order::keys(paths@), order::keys(others@)),
{
    let ghost all = order::keys(paths@);
    let mut i: usize = 0;
    proof {
        assert(all.skip(0) == all);
    }
    while i < paths.len()
        invariant
            i <= paths@.len(),
            all == order::keys(paths@),
            first_shared(all, order::keys(others@)) == first_shared(
                all.skip(i as int),
                order::keys(others@),
            ),
        decreases paths@.len() - i,
    {
        proof {
            assert(all.skip(i as int)[0] == paths@[i as int]@);
            assert(all.skip(i as int).drop_first() == all.skip(i + 1));
        }
        if contains_path(others, &paths[i]) {
            return Some(paths[i].duplicate());
        }
        i += 1;
    }
    None
}

/// The page in the directory that holds a post.
fn find_post(
    index: &TopicIndex,
    file: &LocalPath,
    own_anchors: &TextSet,
    anchors: &Vec<String>,
    directory: &Option<LocalPath>,
    Ghost(sources): Ghost<Seq<link_validation::SourceView>>,
    Ghost(current): Ghost<link_validation::SourceView>,
) -> (r: Option<LocalPath>)
    requires
        index.is_of(sources),
        current.path == file@,
        forall|a: Seq<char>| #[trigger]
            own_anchors@.contains(a) == anchor_ids(current.text).contains(a),
    ensures
        directory_view(r) == post_source(
            sources,
            current,
            text::views(anchors@),
            directory_view(*directory),
        ),
{
    let ghost all = text::views(anchors@);
    let ghost d = directory_view(*directory);
    let here = is_in(file, directory);
    let mut i: usize = 0;
    proof {
        assert(all.skip(0) == all);
    }
    while i < anchors.len()
        invariant
            i <= anchors@.len(),
            index.is_of(sources),
            current.path == file@,
            here == (file@.parent() == d),
            d == directory_view(*directory),
            all == text::views(anchors@),
            forall|a: Seq<char>| #[trigger]
                own_anchors@.contains(a) == anchor_ids(current.text).contains(a),
            post_source(sources, current, all, d) == post_source(
                sources,
                current,
                all.skip(i as int),
                d,
            ),
        decreases anchors@.len() - i,
    {
        let anchor = anchors[i].as_str();
        proof {
            assert(all.skip(i as int)[0] == anchor@);
            assert(all.skip(i as int).drop_first() == all.skip(i + 1));
        }
        if own_anchors.contains(anchor) && here {
            return Some(file.duplicate());
        }
        let found = index.with_anchor(anchor, directory, Ghost(sources));
        proof {
            assert(order::keys(found@).len() == found@.len());
        }
        if found.len() > 0 {
            return Some(found[0].duplicate());
        }
        i += 1;
    }
    None
}

/// The page in the directory that has a title and holds a post.
fn find_titled_post(
    index: &TopicIndex,
    anchors: &Vec<String>,
    titles: &Vec<LocalPath>,
    directory: &Option<LocalPath>,
    Ghost(sources): Ghost<Seq<link_validation::SourceView>>,
    Ghost(title): Ghost<Seq<char>>,
) -> (r: Option<LocalPath>)
    requires
        index.is_of(sources),
        order::keys(titles@) == candidates(titled(sources, title), directory_view(*directory)),
    ensures
        directory_view(r) == titled_post(
            sources,
            text::views(anchors@),
            title,
            directory_view(*directory),
        ),
{
    let ghost all = text::views(anchors@);
    let ghost d = directory_view(*directory);
    let mut i: usize = 0;
    proof {
        assert(all.skip(0) == all);
    }
    while i < anchors.len()
        invariant
            i <= anchors@.len(),
            index.is_of(sources),
            d == directory_view(*directory),
            all == text::views(anchors@),
            order::keys(titles@) == candidates(titled(sources, title), d),
            titled_post(sources, all, title, d) == titled_post(
                sources,
                all.skip(i as int),
                title,
                d,
            ),
        decreases anchors@.len() - i,
    {
        let anchor = anchors[i].as_str();
        proof {
            assert(all.skip(i as int)[0] == anchor@);
            assert(all.skip(i as int).drop_first() == all.skip(i + 1));
        }
        let found = index.with_anchor(anchor, directory, Ghost(sources));
        let shared = find_shared(&found, titles);
        if shared.is_some() {
            return shared;
        }
        i += 1;
    }
    None
}

/// The page in the directory that has a title and to which a reference leads.
fn existing_topic_source_from_href(
    site: &SiteFiles,
    file: &LocalPath,
    href: &str,
    titles: &Vec<LocalPath>,
) -> (r: Option<LocalPath>)
    ensures
        match r {
            Some(p) => {
                let target = reference_path(site@.root, file@, href@);
                p@ == target && !leads_elsewhere(href@) && site@.files.contains(target.text())
                    && topic_file(target) && order::keys(titles@).contains(target)
            },
            None => {
                let target = reference_path(site@.root, file@, href@);
                !(!leads_elsewhere(href@) && site@.files.contains(target.text()) && topic_file(
                    target,
                ) && order::keys(titles@).contains(target))
            },
        },
{
    if should_skip_reference(href) {
        return None;
    }
    let target = resolve_local_reference(&site.root, file, href);
    if site.is_file(&target) && is_topic_file(&target) && contains_path(titles, &target) {
        Some(target)
    } else {
        None
    }
}

/// The page in the directory that has a title and that another link of the same row names.
fn find_sibling(
    site: &SiteFiles,
    index: &TopicIndex,
    file: &LocalPath,
    siblings: &Vec<AnchorLink>,
    href: &str,
    titles: &Vec<LocalPath>,
    directory: &Option<LocalPath>,
    Ghost(sources): Ghost<Seq<link_validation::SourceView>>,
    Ghost(title): Ghost<Seq<char>>,
) -> (r: Option<LocalPath>)
    requires
        index.is_of(sources),
        order::keys(titles@) == candidates(titled(sources, title), directory_view(*directory)),
    ensures
        directory_view(r) == sibling_source(
            site@,
            sources,
            file@,
            order::keys(siblings@),
            href@,
            title,
            directory_view(*directory),
        ),
{
    let ghost all = order::keys(siblings@);
    let ghost d = directory_view(*directory);
    let mut i: usize = 0;
    proof {
        assert(all.skip(0) == all);
    }
    while i < siblings.len()
        invariant
            i <= siblings@.len(),
            index.is_of(sources),
            d == directory_view(*directory),
            all == order::keys(siblings@),
            order::keys(titles@) == candidates(titled(sources, title), d),
            sibling_source(site@, sources, file@, all, href@, title, d) == sibling_source(
                site@,
                sources,
                file@,
                all.skip(i as int),
                href@,
                title,
                d,
            ),
        decreases siblings@.len() - i,
    {
        let other = siblings[i].href.as_str();
        proof {
            assert(all.skip(i as int)[0] == siblings@[i as int]@);
            assert(all.skip(i as int).drop_first() == all.skip(i + 1));
        }
        if !text::same(other, href) {
            let linked = existing_topic_source_from_href(site, file, other, titles);
            if linked.is_some() {
                return linked;
            }
            let post = find_titled_post(
                index,
                &anchors_of_link(other),
                titles,
                directory,
                Ghost(sources),
                Ghost(title),
            );
            if post.is_some() {
                return post;
            }
        }
        i += 1;
    }
    None
}

/// The view of an optional piece.
pub open spec fn span_view(span: Option<(usize, usize)>) -> Option<(int, int)> {
    match span {
        Some((a, b)) => Some((a as int, b as int)),
        None => None,
    }
}

/// The element around a piece of a page.
fn containing_tag(low: &[char], open: &str, close: &str, start: usize, end: usize) -> (r: Option<
    (usize, usize),
>)
    requires
        start <= end <= low@.len(),
    ensures
        span_view(r) == containing(low@, open@, close@, start as int, end as int),
        r matches Some((a, b)) ==> a <= b <= low@.len(),
{
    let front = text::part(low, 0, start);
    let closing = text::chars_of(close);
    let n: usize = low.len();
    proof {
        assert(front@ == low@.take(start as int));
    }
    match text::rfind_upto(&front, &text::chars_of(open), start) {
        Some(from) => {
            let between = text::part(low, from, start);
            if text::find_from(&between, &closing, 0).is_some() {
                None
            } else {
                match text::find_from(low, &closing, end) {
                    Some(i) => Some((from, i + closing.len())),
                    None => None,
                }
            }
        },
        None => None,
    }
}

/// How many bytes a piece of a page takes.
fn byte_length(s: &[char], from: usize, to: usize) -> (r: usize)
    requires
        from <= to <= s@.len(),
    ensures
        r == bytes_in(s@, (from as int, to as int)),
{
    text::cut_string(s, from, to).as_str().as_bytes().len()
}

/// The list item or table row around a piece of a page, the one with fewer bytes.
fn containing_topic_container(low: &[char], start: usize, end: usize) -> (r: Option<(usize, usize)>)
    requires
        start <= end <= low@.len(),
    ensures
        span_view(r) == row_around(low@, start as int, end as int),
        r matches Some((a, b)) ==> a <= b <= low@.len(),
{
    let item = containing_tag(low, "<li", "</li>", start, end);
    let row = containing_tag(low, "<tr", "</tr>", start, end);
    match (item, row) {
        (Some((a, b)), Some((c, d))) => if byte_length(low, c, d) < byte_length(low, a, b) {
            Some((c, d))
        } else {
            Some((a, b))
        },
        (Some(span), None) => Some(span),
        (None, other) => other,
    }
}

/// What can take the place of the missing topic page in `directory` that a link leads to.
fn alias_source_for_link(
    site: &SiteFiles,
    index: &TopicIndex,
    source: &SourceFile,
    s: &[char],
    low: &[char],
    own_title: &Option<String>,
    own_anchors: &TextSet,
    link: &AnchorLink,
    directory: &Option<LocalPath>,
    Ghost(sources): Ghost<Seq<link_validation::SourceView>>,
) -> (r: AliasSource)
    requires
        index.is_of(sources),
        s@ == source@.text,
        low@ == text::lower(s@),
        urls::option_view(*own_title) == topic_title(s@),
        forall|a: Seq<char>| #[trigger] own_anchors@.contains(a) == anchor_ids(s@).contains(a),
        link.start <= link.end <= s@.len(),
    ensures
        r@ == alias_source(site@, sources, source@, link@, directory_view(*directory)),
{
    let file = &source.path;
    let post = find_post(
        index,
        file,
        own_anchors,
        &anchors_of_link(link.href.as_str()),
        directory,
        Ghost(sources),
        Ghost(source@),
    );
    if let Some(p) = post {
        return AliasSource::Resolved(p);
    }
    let said = normalize_text(&text::chars_of(link.text.as_str()));
    let own = match own_title {
        Some(title) => text::same(said.as_str(), "print view") || text::same(
            title.as_str(),
            said.as_str(),
        ),
        None => false,
    };
    if own && is_in(file, directory) {
        return AliasSource::Resolved(file.duplicate());
    }
    let found = index.with_title(said.as_str(), directory, Ghost(sources));
    proof {
        assert(order::keys(found@).len() == found@.len());
    }
    if found.len() == 1 {
        return AliasSource::Resolved(found[0].duplicate());
    }
    let row = match containing_topic_container(low, link.start, link.end) {
        Some((a, b)) => {
            let siblings = extract_anchor_links(&text::part(s, a, b));
            find_sibling(
                site,
                index,
                file,
                &siblings,
                link.href.as_str(),
                &found,
                directory,
                Ghost(sources),
                Ghost(said@),
            )
        },
        None => None,
    };
    match row {
        Some(p) => AliasSource::Resolved(p),
        None => if found.len() == 0 {
            AliasSource::Unresolved
        } else {
            AliasSource::Ambiguous
        },
    }
}

/// A copy of a saved topic page under another name.
pub struct AliasCopy {
    pub source: LocalPath,
    pub target: LocalPath,
}

impl View for AliasCopy {
    type V = (path::PathView, path::PathView);

    open spec fn view(&self) -> (path::PathView, path::PathView) {
        (self.source@, self.target@)
    }
}

/// How many links to missing topics were repaired, and how many were not.
#[derive(Debug, Clone, Copy, PartialEq, Eq, Structural)]
pub struct AliasRepairReport {
    pub created: usize,
    pub unresolved: usize,
    pub ambiguous: usize,
}

impl Default for AliasRepairReport {
    /// Nothing done yet.
    fn default() -> (r: AliasRepairReport)
        ensures
            r == (AliasRepairReport { created: 0, unresolved: 0, ambiguous: 0 }),
    {
        AliasRepairReport { created: 0, unresolved: 0, ambiguous: 0 }
    }
}

/// What a repair has come to.
#[verifier::ext_equal]
pub struct AliasState {
    /// The paths at which there is something.
    pub files: Set<Seq<char>>,
    pub copies: Seq<(path::PathView, path::PathView)>,
    pub unresolved: nat,
    pub ambiguous: nat,
}

/// The repair after one more link of a page.
pub open spec fn after_link(
    root: path::PathView,
    sources: Seq<link_validation::SourceView>,
    current: link_validation::SourceView,
    link: AnchorLinkView,
    state: AliasState,
) -> AliasState {
    let site = link_validation::SiteView { root, files: state.files };
    match missing_topic(site, current.path, link.href) {
        Some(target) => match alias_source(site, sources, current, link, target.parent()) {
            AliasSourceView::Resolved(p) => AliasState {
                files: state.files.insert(target.text()),
                copies: state.copies.push((p, target)),
                ..state
            },
            AliasSourceView::Unresolved => AliasState {
                unresolved: state.unresolved + 1,
                ..state
            },
            AliasSourceView::Ambiguous => AliasState { ambiguous: state.ambiguous + 1, ..state },
        },
        None => state,
    }
}

/// The repair after links of a page.
pub open spec fn after_links(
    root: path::PathView,
    sources: Seq<link_validation::SourceView>,
    current: link_validation::SourceView,
    links: Seq<AnchorLinkView>,
    state: AliasState,
) -> AliasState
    decreases links.len(),
{
    if links.len() == 0 {
        state
    } else {
        after_link(
            root,
            sources,
            current,
            links.last(),
            after_links(root, sources, current, links.drop_last(), state),
        )
    }
}

/// The repair after pages.
pub open spec fn after_pages(
    root: path::PathView,
    sources: Seq<link_validation::SourceView>,
    pages: Seq<link_validation::SourceView>,
    state: AliasState,
) -> AliasState
    decreases pages.len(),
{
    if pages.len() == 0 {
        state
    } else {
        after_links(
            root,
            sources,
            pages.last(),
            anchor_links(pages.last().text),
            after_pages(root, sources, pages.drop_last(), state),
        )
    }
}

/// The repair of a saved site.
pub open spec fn repaired(
    site: link_validation::SiteView,
    sources: Seq<link_validation::SourceView>,
) -> AliasState {
    after_pages(
        site.root,
        sources,
        sources,
        AliasState { files: site.files, copies: Seq::empty(), unresolved: 0, ambiguous: 0 },
    )
}

/// The copies that repair links to missing topics, as far as they were found.
struct Repair {
    site: SiteFiles,
    copies: Vec<AliasCopy>,
    unresolved: usize,
    ambiguous: usize,
}

impl Repair {
    /// Whether the repair has come to a state.
    spec fn is_at(self, root: path::PathView, state: AliasState) -> bool {
        &&& self.site@ == link_validation::SiteView { root, files: state.files }
        &&& order::keys(self.copies@) == state.copies
        &&& self.unresolved == numbers::capped(state.unresolved)
        &&& self.ambiguous == numbers::capped(state.ambiguous)
    }
}

/// Repairs the links of one page.
fn repair_page(
    repair: &mut Repair,
    index: &TopicIndex,
    source: &SourceFile,
    Ghost(sources): Ghost<Seq<link_validation::SourceView>>,
    Ghost(state): Ghost<AliasState>,
)
    requires
        index.is_of(sources),
        old(repair).is_at(old(repair).site@.root, state),
    ensures
        final(repair).is_at(
            old(repair).site@.root,
            after_links(
                old(repair).site@.root,
                sources,
                source@,
                anchor_links(source@.text),
                state,
            ),
        ),
{
    let ghost root = repair.site@.root;
    let s = text::chars_of(source.text.as_str());
    let low = text::lower_chars(&s);
    let own_title = extract_topic_title(&s);
    let ids = extract_anchor_ids(&s);
    let mut own_anchors = TextSet::new();
    let mut k: usize = 0;
    while k < ids.len()
        invariant
            k <= ids@.len(),
            forall|a: Seq<char>| #[trigger]
                own_anchors@.contains(a) == text::views(ids@).take(k as int).contains(a),
        decreases ids@.len() - k,
    {
        let ghost now = text::views(ids@).take(k as int);
        let ghost then = text::views(ids@).take(k + 1);
        let ghost here = ids@[k as int]@;
        own_anchors.insert(ids[k].as_str());
        proof {
            assert forall|a: Seq<char>| #[trigger] own_anchors@.contains(a) == then.contains(a) by {
                if now.contains(a) {
                    let j = choose|j: int| 0 <= j < now.len() && now[j] == a;
                    assert(then[j] == a);
                }
                if a == here {
                    assert(then[k as int] == a);
                }
                if then.contains(a) && a != here {
                    let j = choose|j: int| 0 <= j < then.len() && then[j] == a;
                    assert(now[j] == a);
                }
            }
        }
        k += 1;
    }
    proof {
        assert(text::views(ids@).take(ids@.len() as int) == text::views(ids@));
    }
    let links = extract_anchor_links(&s);
    let ghost all = order::keys(links@);
    let mut i: usize = 0;
    proof {
        assert(all.take(0).len() == 0);
    }
    while i < links.len()
        invariant
            i <= links@.len(),
            all == order::keys(links@),
            index.is_of(sources),
            s@ == source@.text,
            low@ == text::lower(s@),
            urls::option_view(own_title) == topic_title(s@),
            forall|a: Seq<char>| #[trigger] own_anchors@.contains(a) == anchor_ids(s@).contains(a),
            forall|i: int|
                0 <= i < links@.len() ==> (#[trigger] links@[i]).start <= links@[i].end <= s@.len(),
            repair.is_at(root, after_links(root, sources, source@, all.take(i as int), state)),
        decreases links@.len() - i,
    {
        let ghost before = order::keys(repair.copies@);
        let link = &links[i];
        proof {
            assert(all.take(i + 1).drop_last() == all.take(i as int));
            assert(all.take(i + 1).last() == link@);
        }
        if let Some(target) = missing_topic_target(
            &repair.site,
            &source.path,
            link.href.as_str(),
        ) {
            let directory = target.parent();
            let found = alias_source_for_link(
                &repair.site,
                index,
                source,
                &s,
                &low,
                &own_title,
                &own_anchors,
                link,
                &directory,
                Ghost(sources),
            );
            match found {
                AliasSource::Resolved(p) => {
                    repair.site.add(&target);
                    let copy = AliasCopy { source: p, target };
                    repair.copies.push(copy);
                    proof {
                        assert(order::keys(repair.copies@) == before.push(copy@));
                    }
                },
                AliasSource::Unresolved => {
                    repair.unresolved = numbers::add_capped(repair.unresolved, 1);
                },
                AliasSource::Ambiguous => {
                    repair.ambiguous = numbers::add_capped(repair.ambiguous, 1);
                },
            }
        }
        i += 1;
    }
    proof {
        assert(all.take(all.len() as int) == all);
    }
}

/// Finds the copies of saved topic pages that repair links to missing ones. The pages are those of
/// the site in `sources`, in their order; `site` holds every path at which there is something.
pub fn create_missing_topic_aliases(site: SiteFiles, sources: &Vec<SourceFile>) -> (r: (
    Vec<AliasCopy>,
    AliasRepairReport,
))
    ensures
        order::keys(r.0@) == repaired(site@, order::keys(sources@)).copies,
        r.1.created == r.0@.len(),
        r.1.unresolved == numbers::capped(repaired(site@, order::keys(sources@)).unresolved),
        r.1.ambiguous == numbers::capped(repaired(site@, order::keys(sources@)).ambiguous),
{
    let index = TopicIndex::new(sources);
    let ghost root = site@.root;
    let ghost all = order::keys(sources@);
    let ghost start = AliasState {
        files: site@.files,
        copies: Seq::empty(),
        unresolved: 0,
        ambiguous: 0,
    };
    let mut repair = Repair { site, copies: Vec::new(), unresolved: 0, ambiguous: 0 };
    let mut i: usize = 0;
    proof {
        assert(all.take(0).len() == 0);
        assert(order::keys(repair.copies@) == start.copies);
        assert(repair.is_at(root, after_pages(root, all, all.take(0), start)));
    }
    while i < sources.len()
        invariant
            i <= sources@.len(),
            all == order::keys(sources@),
            index.is_of(all),
            repair.is_at(root, after_pages(root, all, all.take(i as int), start)),
        decreases sources@.len() - i,
    {
        let ghost state = after_pages(root, all, all.take(i as int), start);
        proof {
            assert(all.take(i + 1).drop_last() == all.take(i as int));
            assert(all.take(i + 1).last() == sources@[i as int]@);
        }
        repair_page(&mut repair, &index, &sources[i], Ghost(all), Ghost(state));
        i += 1;
    }
    proof {
        assert(all.take(all.len() as int) == all);
    }
    let report = AliasRepairReport {
        created: repair.copies.len(),
        unresolved: repair.unresolved,
        ambiguous: repair.ambiguous,
    };
    (repair.copies, report)
}

/// Whether a path is that of a page with links.
pub open spec fn page_file(p: path::PathView) -> bool {
    p.extension() matches Some(e) && (text::same_ignoring_case(e, "html"@)
        || text::same_ignoring_case(e, "htm"@))
}

/// The paths of pages with links.
pub open spec fn page_paths(paths: Seq<path::PathView>) -> Seq<path::PathView>
    decreases paths.len(),
{
    if paths.len() == 0 {
        Seq::empty()
    } else if page_file(paths.last()) {
        page_paths(paths.drop_last()).push(paths.last())
    } else {
        page_paths(paths.drop_last())
    }
}

/// The paths of pages with links, sorted.
pub fn page_files(paths: &Vec<LocalPath>) -> (r: Vec<LocalPath>)
    ensures
        order::keys(r@) == order::sort_of::<path::PathView, path::ByPath>(
            page_paths(order::keys(paths@)),
        ),
{
    let ghost all = order::keys(paths@);
    let mut out: Vec<LocalPath> = Vec::new();
    let mut i: usize = 0;
    proof {
        assert(order::keys(out@) == page_paths(all.take(0)));
    }
    while i < paths.len()
        invariant
            i <= paths@.len(),
            all == order::keys(paths@),
            order::keys(out@) == page_paths(all.take(i as int)),
        decreases paths@.len() - i,
    {
        let ghost before = order::keys(out@);
        proof {
            assert(all.take(i + 1).drop_last() == all.take(i as int));
            assert(all.take(i + 1).last() == paths@[i as int]@);
        }
        let page = match paths[i].extension() {
            Some(e) => text::equal_ignoring_case(e.as_str(), "html") || text::equal_ignoring_case(
                e.as_str(),
                "htm",
            ),
            None => false,
        };
        if page {
            out.push(paths[i].duplicate());
            proof {
                assert(order::keys(out@) == before.push(paths@[i as int]@));
            }
        }
        i += 1;
    }
    proof {
        assert(all.take(all.len() as int) == all);
    }
    order::sort::<LocalPath, path::ByPath>(out)
}

/// Whether a path is that of a page of the site in a directory.
pub open spec fn is_page_in(
    sources: Seq<link_validation::SourceView>,
    p: path::PathView,
    directory: Option<path::PathView>,
) -> bool {
    p.parent() == directory && exists|k: int| 0 <= k < sources.len() && (#[trigger] sources[k]).path == p
}

/// Whether paths are those of pages of the site.
spec fn all_listed(sources: Seq<link_validation::SourceView>, paths: Seq<path::PathView>) -> bool {
    forall|i: int| 0 <= i < paths.len() ==> is_page_in(
        sources,
        #[trigger] paths[i],
        paths[i].parent(),
    )
}

/// Pages with a title are pages of the site.
proof fn lemma_titled_listed(sources: Seq<link_validation::SourceView>, n: int, title: Seq<char>)
    requires
        0 <= n <= sources.len(),
    ensures
        all_listed(sources, titled(sources.take(n), title)),
    decreases n,
{
    if n > 0 {
        lemma_titled_listed(sources, n - 1, title);
        assert(sources.take(n).drop_last() == sources.take(n - 1));
        assert(sources.take(n).last() == sources[n - 1]);
        let now = titled(sources.take(n), title);
        let then = titled(sources.take(n - 1), title);
        assert forall|i: int| 0 <= i < now.len() implies is_page_in(
            sources,
            #[trigger] now[i],
            now[i].parent(),
        ) by {
            if i < then.len() {
                assert(now[i] == then[i]);
            } else {
                assert(sources[n - 1].path == now[i]);
            }
        }
    }
}

/// Pages with an anchor are pages of the site.
proof fn lemma_anchored_listed(sources: Seq<link_validation::SourceView>, n: int, anchor: Seq<char>)
    requires
        0 <= n <= sources.len(),
    ensures
        all_listed(sources, anchored(sources.take(n), anchor)),
    decreases n,
{
    if n > 0 {
        lemma_anchored_listed(sources, n - 1, anchor);
        assert(sources.take(n).drop_last() == sources.take(n - 1));
        assert(sources.take(n).last() == sources[n - 1]);
        let now = anchored(sources.take(n), anchor);
        let then = anchored(sources.take(n - 1), anchor);
        assert forall|i: int| 0 <= i < now.len() implies is_page_in(
            sources,
            #[trigger] now[i],
            now[i].parent(),
        ) by {
            if i < then.len() {
                assert(now[i] == then[i]);
            } else {
                assert(sources[n - 1].path == now[i]);
            }
        }
    }
}

/// What is kept of a directory are pages in it.
proof fn lemma_in_directory(
    sources: Seq<link_validation::SourceView>,
    paths: Seq<path::PathView>,
    directory: Option<path::PathView>,
)
    requires
        all_listed(sources, paths),
    ensures
        forall|i: int|
            0 <= i < in_directory(paths, directory).len() ==> is_page_in(
                sources,
                #[trigger] in_directory(paths, directory)[i],
                directory,
            ),
    decreases paths.len(),
{
    if paths.len() > 0 {
        let front = paths.drop_last();
        assert forall|i: int| 0 <= i < front.len() implies is_page_in(
            sources,
            #[trigger] front[i],
            front[i].parent(),
        ) by {
            assert(front[i] == paths[i]);
        }
        lemma_in_directory(sources, front, directory);
        assert(is_page_in(sources, paths[paths.len() - 1], paths[paths.len() - 1].parent()));
        let now = in_directory(paths, directory);
        let then = in_directory(front, directory);
        assert forall|i: int| 0 <= i < now.len() implies is_page_in(
            sources,
            #[trigger] now[i],
            directory,
        ) by {
            if i < then.len() {
                assert(now[i] == then[i]);
            }
        }
    }
}

/// Leaving repetitions out adds nothing.
proof fn lemma_dedup_subset<V>(s: Seq<V>)
    ensures
        forall|i: int| 0 <= i < order::dedup_of(s).len() ==> s.contains(
            #[trigger] order::dedup_of(s)[i],
        ),
    decreases s.len(),
{
    if s.len() > 1 {
        lemma_dedup_subset(s.drop_last());
        let d = order::dedup_of(s.drop_last());
        assert forall|i: int| 0 <= i < order::dedup_of(s).len() implies s.contains(
            #[trigger] order::dedup_of(s)[i],
        ) by {
            if i < d.len() {
                assert(order::dedup_of(s)[i] == d[i]);
                assert(s.drop_last().contains(d[i]));
                let k = choose|k: int| 0 <= k < s.drop_last().len() && s.drop_last()[k] == d[i];
                assert(s[k] == d[i]);
            } else {
                assert(s[s.len() - 1] == order::dedup_of(s)[i]);
            }
        }
    } else {
        assert forall|i: int| 0 <= i < order::dedup_of(s).len() implies s.contains(
            #[trigger] order::dedup_of(s)[i],
        ) by {
            assert(s[i] == order::dedup_of(s)[i]);
        }
    }
}

/// Candidates are pages in the directory.
proof fn lemma_candidates(
    sources: Seq<link_validation::SourceView>,
    paths: Seq<path::PathView>,
    directory: Option<path::PathView>,
)
    requires
        all_listed(sources, paths),
    ensures
        forall|i: int|
            0 <= i < candidates(paths, directory).len() ==> is_page_in(
                sources,
                #[trigger] candidates(paths, directory)[i],
                directory,
            ),
{
    let chosen = in_directory(paths, directory);
    let sorted = order::sort_of::<path::PathView, path::ByPath>(chosen);
    lemma_in_directory(sources, paths, directory);
    order::lemma_sort_of::<path::PathView, path::ByPath>(chosen);
    lemma_dedup_subset(sorted);
    assert forall|i: int| 0 <= i < candidates(paths, directory).len() implies is_page_in(
        sources,
        #[trigger] candidates(paths, directory)[i],
        directory,
    ) by {
        let x = candidates(paths, directory)[i];
        assert(sorted.contains(x));
        assert(chosen.contains(x));
        let k = choose|k: int| 0 <= k < chosen.len() && chosen[k] == x;
        assert(is_page_in(sources, chosen[k], directory));
    }
}

/// Candidates for a title are pages in the directory.
proof fn lemma_titled_candidates(
    sources: Seq<link_validation::SourceView>,
    title: Seq<char>,
    directory: Option<path::PathView>,
)
    ensures
        forall|i: int|
            0 <= i < candidates(titled(sources, title), directory).len() ==> is_page_in(
                sources,
                #[trigger] candidates(titled(sources, title), directory)[i],
                directory,
            ),
{
    lemma_titled_listed(sources, sources.len() as int, title);
    assert(sources.take(sources.len() as int) == sources);
    lemma_candidates(sources, titled(sources, title), directory);
}

/// Candidates for an anchor are pages in the directory.
proof fn lemma_anchored_candidates(
    sources: Seq<link_validation::SourceView>,
    anchor: Seq<char>,
    directory: Option<path::PathView>,
)
    ensures
        forall|i: int|
            0 <= i < candidates(anchored(sources, anchor), directory).len() ==> is_page_in(
                sources,
                #[trigger] candidates(anchored(sources, anchor), directory)[i],
                directory,
            ),
{
    lemma_anchored_listed(sources, sources.len() as int, anchor);
    assert(sources.take(sources.len() as int) == sources);
    lemma_candidates(sources, anchored(sources, anchor), directory);
}

/// The page of a post is a page in the directory.
proof fn lemma_post_source(
    sources: Seq<link_validation::SourceView>,
    current: link_validation::SourceView,
    anchors: Seq<Seq<char>>,
    directory: Option<path::PathView>,
)
    requires
        sources.contains(current),
    ensures
        post_source(sources, current, anchors, directory) matches Some(p) ==> is_page_in(
            sources,
            p,
            directory,
        ),
    decreases anchors.len(),
{
    if anchors.len() > 0 {
        lemma_anchored_candidates(sources, anchors[0], directory);
        lemma_post_source(sources, current, anchors.drop_first(), directory);
        let k = choose|k: int| 0 <= k < sources.len() && sources[k] == current;
        assert(sources[k].path == current.path);
    }
}

/// What two lists share stands in the second.
proof fn lemma_first_shared(paths: Seq<path::PathView>, others: Seq<path::PathView>)
    ensures
        first_shared(paths, others) matches Some(p) ==> others.contains(p),
    decreases paths.len(),
{
    if paths.len() > 0 {
        lemma_first_shared(paths.drop_first(), others);
    }
}

/// The page of a post under a title is a candidate for the title.
proof fn lemma_titled_post(
    sources: Seq<link_validation::SourceView>,
    anchors: Seq<Seq<char>>,
    title: Seq<char>,
    directory: Option<path::PathView>,
)
    ensures
        titled_post(sources, anchors, title, directory) matches Some(p) ==> candidates(
            titled(sources, title),
            directory,
        ).contains(p),
    decreases anchors.len(),
{
    if anchors.len() > 0 {
        lemma_first_shared(
            candidates(anchored(sources, anchors[0]), directory),
            candidates(titled(sources, title), directory),
        );
        lemma_titled_post(sources, anchors.drop_first(), title, directory);
    }
}

/// The page that a neighbouring link leads to is a candidate for the title.
proof fn lemma_sibling_source(
    site: link_validation::SiteView,
    sources: Seq<link_validation::SourceView>,
    file: path::PathView,
    siblings: Seq<AnchorLinkView>,
    href: Seq<char>,
    title: Seq<char>,
    directory: Option<path::PathView>,
)
    ensures
        sibling_source(site, sources, file, siblings, href, title, directory) matches Some(p)
            ==> candidates(titled(sources, title), directory).contains(p),
    decreases siblings.len(),
{
    if siblings.len() > 0 {
        lemma_titled_post(sources, link_anchors(siblings[0].href), title, directory);
        lemma_sibling_source(
            site,
            sources,
            file,
            siblings.drop_first(),
            href,
            title,
            directory,
        );
    }
}

/// What a link resolves to is a page in the directory.
proof fn lemma_alias_source(
    site: link_validation::SiteView,
    sources: Seq<link_validation::SourceView>,
    current: link_validation::SourceView,
    link: AnchorLinkView,
    directory: Option<path::PathView>,
)
    requires
        sources.contains(current),
    ensures
        alias_source(site, sources, current, link, directory) matches AliasSourceView::Resolved(p)
            ==> is_page_in(sources, p, directory),
{
    let said = plain_text(link.text);
    let found = candidates(titled(sources, said), directory);
    lemma_post_source(sources, current, link_anchors(link.href), directory);
    lemma_titled_candidates(sources, said, directory);
    let k = choose|k: int| 0 <= k < sources.len() && sources[k] == current;
    assert(sources[k].path == current.path);
    match row_around(text::lower(current.text), link.start, link.end) {
        Some(span) => {
            let row = anchor_links(current.text.subrange(span.0, span.1));
            lemma_sibling_source(site, sources, current.path, row, link.href, said, directory);
            match row_source(site, sources, current, link, said, directory) {
                Some(p) => {
                    let i = choose|i: int| 0 <= i < found.len() && found[i] == p;
                    assert(is_page_in(sources, found[i], directory));
                },
                None => {},
            }
        },
        None => {},
    }
}

/// Whether the copies of a repair keep to the rules: each is one of a page of the site in the same
/// directory, none replaces a file, and no two have the same name.
pub open spec fn keeps_rules(
    files: Set<Seq<char>>,
    sources: Seq<link_validation::SourceView>,
    state: AliasState,
) -> bool {
    &&& files.subset_of(state.files)
    &&& forall|i: int|
        0 <= i < state.copies.len() ==> is_page_in(
            sources,
            (#[trigger] state.copies[i]).0,
            state.copies[i].1.parent(),
        ) && !files.contains(state.copies[i].1.text()) && state.files.contains(
            state.copies[i].1.text(),
        )
    &&& forall|i: int, j: int|
        0 <= i < j < state.copies.len() ==> (#[trigger] state.copies[i]).1 != (
        #[trigger] state.copies[j]).1
}

/// The links of a page keep the rules of aliases.
proof fn lemma_links_keep_rules(
    files: Set<Seq<char>>,
    root: path::PathView,
    sources: Seq<link_validation::SourceView>,
    current: link_validation::SourceView,
    links: Seq<AnchorLinkView>,
    state: AliasState,
)
    requires
        sources.contains(current),
        keeps_rules(files, sources, state),
    ensures
        keeps_rules(files, sources, after_links(root, sources, current, links, state)),
    decreases links.len(),
{
    if links.len() > 0 {
        lemma_links_keep_rules(files, root, sources, current, links.drop_last(), state);
        let before = after_links(root, sources, current, links.drop_last(), state);
        let site = link_validation::SiteView { root, files: before.files };
        let target = missing_topic(site, current.path, links.last().href);
        if let Some(t) = target {
            lemma_alias_source(site, sources, current, links.last(), t.parent());
        }
    }
}

/// The pages of a site keep the rules of aliases.
proof fn lemma_pages_keep_rules(
    files: Set<Seq<char>>,
    root: path::PathView,
    sources: Seq<link_validation::SourceView>,
    n: int,
    state: AliasState,
)
    requires
        0 <= n <= sources.len(),
        keeps_rules(files, sources, state),
    ensures
        keeps_rules(files, sources, after_pages(root, sources, sources.take(n), state)),
    decreases n,
{
    if n > 0 {
        lemma_pages_keep_rules(files, root, sources, n - 1, state);
        assert(sources.take(n).drop_last() == sources.take(n - 1));
        assert(sources.take(n).last() == sources[n - 1]);
        lemma_links_keep_rules(
            files,
            root,
            sources,
            sources[n - 1],
            anchor_links(sources[n - 1].text),
            after_pages(root, sources, sources.take(n - 1), state),
        );
    }
}

/// A repair copies only pages of the site, each within its own directory so that the relative links
/// in the copy keep their meaning; it replaces no file and makes no copy twice.
pub proof fn law_aliases_stay_in_their_forum(
    site: link_validation::SiteView,
    sources: Seq<link_validation::SourceView>,
)
    ensures
        keeps_rules(site.files, sources, repaired(site, sources)),
{
    let start = AliasState {
        files: site.files,
        copies: Seq::empty(),
        unresolved: 0,
        ambiguous: 0,
    };
    lemma_pages_keep_rules(site.files, site.root, sources, sources.len() as int, start);
    assert(sources.take(sources.len() as int) == sources);
}

/// An anchor that names no post identifies no page: it has no variants.
pub proof fn law_layout_anchors_name_no_post(fragment: Seq<char>)
    requires
        !(numbers::all_digits(anchor_name(fragment)) && anchor_name(fragment).len() > 0),
        !(anchor_name(fragment).len() > 1 && anchor_name(fragment)[0] == 'p'
            && numbers::all_digits(anchor_name(fragment).skip(1))),
    ensures
        variants(fragment).len() == 0,
{
}

/// A text that is not found leaves a text as it is.
proof fn lemma_not_replaced(s: Seq<char>, p: Seq<char>, r: Seq<char>)
    requires
        text::find(s, p, 0) is None,
    ensures
        replaced(s, p, r) == s,
{
}

/// What does not stand in a text is not found in it.
proof fn lemma_not_found(s: Seq<char>, p: Seq<char>, from: int)
    requires
        0 <= from,
        forall|j: int| from <= j && j + p.len() <= s.len() ==> !#[trigger] text::at(s, p, j),
    ensures
        text::find(s, p, from) is None,
    decreases s.len() + 1 - from,
{
    if from + p.len() <= s.len() {
        assert(!text::at(s, p, from));
        lemma_not_found(s, p, from + 1);
    }
}

/// A text without an ampersand holds no entity.
proof fn lemma_no_entity(s: Seq<char>, p: Seq<char>, r: Seq<char>)
    requires
        p.len() > 0,
        p[0] == '&',
        !s.contains('&'),
    ensures
        replaced(s, p, r) == s,
{
    assert forall|j: int| 0 <= j && j + p.len() <= s.len() implies !#[trigger] text::at(s, p, j) by {
        if text::at(s, p, j) {
            assert(s.subrange(j, j + p.len())[0] == '&');
            assert(s.contains(s[j]));
        }
    }
    lemma_not_found(s, p, 0);
    lemma_not_replaced(s, p, r);
}

/// The only entity of a text is replaced.
proof fn lemma_one_entity(a: Seq<char>, p: Seq<char>, r: Seq<char>, b: Seq<char>)
    requires
        p.len() > 0,
        p[0] == '&',
        !a.contains('&'),
        !b.contains('&'),
    ensures
        replaced(a + p + b, p, r) == a + r + b,
{
    let s = a + p + b;
    let n = a.len() as int;
    assert(s.subrange(n, n + p.len()) == p);
    assert forall|j: int| 0 <= j < n implies !#[trigger] text::at(s, p, j) by {
        if text::at(s, p, j) {
            assert(s.subrange(j, j + p.len())[0] == '&');
            assert(s[j] == a[j]);
            assert(a.contains(a[j]));
        }
    }
    scan::lemma_first_at(s, p, 0, n);
    assert(s.take(n) == a);
    assert(s.skip(n + p.len()) == b);
    lemma_no_entity(b, p, r);
}

/// Another entity than the only one of a text is not replaced.
proof fn lemma_other_entity(
    a: Seq<char>,
    e: Seq<char>,
    b: Seq<char>,
    p: Seq<char>,
    r: Seq<char>,
    k: int,
)
    requires
        p.len() > 0,
        p[0] == '&',
        !a.contains('&'),
        !b.contains('&'),
        e.len() > 0,
        forall|i: int| 0 < i < e.len() ==> #[trigger] e[i] != '&',
        0 < k < p.len(),
        k < e.len(),
        p[k] != e[k],
    ensures
        replaced(a + e + b, p, r) == a + e + b,
{
    let s = a + e + b;
    let n = a.len() as int;
    assert forall|j: int| 0 <= j && j + p.len() <= s.len() implies !#[trigger] text::at(s, p, j) by {
        if text::at(s, p, j) {
            assert(s.subrange(j, j + p.len())[0] == '&');
            assert(s.subrange(j, j + p.len())[k] == p[k]);
            if j < n {
                assert(s[j] == a[j]);
                assert(a.contains(a[j]));
            } else if j == n {
                assert(s[n + k] == e[k]);
            } else if j < n + e.len() {
                assert(s[j] == e[j - n]);
            } else {
                assert(s[j] == b[j - n - e.len()]);
                assert(b.contains(b[j - n - e.len()]));
            }
        }
    }
    lemma_not_found(s, p, 0);
    lemma_not_replaced(s, p, r);
}

/// The entities of brackets, quotes and spaces stand for their characters. Text without an ampersand
/// stays.
#[verifier::spinoff_prover]
#[verifier::rlimit(50)]
pub proof fn law_entities_stand_for_characters(a: Seq<char>, b: Seq<char>)
    requires
        !a.contains('&'),
        !b.contains('&'),
    ensures
        plain_entities(a) == a,
        plain_entities(a + "&lt;"@ + b) == a + "<"@ + b,
        plain_entities(a + "&gt;"@ + b) == a + ">"@ + b,
        plain_entities(a + "&quot;"@ + b) == a + "\""@ + b,
        plain_entities(a + "&nbsp;"@ + b) == a + " "@ + b,
        plain_entities(a + "&#39;"@ + b) == a + "'"@ + b,
        plain_entities(a + "&#039;"@ + b) == a + "'"@ + b,
{
    lemma_entity_texts();
    lemma_plain_stays(a);
    let lt = "&lt;"@;
    let gt = "&gt;"@;
    let quot = "&quot;"@;
    let nbsp = "&nbsp;"@;
    let short = "&#39;"@;
    let long = "&#039;"@;
    let amp = "&amp;"@;
    // The less-than sign.
    lemma_other_entity(a, lt, b, amp, "&"@, 1);
    lemma_other_entity(a, lt, b, quot, "\""@, 1);
    lemma_other_entity(a, lt, b, long, "'"@, 1);
    lemma_other_entity(a, lt, b, short, "'"@, 1);
    lemma_one_entity(a, lt, "<"@, b);
    lemma_joined(a, "<"@, b);
    lemma_no_entity(a + "<"@ + b, gt, ">"@);
    lemma_no_entity(a + "<"@ + b, nbsp, " "@);
    // The greater-than sign.
    lemma_other_entity(a, gt, b, amp, "&"@, 1);
    lemma_other_entity(a, gt, b, quot, "\""@, 1);
    lemma_other_entity(a, gt, b, long, "'"@, 1);
    lemma_other_entity(a, gt, b, short, "'"@, 1);
    lemma_other_entity(a, gt, b, lt, "<"@, 1);
    lemma_one_entity(a, gt, ">"@, b);
    lemma_joined(a, ">"@, b);
    lemma_no_entity(a + ">"@ + b, nbsp, " "@);
    // The double quote.
    lemma_other_entity(a, quot, b, amp, "&"@, 1);
    lemma_one_entity(a, quot, "\""@, b);
    lemma_joined(a, "\""@, b);
    lemma_plain_rest(a + "\""@ + b);
    // The space.
    lemma_other_entity(a, nbsp, b, amp, "&"@, 1);
    lemma_other_entity(a, nbsp, b, quot, "\""@, 1);
    lemma_other_entity(a, nbsp, b, long, "'"@, 1);
    lemma_other_entity(a, nbsp, b, short, "'"@, 1);
    lemma_other_entity(a, nbsp, b, lt, "<"@, 1);
    lemma_other_entity(a, nbsp, b, gt, ">"@, 1);
    lemma_one_entity(a, nbsp, " "@, b);
    // The single quotes.
    lemma_other_entity(a, short, b, amp, "&"@, 1);
    lemma_other_entity(a, short, b, quot, "\""@, 1);
    lemma_other_entity(a, short, b, long, "'"@, 2);
    lemma_one_entity(a, short, "'"@, b);
    lemma_joined(a, "'"@, b);
    lemma_plain_rest(a + "'"@ + b);
    lemma_other_entity(a, long, b, amp, "&"@, 1);
    lemma_other_entity(a, long, b, quot, "\""@, 1);
    lemma_one_entity(a, long, "'"@, b);
}

/// The entities, character by character.
proof fn lemma_entity_texts()
    ensures
        "&amp;"@ == seq!['&', 'a', 'm', 'p', ';'],
        "&quot;"@ == seq!['&', 'q', 'u', 'o', 't', ';'],
        "&#039;"@ == seq!['&', '#', '0', '3', '9', ';'],
        "&#39;"@ == seq!['&', '#', '3', '9', ';'],
        "&lt;"@ == seq!['&', 'l', 't', ';'],
        "&gt;"@ == seq!['&', 'g', 't', ';'],
        "&nbsp;"@ == seq!['&', 'n', 'b', 's', 'p', ';'],
        "<"@ == seq!['<'],
        ">"@ == seq!['>'],
        "\""@ == seq!['"'],
        "'"@ == seq!['\''],
        " "@ == seq![' '],
{
    reveal_strlit("&amp;");
    reveal_strlit("&quot;");
    reveal_strlit("&#039;");
    reveal_strlit("&#39;");
    reveal_strlit("&lt;");
    reveal_strlit("&gt;");
    reveal_strlit("&nbsp;");
    reveal_strlit("<");
    reveal_strlit(">");
    reveal_strlit("\"");
    reveal_strlit("'");
    reveal_strlit(" ");
    assert("&amp;"@ == seq!['&', 'a', 'm', 'p', ';']);
    assert("&quot;"@ == seq!['&', 'q', 'u', 'o', 't', ';']);
    assert("&#039;"@ == seq!['&', '#', '0', '3', '9', ';']);
    assert("&#39;"@ == seq!['&', '#', '3', '9', ';']);
    assert("&lt;"@ == seq!['&', 'l', 't', ';']);
    assert("&gt;"@ == seq!['&', 'g', 't', ';']);
    assert("&nbsp;"@ == seq!['&', 'n', 'b', 's', 'p', ';']);
}

/// A text with a character put in place of an entity holds no ampersand.
proof fn lemma_joined(a: Seq<char>, r: Seq<char>, b: Seq<char>)
    requires
        !a.contains('&'),
        !b.contains('&'),
        r.len() == 1,
        r[0] != '&',
    ensures
        !(a + r + b).contains('&'),
{
    let s = a + r + b;
    if s.contains('&') {
        let k = choose|k: int| 0 <= k < s.len() && s[k] == '&';
        if k < a.len() {
            assert(a.contains(a[k]));
        } else if k > a.len() {
            assert(b.contains(b[k - a.len() - 1]));
        }
    }
}

/// A text without an ampersand stays behind the quotes.
proof fn lemma_plain_rest(s: Seq<char>)
    requires
        !s.contains('&'),
    ensures
        replaced(s, "&#039;"@, "'"@) == s,
        replaced(s, "&#39;"@, "'"@) == s,
        replaced(s, "&lt;"@, "<"@) == s,
        replaced(s, "&gt;"@, ">"@) == s,
        replaced(s, "&nbsp;"@, " "@) == s,
{
    lemma_entity_texts();
    lemma_no_entity(s, "&#039;"@, "'"@);
    lemma_no_entity(s, "&#39;"@, "'"@);
    lemma_no_entity(s, "&lt;"@, "<"@);
    lemma_no_entity(s, "&gt;"@, ">"@);
    lemma_no_entity(s, "&nbsp;"@, " "@);
}

/// A text without an ampersand stays.
proof fn lemma_plain_stays(s: Seq<char>)
    requires
        !s.contains('&'),
    ensures
        plain_entities(s) == s,
{
    lemma_entity_texts();
    lemma_no_entity(s, "&amp;"@, "&"@);
    lemma_no_entity(s, "&quot;"@, "\""@);
    lemma_plain_rest(s);
}

/// Tags say nothing, and every other character says itself.
pub proof fn law_tags_say_nothing(tag: Seq<char>, c: char, s: Seq<char>)
    requires
        !tag.contains('<'),
        !tag.contains('>'),
        c != '<',
        c != '>',
    ensures
        untagged(seq!['<'] + tag + seq!['>'] + s, 0, false) == untagged(s, 0, false),
        untagged(seq![c] + s, 0, false) == seq![c] + untagged(s, 0, false),
        untagged(Seq::empty(), 0, false) == Seq::<char>::empty(),
{
    let whole = seq!['<'] + tag + seq!['>'] + s;
    let end = tag.len() as int + 1;
    assert(whole[0] == '<' && whole[end] == '>');
    assert forall|i: int| 1 <= i < end implies #[trigger] whole[i] != '<' && whole[i] != '>' by {
        assert(whole[i] == tag[i - 1]);
        assert(tag.contains(tag[i - 1]));
    }
    lemma_untagged_tag(whole, 1, end);
    assert(whole.skip(end + 1) == s);
    lemma_untagged_skip(whole, end + 1, 0, false);
    let t = seq![c] + s;
    assert(t.skip(1) == s);
    assert(t[0] == c);
    lemma_untagged_skip(t, 1, 0, false);
}

/// Nothing in a tag is kept.
proof fn lemma_untagged_tag(s: Seq<char>, from: int, end: int)
    requires
        0 <= from <= end < s.len(),
        s[end] == '>',
        forall|i: int| from <= i < end ==> #[trigger] s[i] != '<' && s[i] != '>',
    ensures
        untagged(s, from, true) == untagged(s, end + 1, false),
    decreases end - from,
{
    if from < end {
        lemma_untagged_tag(s, from + 1, end);
    }
}

/// What is kept from a place on depends only on what follows it.
proof fn lemma_untagged_skip(s: Seq<char>, k: int, from: int, in_tag: bool)
    requires
        0 <= k,
        0 <= from,
        k + from <= s.len(),
    ensures
        untagged(s, k + from, in_tag) == untagged(s.skip(k), from, in_tag),
    decreases s.len() - k - from,
{
    if k + from < s.len() {
        assert(s.skip(k)[from] == s[k + from]);
        lemma_untagged_skip(s, k, from + 1, true);
        lemma_untagged_skip(s, k, from + 1, false);
    }
}

/// A link is compared by its words in lower case, with one space between them.
pub proof fn law_words_are_compared_in_lower_case(words: Seq<Seq<char>>)
    requires
        forall|i: int|
            0 <= i < words.len() ==> (#[trigger] words[i]).len() > 0 && forall|j: int|
                0 <= j < words[i].len() ==> !text::is_white(#[trigger] words[i][j]),
        !text::join(words, " "@).contains('&'),
        !text::join(words, " "@).contains('<'),
        !text::join(words, " "@).contains('>'),
    ensures
        plain_text(text::join(words, " "@)) == text::lower(text::join(words, " "@)),
{
    let s = text::join(words, " "@);
    lemma_no_tags(s, 0);
    assert(s.skip(0) == s);
    lemma_plain_stays(s);
    text::law_written_words_are_read(words);
}

/// A text without tags is kept.
proof fn lemma_no_tags(s: Seq<char>, from: int)
    requires
        0 <= from <= s.len(),
        !s.contains('<'),
        !s.contains('>'),
    ensures
        untagged(s, from, false) == s.skip(from),
    decreases s.len() - from,
{
    if from < s.len() {
        assert(s.contains(s[from]));
        lemma_no_tags(s, from + 1);
        assert(s.skip(from) == seq![s[from]] + s.skip(from + 1));
    } else {
        assert(s.skip(from) == Seq::<char>::empty());
    }
}

/// A post has two anchors: its number, and its number behind a `p`. A link to either leads to both.
pub proof fn law_posts_have_two_anchors(fragment: Seq<char>, number: Seq<char>)
    requires
        number.len() > 0,
        forall|i: int| 0 <= i < number.len() ==> '0' <= #[trigger] number[i] <= '9',
        anchor_name(fragment) == number || anchor_name(fragment) == seq!['p'] + number,
    ensures
        variants(fragment) == seq![number, seq!['p'] + number],
{
    reveal_strlit("p");
    assert("p"@ == seq!['p']);
    let name = anchor_name(fragment);
    if name == seq!['p'] + number {
        assert(name[0] == 'p');
        assert(!numbers::is_digit(name[0]));
        assert(name.skip(1) == number);
    }
}

/// A link leads to a missing topic page where it leads into the site, to a name by which pages link to
/// a topic with a query, and nothing is there.
pub proof fn law_missing_topics_are_told_by_name(
    site: link_validation::SiteView,
    file: path::PathView,
    href: Seq<char>,
    target: path::PathView,
    name: Seq<char>,
)
    requires
        target == reference_path(site.root, file, href),
        target.file_name() == Some(name),
    ensures
        missing_topic(site, file, href) == {
            let l = text::lower(text::trim(href));
            let elsewhere = {
                ||| l.len() == 0
                ||| text::starts_with(l, "#"@) || text::starts_with(l, "http://"@)
                ||| text::starts_with(l, "https://"@) || text::starts_with(l, "mailto:"@)
                ||| text::starts_with(l, "javascript:"@) || text::starts_with(l, "data:"@)
                ||| text::starts_with(l, "tel:"@)
            };
            if !elsewhere && target.starts_with(site.root) && !site.files.contains(target.text())
                && text::starts_with(name, "viewtopic.php__q_"@) && text::ends_with(name, ".html"@) {
                Some(target)
            } else {
                None
            }
        },
{
}

/// What takes the place of a missing topic page, in this order: the page that holds the post, the page
/// with the link itself where the link has its title or asks for a print view, the only page with the
/// title that the link says, and the page that the row around the link tells of. With none of these it
/// is unresolved where no page has the title, and ambiguous where several have.
pub proof fn law_topics_are_found_in_order(
    site: link_validation::SiteView,
    sources: Seq<link_validation::SourceView>,
    current: link_validation::SourceView,
    link: AnchorLinkView,
    directory: Option<path::PathView>,
)
    ensures
        ({
            let r = alias_source(site, sources, current, link, directory);
            let said = plain_text(link.text);
            let own = topic_title(current.text);
            let found = candidates(titled(sources, said), directory);
            let post = post_source(sources, current, link_anchors(link.href), directory);
            let itself = own is Some && (said == "print view"@ || own == Some(said))
                && current.path.parent() == directory;
            let row = row_source(site, sources, current, link, said, directory);
            &&& post matches Some(p) ==> r == AliasSourceView::Resolved(p)
            &&& post is None && itself ==> r == AliasSourceView::Resolved(current.path)
            &&& post is None && !itself && found.len() == 1 ==> r == AliasSourceView::Resolved(
                found[0],
            )
            &&& post is None && !itself && found.len() != 1 ==> (row matches Some(p) ==> r
                == AliasSourceView::Resolved(p))
            &&& post is None && !itself && found.len() == 0 && row is None ==> r
                == AliasSourceView::Unresolved
            &&& post is None && !itself && found.len() > 1 && row is None ==> r
                == AliasSourceView::Ambiguous
        }),
{
}

/// A page is found by its title where it is a topic page and has that title, and by an anchor where it
/// is a topic page and has that anchor.
pub proof fn law_topic_pages_are_found_by_title_and_anchor(
    sources: Seq<link_validation::SourceView>,
    source: link_validation::SourceView,
    key: Seq<char>,
)
    ensures
        titled(Seq::empty(), key) == Seq::<path::PathView>::empty(),
        anchored(Seq::empty(), key) == Seq::<path::PathView>::empty(),
        ({
            let topic = source.path.file_name() matches Some(name) && text::starts_with(
                name,
                "viewtopic.php"@,
            );
            &&& titled(sources.push(source), key) == if topic && key.len() > 0 && topic_title(
                source.text,
            ) == Some(key) {
                titled(sources, key).push(source.path)
            } else {
                titled(sources, key)
            }
            &&& anchored(sources.push(source), key) == if topic && anchors_from(
                source.text,
                0,
            ).contains(key) {
                anchored(sources, key).push(source.path)
            } else {
                anchored(sources, key)
            }
        }),
{
    assert(sources.push(source).drop_last() == sources);
    order::lemma_sort_dedup_of(anchors_from(source.text, 0));
}

/// Only pages of the directory of the missing one can take its place; they are told in order, each
/// once.
pub proof fn law_candidates_lie_in_the_directory(
    paths: Seq<path::PathView>,
    directory: Option<path::PathView>,
    p: path::PathView,
)
    ensures
        in_directory(paths, directory).contains(p) <==> paths.contains(p) && p.parent() == directory,
    decreases paths.len(),
{
    if paths.len() > 0 {
        let front = paths.drop_last();
        law_candidates_lie_in_the_directory(front, directory, p);
        let last = paths.last();
        let rest = in_directory(front, directory);
        let all = in_directory(paths, directory);
        assert(paths[paths.len() - 1] == last);
        if front.contains(p) {
            let k = choose|k: int| 0 <= k < front.len() && front[k] == p;
            assert(paths[k] == p);
        }
        if paths.contains(p) && p != last {
            let k = choose|k: int| 0 <= k < paths.len() && paths[k] == p;
            assert(front[k] == p);
        }
        if rest.contains(p) {
            let k = choose|k: int| 0 <= k < rest.len() && rest[k] == p;
            assert(all[k] == p);
        }
        if last.parent() == directory {
            assert(all[all.len() - 1] == last);
        }
        if all.contains(p) && p != last {
            let k = choose|k: int| 0 <= k < all.len() && all[k] == p;
            assert(rest[k] == p);
        }
    }
}

/// A missing topic page that is found gets a copy under its name, from then on there; one that is not
/// found is counted, and a link to anything else changes nothing.
pub proof fn law_each_link_is_dealt_with(
    root: path::PathView,
    sources: Seq<link_validation::SourceView>,
    current: link_validation::SourceView,
    links: Seq<AnchorLinkView>,
    link: AnchorLinkView,
    state: AliasState,
)
    ensures
        after_links(root, sources, current, Seq::empty(), state) == state,
        ({
            let before = after_links(root, sources, current, links, state);
            let after = after_links(root, sources, current, links.push(link), state);
            let site = link_validation::SiteView { root, files: before.files };
            match missing_topic(site, current.path, link.href) {
                None => after == before,
                Some(target) => match alias_source(site, sources, current, link, target.parent()) {
                    AliasSourceView::Resolved(p) => {
                        &&& after.copies == before.copies.push((p, target))
                        &&& after.files == before.files.insert(target.text())
                        &&& after.unresolved == before.unresolved
                        &&& after.ambiguous == before.ambiguous
                    },
                    AliasSourceView::Unresolved => {
                        &&& after.copies == before.copies
                        &&& after.files == before.files
                        &&& after.unresolved == before.unresolved + 1
                        &&& after.ambiguous == before.ambiguous
                    },
                    AliasSourceView::Ambiguous => {
                        &&& after.copies == before.copies
                        &&& after.files == before.files
                        &&& after.unresolved == before.unresolved
                        &&& after.ambiguous == before.ambiguous + 1
                    },
                },
            }
        }),
{
    assert(links.push(link).drop_last() == links);
}

/// The pages whose links are repaired are the files with the extension `html` or `htm`, in whatever
/// case.
pub proof fn law_html_files_are_pages(paths: Seq<path::PathView>, p: path::PathView)
    ensures
        page_paths(Seq::empty()) == Seq::<path::PathView>::empty(),
        page_paths(paths.push(p)) == if p.extension() matches Some(e) && (text::lower(e) == "html"@
            || text::lower(e) == "htm"@) {
            page_paths(paths).push(p)
        } else {
            page_paths(paths)
        },
{
    reveal_strlit("html");
    reveal_strlit("htm");
    assert(text::lower("html"@) == "html"@);
    assert(text::lower("htm"@) == "htm"@);
    assert(paths.push(p).drop_last() == paths);
}

/// The first tag of a page gives the anchors of its `id` and its `name`; those of the tags behind it
/// follow.
pub proof fn law_tags_give_anchors(before: Seq<char>, inner: Seq<char>, after: Seq<char>)
    requires
        !before.contains('<'),
        !inner.contains('>'),
    ensures
        ({
            let tag = seq!['<'] + inner + seq!['>'];
            let s = before + tag + after;
            anchors_from(s, 0) == tag_anchor(tag, "id="@) + tag_anchor(tag, "name="@)
                + anchors_from(s, (before.len() + tag.len()) as int)
        }),
{
    let tag = seq!['<'] + inner + seq!['>'];
    let s = before + tag + after;
    let b = before.len() as int;
    let e = b + 1 + inner.len();
    assert(s[b] == '<' && s[e] == '>');
    text::lemma_index_of(s, '<', 0);
    let i = text::index_of(s, '<', 0)->Some_0;
    if i < b {
        assert(s[i] == before[i]);
        assert(before.contains(before[i]));
    }
    assert(i == b);
    text::lemma_index_of(s, '>', b);
    let j = text::index_of(s, '>', b)->Some_0;
    if b < j < e {
        assert(s[j] == inner[j - b - 1]);
        assert(inner.contains(inner[j - b - 1]));
    }
    assert(j == e);
    assert(s.subrange(b, e + 1) == tag);
}

/// The first link of a page is its first anchor with a quoted `href`, with what stands between its tags.
#[verifier::spinoff_prover]
#[verifier::rlimit(50)]
pub proof fn law_links_are_read(
    before: Seq<char>,
    quote: char,
    href: Seq<char>,
    body: Seq<char>,
    after: Seq<char>,
    s: Seq<char>,
)
    requires
        s == before + ("<a href="@ + seq![quote] + href + seq![quote, '>']) + body + "</a>"@ + after,
        quote == '"' || quote == '\'',
        !href.contains(quote),
        !href.contains('>'),
        forall|j: int|
            0 <= j < before.len() ==> !#[trigger] text::at(text::lower(s), "<a"@, j),
        forall|j: int|
            before.len() + 11 + href.len() <= j < before.len() + 11 + href.len() + body.len()
                ==> !#[trigger] text::at(text::lower(s), "</a>"@, j),
    ensures
        anchor_links(s).len() > 0,
        anchor_links(s)[0].href == href,
        anchor_links(s)[0].text == body,
        anchor_links(s)[0].start == before.len(),
        anchor_links(s)[0].end == before.len() + 15 + href.len() + body.len(),
{
    reveal_strlit("<a href=");
    reveal_strlit("</a>");
    reveal_strlit("<a");
    reveal_strlit("href=");
    assert("<a href="@ == seq!['<', 'a', ' ', 'h', 'r', 'e', 'f', '=']);
    assert("</a>"@ == seq!['<', '/', 'a', '>']);
    assert("<a"@ == seq!['<', 'a']);
    assert("href="@ == seq!['h', 'r', 'e', 'f', '=']);
    let tag = "<a href="@ + seq![quote] + href + seq![quote, '>'];
    let low = text::lower(s);
    let b = before.len() as int;
    let t = tag.len() as int;
    assert(t == 11 + href.len());
    assert(s[b] == '<' && s[b + 1] == 'a');
    assert(low.subrange(b, b + 2) == "<a"@);
    scan::lemma_first_at(low, "<a"@, 0, b);
    let open_end = b + t - 1;
    assert(s[open_end] == '>');
    assert(low[open_end] == '>');
    text::lemma_index_of(low, '>', b);
    let i = text::index_of(low, '>', b)->Some_0;
    if i < open_end {
        assert(s[i] == tag[i - b]);
        lemma_lower_bracket(s[i]);
        if i - b >= 9 && i - b < 9 + href.len() {
            assert(tag[i - b] == href[i - b - 9]);
            assert(href.contains(href[i - b - 9]));
        }
    }
    assert(i == open_end);
    assert(s.subrange(b, open_end + 1) == tag);
    lemma_href_of_tag(tag, quote, href);
    let close = b + t + body.len();
    assert(low.subrange(close, close + 4) == "</a>"@) by {
        assert(s[close] == '<' && s[close + 1] == '/' && s[close + 2] == 'a' && s[close + 3] == '>');
    }
    scan::lemma_first_at(low, "</a>"@, open_end + 1, close);
    assert(s.subrange(open_end + 1, close) == body);
    let all = anchor_links(s);
    assert(all == seq![
        AnchorLinkView { href, text: body, start: b, end: close + 4 },
    ] + links_from(s, low, close + 4));
}

/// Only a bracket is a bracket in lower case.
proof fn lemma_lower_bracket(c: char)
    ensures
        text::lower_char(c) == '>' ==> c == '>',
{
}

/// The `href` of a tag.
proof fn lemma_href_of_tag(tag: Seq<char>, quote: char, href: Seq<char>)
    requires
        tag == seq!['<', 'a', ' ', 'h', 'r', 'e', 'f', '='] + seq![quote] + href + seq![quote, '>'],
        quote == '"' || quote == '\'',
        !href.contains(quote),
        "href="@ == seq!['h', 'r', 'e', 'f', '='],
    ensures
        attribute_value(tag, text::lower(tag), "href="@, 0) == Some(href),
{
    let low = text::lower(tag);
    assert(tag[0] == '<' && tag[1] == 'a' && tag[2] == ' ' && tag[3] == 'h' && tag[4] == 'r'
        && tag[5] == 'e' && tag[6] == 'f' && tag[7] == '=' && tag[8] == quote);
    assert(low.subrange(3, 8) == "href="@);
    assert forall|j: int| 0 <= j < 3 implies !#[trigger] text::at(low, "href="@, j) by {
        if text::at(low, "href="@, j) {
            assert(low.subrange(j, j + 5)[0] == 'h');
        }
    }
    scan::lemma_first_at(low, "href="@, 0, 3);
    let e = 9 + href.len() as int;
    assert(tag[e] == quote);
    text::lemma_index_of(tag, quote, 9);
    let i = text::index_of(tag, quote, 9)->Some_0;
    if i < e {
        assert(tag[i] == href[i - 9]);
        assert(href.contains(href[i - 9]));
    }
    assert(i == e);
    assert(tag.subrange(9, e) == href);
}

/// The entity of the ampersand stands for it, where nothing behind it makes another entity of it.
pub proof fn law_ampersands_are_decoded(a: Seq<char>, b: Seq<char>)
    requires
        !a.contains('&'),
        !b.contains('&'),
        !b.contains(';'),
    ensures
        plain_entities(a + "&amp;"@ + b) == a + "&"@ + b,
{
    lemma_entity_texts();
    reveal_strlit("&");
    assert("&"@ == seq!['&']);
    lemma_one_entity(a, "&amp;"@, "&"@, b);
    lemma_open_ampersand(a, b, "&quot;"@, "\""@);
    lemma_open_ampersand(a, b, "&#039;"@, "'"@);
    lemma_open_ampersand(a, b, "&#39;"@, "'"@);
    lemma_open_ampersand(a, b, "&lt;"@, "<"@);
    lemma_open_ampersand(a, b, "&gt;"@, ">"@);
    lemma_open_ampersand(a, b, "&nbsp;"@, " "@);
}

/// An ampersand without a semicolon behind it starts no entity.
proof fn lemma_open_ampersand(a: Seq<char>, b: Seq<char>, p: Seq<char>, r: Seq<char>)
    requires
        !a.contains('&'),
        !b.contains('&'),
        !b.contains(';'),
        p.len() > 1,
        p[0] == '&',
        p.last() == ';',
    ensures
        replaced(a + seq!['&'] + b, p, r) == a + seq!['&'] + b,
{
    let s = a + seq!['&'] + b;
    let n = a.len() as int;
    assert forall|j: int| 0 <= j && j + p.len() <= s.len() implies !#[trigger] text::at(s, p, j) by {
        if text::at(s, p, j) {
            assert(s.subrange(j, j + p.len())[0] == '&');
            assert(s.subrange(j, j + p.len())[p.len() - 1] == ';');
            if j < n {
                assert(s[j] == a[j]);
                assert(a.contains(a[j]));
            } else if j == n {
                let k = j + p.len() - 1;
                assert(s[k] == b[k - n - 1]);
                assert(b.contains(b[k - n - 1]));
            } else {
                assert(s[j] == b[j - n - 1]);
                assert(b.contains(b[j - n - 1]));
            }
        }
    }
    lemma_not_found(s, p, 0);
    lemma_not_replaced(s, p, r);
}

/// The title of a topic page is what its title element says behind `View topic -`, in whatever case
/// that is written.
#[verifier::spinoff_prover]
#[verifier::rlimit(50)]
pub proof fn law_topic_titles_follow_their_mark(
    before: Seq<char>,
    front: Seq<char>,
    mark: Seq<char>,
    title: Seq<char>,
    after: Seq<char>,
    s: Seq<char>,
)
    requires
        s == before + "<title>"@ + (front + mark + title) + "</title>"@ + after,
        text::lower(mark) == "view topic -"@,
        forall|j: int|
            0 <= j < before.len() ==> !#[trigger] text::at(text::lower(s), "<title"@, j),
        forall|j: int|
            before.len() + 7 <= j < before.len() + 7 + front.len() + mark.len() + title.len()
                ==> !#[trigger] text::at(text::lower(s), "</title>"@, j),
        forall|j: int|
            0 <= j < front.len() ==> !#[trigger] text::at(
                text::lower(front + mark + title),
                "view topic -"@,
                j,
            ),
    ensures
        topic_title(s) == Some(plain_text(text::trim(title))),
{
    reveal_strlit("<title");
    reveal_strlit("<title>");
    reveal_strlit("</title>");
    reveal_strlit("view topic -");
    assert("<title"@ == seq!['<', 't', 'i', 't', 'l', 'e']);
    assert("<title>"@ == seq!['<', 't', 'i', 't', 'l', 'e', '>']);
    assert("</title>"@ == seq!['<', '/', 't', 'i', 't', 'l', 'e', '>']);
    assert("view topic -"@.len() == 12);
    let inner = front + mark + title;
    let low = text::lower(s);
    let b = before.len() as int;
    assert(low.subrange(b, b + 6) == "<title"@) by {
        assert(s[b] == '<' && s[b + 1] == 't' && s[b + 2] == 'i' && s[b + 3] == 't' && s[b + 4]
            == 'l' && s[b + 5] == 'e');
    }
    scan::lemma_first_at(low, "<title"@, 0, b);
    assert(s[b + 6] == '>');
    text::lemma_index_of(low, '>', b);
    let i = text::index_of(low, '>', b)->Some_0;
    assert(low[b + 6] == '>');
    if i < b + 6 {
        assert(s[b] == '<' && s[b + 1] == 't' && s[b + 2] == 'i' && s[b + 3] == 't' && s[b + 4]
            == 'l' && s[b + 5] == 'e');
        assert(low[i] == text::lower_char(s[i]));
    }
    assert(i == b + 6);
    let close = b + 7 + inner.len();
    assert(low.subrange(close, close + 8) == "</title>"@) by {
        assert(s[close] == '<' && s[close + 1] == '/' && s[close + 2] == 't' && s[close + 3] == 'i'
            && s[close + 4] == 't' && s[close + 5] == 'l' && s[close + 6] == 'e' && s[close + 7]
            == '>');
    }
    scan::lemma_first_at(low, "</title>"@, b + 7, close);
    assert(s.subrange(b + 7, close) == inner);
    let f = front.len() as int;
    assert(mark.len() == 12) by {
        assert(text::lower(mark).len() == mark.len());
    }
    let small = text::lower(inner);
    assert(small.subrange(f, f + 12) == "view topic -"@) by {
        assert forall|k: int| 0 <= k < 12 implies small[f + k] == #[trigger] "view topic -"@[k] by {
            assert(inner[f + k] == mark[k]);
            assert(text::lower(mark)[k] == "view topic -"@[k]);
        }
    }
    scan::lemma_first_at(small, "view topic -"@, 0, f);
    assert(inner.skip(f + 12) == title);
}

/// The page that holds a post is found by the first of its anchors that one has: the page with the link
/// itself where it has it and lies in the directory, else the first other page there.
pub proof fn law_posts_are_found_by_their_anchors(
    sources: Seq<link_validation::SourceView>,
    current: link_validation::SourceView,
    anchors: Seq<Seq<char>>,
    directory: Option<path::PathView>,
)
    ensures
        anchors.len() == 0 ==> post_source(sources, current, anchors, directory) is None,
        anchors.len() > 0 ==> {
            let own = anchors_from(current.text, 0).contains(anchors[0]) && current.path.parent()
                == directory;
            let found = candidates(anchored(sources, anchors[0]), directory);
            post_source(sources, current, anchors, directory) == if own {
                Some(current.path)
            } else if found.len() > 0 {
                Some(found[0])
            } else {
                post_source(sources, current, anchors.drop_first(), directory)
            }
        },
{
    order::lemma_sort_dedup_of(anchors_from(current.text, 0));
}

/// A link names the post of its fragment, which ends before a query; without a fragment it names none.
pub proof fn law_fragments_name_posts(front: Seq<char>, fragment: Seq<char>, query: Seq<char>)
    requires
        !front.contains('#'),
        !fragment.contains('?'),
        fragment.len() > 0,
        text::trim(fragment) == fragment,
        query.len() == 0 || query[0] == '?',
    ensures
        reference_fragment_of(front + seq!['#'] + fragment + query) == Some(fragment),
        link_anchors(front + seq!['#'] + fragment + query) == variants(fragment),
        reference_fragment_of(front) is None,
        link_anchors(front).len() == 0,
{
    let rest = fragment + query;
    let href = front + seq!['#'] + fragment + query;
    assert(href == front + seq!['#'] + rest);
    scan::lemma_before_char(front, '#', rest);
    assert(href.skip(front.len() as int + 1) == rest);
    if query.len() > 0 {
        assert(rest == fragment + seq!['?'] + query.skip(1));
        scan::lemma_before_char(fragment, '?', query.skip(1));
    } else {
        assert(rest == fragment);
        scan::lemma_before_char(fragment, '?', Seq::empty());
    }
}

/// The other links of a row are asked in order: one to a saved topic page with the title gives that
/// page, one to a post of a page with the title that page, and a link with the same reference none.
pub proof fn law_links_of_a_row_are_asked_in_order(
    site: link_validation::SiteView,
    sources: Seq<link_validation::SourceView>,
    file: path::PathView,
    siblings: Seq<AnchorLinkView>,
    href: Seq<char>,
    title: Seq<char>,
    directory: Option<path::PathView>,
)
    ensures
        siblings.len() == 0 ==> sibling_source(
            site,
            sources,
            file,
            siblings,
            href,
            title,
            directory,
        ) is None,
        siblings.len() > 0 ==> {
            let found = sibling_source(site, sources, file, siblings, href, title, directory);
            let rest = sibling_source(
                site,
                sources,
                file,
                siblings.drop_first(),
                href,
                title,
                directory,
            );
            let page = reference_path(site.root, file, siblings[0].href);
            let titles = candidates(titled(sources, title), directory);
            let linked = !leads_elsewhere(siblings[0].href) && site.files.contains(page.text())
                && (page.file_name() matches Some(name) && text::starts_with(
                name,
                "viewtopic.php"@,
            )) && titles.contains(page);
            let post = titled_post(sources, link_anchors(siblings[0].href), title, directory);
            &&& siblings[0].href == href ==> found == rest
            &&& siblings[0].href != href && linked ==> found == Some(page)
            &&& siblings[0].href != href && !linked && post is Some ==> found == post
            &&& siblings[0].href != href && !linked && post is None ==> found == rest
        },
{
}

/// A post of a page with a title is found by the first of its anchors for which a page in the directory
/// has both.
pub proof fn law_titled_posts_have_both(
    sources: Seq<link_validation::SourceView>,
    anchors: Seq<Seq<char>>,
    title: Seq<char>,
    directory: Option<path::PathView>,
)
    ensures
        match titled_post(sources, anchors, title, directory) {
            Some(p) => exists|i: int|
                0 <= i < anchors.len() && candidates(
                    anchored(sources, #[trigger] anchors[i]),
                    directory,
                ).contains(p) && candidates(titled(sources, title), directory).contains(p),
            None => forall|i: int, p: path::PathView|
                0 <= i < anchors.len() && #[trigger] candidates(
                    anchored(sources, #[trigger] anchors[i]),
                    directory,
                ).contains(p) ==> !candidates(titled(sources, title), directory).contains(p),
        },
    decreases anchors.len(),
{
    if anchors.len() > 0 {
        let posts = candidates(anchored(sources, anchors[0]), directory);
        let titles = candidates(titled(sources, title), directory);
        lemma_shared_or_none(posts, titles);
        let rest = anchors.drop_first();
        law_titled_posts_have_both(sources, rest, title, directory);
        match first_shared(posts, titles) {
            Some(p) => {
                assert(candidates(anchored(sources, anchors[0]), directory).contains(p));
            },
            None => {
                match titled_post(sources, rest, title, directory) {
                    Some(p) => {
                        let i = choose|i: int|
                            0 <= i < rest.len() && candidates(
                                anchored(sources, #[trigger] rest[i]),
                                directory,
                            ).contains(p) && titles.contains(p);
                        assert(anchors[i + 1] == rest[i]);
                        assert(candidates(
                            anchored(sources, anchors[i + 1]),
                            directory,
                        ).contains(p));
                    },
                    None => {
                        assert forall|i: int, p: path::PathView|
                            0 <= i < anchors.len() && #[trigger] candidates(
                                anchored(sources, #[trigger] anchors[i]),
                                directory,
                            ).contains(p) implies !titles.contains(p) by {
                            if i > 0 {
                                assert(rest[i - 1] == anchors[i]);
                                assert(candidates(
                                    anchored(sources, rest[i - 1]),
                                    directory,
                                ).contains(p));
                            }
                        }
                    },
                }
            },
        }
    }
}

/// The first shared path stands in both lists; without one they share none.
proof fn lemma_shared_or_none(paths: Seq<path::PathView>, others: Seq<path::PathView>)
    ensures
        match first_shared(paths, others) {
            Some(p) => paths.contains(p) && others.contains(p),
            None => forall|p: path::PathView| #[trigger] paths.contains(p) ==> !others.contains(p),
        },
    decreases paths.len(),
{
    if paths.len() > 0 {
        let rest = paths.drop_first();
        lemma_shared_or_none(rest, others);
        assert(paths.contains(paths[0]));
        match first_shared(rest, others) {
            Some(p) => {
                let i = choose|i: int| 0 <= i < rest.len() && rest[i] == p;
                assert(paths[i + 1] == p);
            },
            None => {
                assert forall|p: path::PathView| #[trigger]
                    paths.contains(p) && !others.contains(paths[0]) implies !others.contains(p) by {
                    let i = choose|i: int| 0 <= i < paths.len() && paths[i] == p;
                    if i > 0 {
                        assert(rest[i - 1] == p);
                        assert(rest.contains(p));
                    }
                }
            },
        }
    }
}

/// The row around a link is the list item or the table row around it, and the one that takes fewer
/// bytes where there are both.
pub proof fn law_rows_are_items_or_table_rows(low: Seq<char>, start: int, end: int)
    ensures
        ({
            let item = containing(low, "<li"@, "</li>"@, start, end);
            let row = containing(low, "<tr"@, "</tr>"@, start, end);
            let bytes = |span: (int, int)| encode_utf8(low.subrange(span.0, span.1)).len();
            &&& row is None ==> row_around(low, start, end) == item
            &&& item is None ==> row_around(low, start, end) == row
            &&& item matches Some(a) ==> (row matches Some(b) ==> row_around(low, start, end)
                == if bytes(b) < bytes(a) {
                row
            } else {
                item
            })
        }),
{
}

/// An element around a place starts with the last opening tag before it, if no closing tag stands
/// between, and ends with the first closing tag behind it.
pub proof fn law_elements_lie_around_a_place(
    low: Seq<char>,
    open: Seq<char>,
    close: Seq<char>,
    start: int,
    end: int,
    from: int,
    to: int,
)
    requires
        0 <= from <= start <= end <= to,
        start <= low.len(),
        from + open.len() <= start,
        text::at(low, open, from),
        open.len() > 0,
        forall|j: int| from < j <= start ==> !#[trigger] text::at(low.take(start), open, j),
        !text::contains(low.subrange(from, start), close),
        text::at(low, close, to),
        forall|j: int| end <= j < to ==> !#[trigger] text::at(low, close, j),
    ensures
        containing(low, open, close, start, end) == Some((from, to + close.len())),
{
    let front = low.take(start);
    assert(front.subrange(from, from + open.len()) == low.subrange(from, from + open.len()));
    assert(text::at(front, open, from));
    lemma_last_at(front, open, start, from);
    scan::lemma_first_at(low, close, end, to);
}

/// A text is found where it stands last.
proof fn lemma_last_at(s: Seq<char>, p: Seq<char>, upto: int, n: int)
    requires
        0 <= n <= upto,
        text::at(s, p, n),
        forall|j: int| n < j <= upto ==> !#[trigger] text::at(s, p, j),
    ensures
        text::rfind(s, p, upto) == Some(n),
    decreases upto - n,
{
    if n < upto {
        assert(!text::at(s, p, upto));
        lemma_last_at(s, p, upto - 1, n);
    }
}

/// Anchors are compared by what their escapes stand for, without the white space around them and in
/// lower case. A post is found by its number however that is spelled.
pub proof fn law_anchors_are_read_without_escapes(s: Seq<char>)
    requires
        !scan::percent_decoded(text::trim(s)).contains('&'),
    ensures
        anchor_name(s) == text::lower(scan::percent_decoded(text::trim(s))),
        ({
            let name = text::lower(scan::percent_decoded(text::trim(s)));
            name.len() > 0 && numbers::all_digits(name) ==> variants(s) == seq![name, "p"@ + name]
        }),
{
    let decoded = scan::percent_decoded(text::trim(s));
    assert(!Seq::<char>::empty().contains('&'));
    law_entities_stand_for_characters(decoded, Seq::empty());
}

} // verus!

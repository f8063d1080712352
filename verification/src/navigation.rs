//! The repair of links between saved pages, from the saved files alone.
use crate::html;
use crate::link_validation;
use crate::path;
use crate::pathmap;
use crate::scan;
use crate::text;
use html::{EditKind, HtmlEdit, HtmlNode, NodeKind};
use link_validation::{SiteFiles, SourceFile, UnreadableHtml};
use path::LocalPath;
use vstd::prelude::*;

verus! {

/// Whether a query key names a visitor's session.
pub open spec fn session_key(key: Seq<char>) -> bool {
    let k = text::lower(pathmap::plain_key(key));
    ||| k == "sid"@
    ||| k == "sessionid"@
    ||| k == "session_id"@
    ||| k == "phpsessid"@
    ||| k == "jsessionid"@
    ||| k == "aspsessionid"@
    ||| k == "cfid"@
    ||| k == "cftoken"@
}

/// Whether a query, as it is written, says nothing but which session it belongs to.
pub open spec fn session_query(query: Seq<char>) -> bool {
    let pieces = text::split(query, '&');
    forall|i: int|
        0 <= i < pieces.len() ==> (#[trigger] pieces[i]).len() == 0 || session_key(
            scan::before_char(pieces[i], '='),
        )
}

/// The query of a reference, as it is written.
pub open spec fn query_of(reference: Seq<char>) -> Option<Seq<char>> {
    let r = scan::before_char(reference, '#');
    match text::index_of(r, '?', 0) {
        Some(i) => Some(r.skip(i + 1)),
        None => None,
    }
}

/// The fragment of a reference, with its mark; empty where there is none.
pub open spec fn fragment_of(reference: Seq<char>) -> Seq<char> {
    match text::index_of(reference, '#', 0) {
        Some(i) => reference.skip(i),
        None => Seq::empty(),
    }
}

/// The reference to the saved page of a script: its path as it is written, the extension of pages,
/// and its fragment.
pub open spec fn page_reference(reference: Seq<char>) -> Seq<char> {
    scan::bare_path(reference) + ".html"@ + fragment_of(reference)
}

/// What a reference in a file is replaced by: where it leads to nothing, and says nothing but which
/// session it belongs to, the reference to a saved page that is not empty.
pub open spec fn repaired_reference(
    site: link_validation::SiteView,
    filled: link_validation::SiteView,
    file: path::PathView,
    href: Seq<char>,
) -> Option<Seq<char>> {
    let t = text::trim(href);
    let plain = match query_of(t) {
        Some(query) => session_query(query),
        None => true,
    };
    let found = match filled.resolve(file, page_reference(t)) {
        Some(target) => filled.files.contains(target.text()),
        None => false,
    };
    if site.lacks(file, href) && plain && found {
        Some(page_reference(t))
    } else {
        None
    }
}

/// A repaired reference leads to something, so that repairing it again changes nothing.
pub proof fn law_repaired_references_lead_somewhere(
    site: link_validation::SiteView,
    filled: link_validation::SiteView,
    file: path::PathView,
    href: Seq<char>,
)
    requires
        filled.root == site.root,
        filled.files.subset_of(site.files),
        repaired_reference(site, filled, file, href) is Some,
    ensures
        ({
            let repaired = repaired_reference(site, filled, file, href)->0;
            &&& !site.lacks(file, repaired)
            &&& repaired_reference(site, filled, file, repaired) is None
        }),
{
    let repaired = repaired_reference(site, filled, file, href)->0;
    assert(filled.resolve(file, repaired) == site.resolve(file, repaired));
}

/// Whether a query key names a visitor's session.
fn is_session_key(key: &str) -> (r: bool)
    ensures
        r == session_key(key@),
{
    let plain = pathmap::normalized_query_key(key);
    let k = text::lower_chars(&text::chars_of(plain.as_str()));
    text::is(&k, "sid") || text::is(&k, "sessionid") || text::is(&k, "session_id") || text::is(
        &k,
        "phpsessid",
    ) || text::is(&k, "jsessionid") || text::is(&k, "aspsessionid") || text::is(&k, "cfid")
        || text::is(&k, "cftoken")
}

/// Whether a query, as it is written, says nothing but which session it belongs to.
pub fn is_session_query(query: &[char]) -> (r: bool)
    ensures
        r == session_query(query@),
{
    let pieces = text::split_at_char(query, '&');
    let ghost all = text::split(query@, '&');
    let mut i: usize = 0;
    while i < pieces.len()
        invariant
            i <= pieces@.len(),
            all == text::views(pieces@),
            all == text::split(query@, '&'),
            forall|j: int|
                0 <= j < i ==> (#[trigger] all[j]).len() == 0 || session_key(
                    scan::before_char(all[j], '='),
                ),
        decreases pieces@.len() - i,
    {
        let piece = text::chars_of(pieces[i].as_str());
        proof {
            assert(all[i as int] == piece@);
        }
        if piece.len() > 0 {
            let key = text::string_of(&scan::cut_before(&piece, '='));
            if !is_session_key(key.as_str()) {
                return false;
            }
        }
        i += 1;
    }
    true
}

/// The query of a reference, as it is written.
fn written_query(reference: &[char]) -> (r: Option<Vec<char>>)
    ensures
        match r {
            Some(query) => query_of(reference@) == Some(query@),
            None => query_of(reference@) is None,
        },
{
    let rest = scan::cut_before(reference, '#');
    let n: usize = rest.len();
    match text::index_from(&rest, '?', 0) {
        Some(i) => {
            let query = text::part(&rest, i + 1, n);
            proof {
                assert(query@ == rest@.skip(i + 1));
            }
            Some(query)
        },
        None => None,
    }
}

/// The reference to the saved page of a script.
fn reference_to_page(reference: &[char]) -> (r: String)
    ensures
        r@ == page_reference(reference@),
{
    let mut out = scan::strip_query_and_fragment(reference);
    text::push_text(&mut out, ".html");
    match text::index_from(reference, '#', 0) {
        Some(i) => {
            let fragment = text::part(reference, i, reference.len());
            proof {
                assert(fragment@ == reference@.skip(i as int));
            }
            text::push_chars(&mut out, &fragment);
        },
        None => {
            proof {
                assert(out@ + Seq::<char>::empty() == out@);
            }
        },
    }
    text::string_of(&out)
}

/// What a reference in a file is replaced by: `site` holds all files, `filled` those that are not
/// empty.
pub fn repair_reference(
    site: &SiteFiles,
    filled: &SiteFiles,
    file: &LocalPath,
    href: &str,
) -> (r: Option<String>)
    ensures
        match r {
            Some(repaired) => repaired_reference(site@, filled@, file@, href@) == Some(repaired@),
            None => repaired_reference(site@, filled@, file@, href@) is None,
        },
{
    if !site.is_missing(file, href) {
        return None;
    }
    let t = text::trim_chars(&text::chars_of(href));
    if let Some(query) = written_query(&t) {
        if !is_session_query(&query) {
            return None;
        }
    }
    let repaired = reference_to_page(&t);
    match filled.resolve_local_reference(file, repaired.as_str()) {
        Some(target) => if filled.is_file(&target) {
            Some(repaired)
        } else {
            None
        },
        None => None,
    }
}

/// The links of nodes that are replaced: those of anchors and image maps.
pub open spec fn link_repairs(
    site: link_validation::SiteView,
    filled: link_validation::SiteView,
    file: path::PathView,
    nodes: Seq<html::NodeView>,
) -> Seq<html::EditView>
    decreases nodes.len(),
{
    if nodes.len() == 0 {
        Seq::empty()
    } else {
        let before = link_repairs(site, filled, file, nodes.drop_last());
        let n = nodes.last();
        let repaired = match html::attribute(n.attributes, "href"@) {
            Some(href) => repaired_reference(site, filled, file, href),
            None => None,
        };
        match repaired {
            Some(value) => if n.kind == NodeKind::Element && (n.tag == "a"@ || n.tag == "area"@) {
                before.push(
                    html::EditView { kind: EditKind::SetAttribute, at: n.at, name: "href"@, value },
                )
            } else {
                before
            },
            None => before,
        }
    }
}

/// Whether a page says that its references are to be read against another URL.
pub open spec fn has_base(nodes: Seq<html::NodeView>) -> bool {
    exists|i: int|
        0 <= i < nodes.len() && (#[trigger] nodes[i]).kind == NodeKind::Element && nodes[i].tag
            == "base"@
}

/// A page with its links repaired, and how many there were; none where nothing is to be repaired,
/// or where the page names another URL to read references against.
pub open spec fn page_with_repaired_links(
    site: link_validation::SiteView,
    filled: link_validation::SiteView,
    source: link_validation::SourceView,
) -> Result<Option<(Seq<char>, nat)>, UnreadableHtml> {
    match html::html_nodes(source.text) {
        Some(nodes) => {
            let repairs = link_repairs(site, filled, source.path, nodes);
            if has_base(nodes) || repairs.len() == 0 {
                Ok(None)
            } else {
                match html::html_edited(source.text, repairs) {
                    Some(page) => Ok(Some((page, repairs.len()))),
                    None => Err(UnreadableHtml),
                }
            }
        },
        None => Err(UnreadableHtml),
    }
}

/// Whether a page says that its references are to be read against another URL.
fn names_base(nodes: &Vec<HtmlNode>) -> (r: bool)
    ensures
        r == has_base(html::node_views(nodes@)),
{
    let ghost all = html::node_views(nodes@);
    let mut i: usize = 0;
    while i < nodes.len()
        invariant
            i <= nodes@.len(),
            all == html::node_views(nodes@),
            forall|j: int|
                0 <= j < i ==> !((#[trigger] all[j]).kind == NodeKind::Element && all[j].tag
                    == "base"@),
        decreases nodes@.len() - i,
    {
        proof {
            assert(all[i as int] == nodes@[i as int]@);
        }
        if nodes[i].kind == NodeKind::Element && text::same(nodes[i].tag.as_str(), "base") {
            return true;
        }
        i += 1;
    }
    false
}

/// Repairs the links of a page that lead to saved pages under another name. Where there are any,
/// returns the page and how many there were.
pub fn repair_local_navigation(site: &SiteFiles, filled: &SiteFiles, source: &SourceFile) -> (r:
    Result<Option<(String, usize)>, UnreadableHtml>)
    ensures
        link_validation::change_view(r) == page_with_repaired_links(site@, filled@, source@),
{
    let nodes = match html::read_nodes(source.text.as_str()) {
        Some(nodes) => nodes,
        None => {
            return Err(UnreadableHtml);
        },
    };
    let ghost all = html::node_views(nodes@);
    let mut edits: Vec<HtmlEdit> = Vec::new();
    let mut i: usize = 0;
    proof {
        assert(html::edit_views(edits@) == link_repairs(
            site@,
            filled@,
            source.path@,
            all.take(0),
        ));
    }
    while i < nodes.len()
        invariant
            i <= nodes@.len(),
            all == html::node_views(nodes@),
            html::edit_views(edits@) == link_repairs(
                site@,
                filled@,
                source.path@,
                all.take(i as int),
            ),
        decreases nodes@.len() - i,
    {
        let ghost before = html::edit_views(edits@);
        let node = &nodes[i];
        proof {
            assert(all.take(i + 1).drop_last() == all.take(i as int));
            assert(all.take(i + 1).last() == node@);
        }
        if node.kind == NodeKind::Element && (text::same(node.tag.as_str(), "a") || text::same(
            node.tag.as_str(),
            "area",
        )) {
            if let Some(href) = node.get_attribute("href") {
                if let Some(value) = repair_reference(site, filled, &source.path, href.as_str()) {
                    let edit = HtmlEdit {
                        kind: EditKind::SetAttribute,
                        at: node.at,
                        name: "href".to_owned(),
                        value,
                    };
                    edits.push(edit);
                    proof {
                        assert(html::edit_views(edits@) == before.push(edit@));
                    }
                }
            }
        }
        i += 1;
    }
    proof {
        assert(all.take(all.len() as int) == all);
        assert(edits@.len() == html::edit_views(edits@).len());
    }
    if edits.len() == 0 || names_base(&nodes) {
        return Ok(None);
    }
    let count: usize = edits.len();
    match html::apply_edits(source.text.as_str(), &edits) {
        Some(page) => Ok(Some((page, count))),
        None => Err(UnreadableHtml),
    }
}

/// A reference that leads to nothing is replaced by the one to the saved page of the same script,
/// where there is such a page and the reference has no query or one whose keys all name a session.
/// With any other key it stays.
#[verifier::spinoff_prover]
#[verifier::rlimit(50)]
pub proof fn law_session_links_lead_to_saved_pages(
    site: link_validation::SiteView,
    filled: link_validation::SiteView,
    file: path::PathView,
    script: Seq<char>,
    query: Option<Seq<Seq<char>>>,
    keys: Seq<Seq<char>>,
    values: Seq<Seq<char>>,
    fragment: Seq<char>,
    reference: Seq<char>,
    target: path::PathView,
)
    requires
        !script.contains('?'),
        !script.contains('#'),
        fragment.len() > 0 ==> fragment[0] == '#',
        query matches Some(pieces) ==> {
            &&& pieces.len() > 0
            &&& pieces.len() == keys.len()
            &&& pieces.len() == values.len()
            &&& forall|i: int|
                0 <= i < pieces.len() ==> {
                    &&& #[trigger] pieces[i] == keys[i] + "="@ + values[i]
                    &&& !pieces[i].contains('&')
                    &&& !keys[i].contains('=')
                    &&& !(keys[i].len() >= 4 && text::lower(keys[i].take(4)) == "amp;"@)
                }
            &&& !text::join(pieces, "&"@).contains('#')
        },
        reference == script + match query {
            Some(pieces) => "?"@ + text::join(pieces, "&"@),
            None => Seq::empty(),
        } + fragment,
        text::trim(reference) == reference,
        site.lacks(file, reference),
        filled.resolve(file, script + ".html"@ + fragment) == Some(target),
    ensures
        repaired_reference(site, filled, file, reference) == if filled.files.contains(target.text())
            && (query is Some ==> forall|i: int|
            0 <= i < keys.len() ==> {
                let k = text::lower(#[trigger] keys[i]);
                k == "sid"@ || k == "sessionid"@ || k == "session_id"@ || k == "phpsessid"@ || k
                    == "jsessionid"@ || k == "aspsessionid"@ || k == "cfid"@ || k == "cftoken"@
            }) {
            Some(script + ".html"@ + fragment)
        } else {
            None
        },
{
    let middle = match query {
        Some(pieces) => "?"@ + text::join(pieces, "&"@),
        None => Seq::<char>::empty(),
    };
    reveal_strlit("?");
    reveal_strlit("&");
    reveal_strlit("=");
    assert("?"@ == seq!['?'] && "&"@ == seq!['&'] && "="@ == seq!['=']);
    let whole = script + middle;
    assert(!whole.contains('#')) by {
        if whole.contains('#') {
            let k = choose|k: int| 0 <= k < whole.len() && whole[k] == '#';
            if k < script.len() {
                assert(script.contains(script[k]));
            } else if k > script.len() {
                let joined = text::join(query->Some_0, "&"@);
                assert(joined[k - script.len() - 1] == '#');
                assert(joined.contains(joined[k - script.len() - 1]));
            }
        }
    }
    if fragment.len() > 0 {
        assert(reference == whole + seq!['#'] + fragment.skip(1));
        scan::lemma_before_char(whole, '#', fragment.skip(1));
        assert(reference.skip(whole.len() as int) == fragment);
    } else {
        assert(reference == whole);
        scan::lemma_before_char(whole, '#', Seq::empty());
        assert(fragment == Seq::<char>::empty());
    }
    assert(scan::before_char(reference, '#') == whole);
    assert(fragment_of(reference) == fragment);
    match query {
        Some(pieces) => {
            let joined = text::join(pieces, "&"@);
            assert(whole == script + seq!['?'] + joined);
            scan::lemma_before_char(script, '?', joined);
            assert(whole.skip(script.len() as int + 1) == joined);
            assert(query_of(reference) == Some(joined));
            assert forall|i: int| 0 <= i < pieces.len() implies !(#[trigger] pieces[i]).contains(
                '&',
            ) by {}
            text::lemma_split_join(pieces, '&');
            assert forall|i: int| 0 <= i < pieces.len() implies (#[trigger] pieces[i]).len() > 0
                && scan::before_char(pieces[i], '=') == keys[i] && pathmap::plain_key(keys[i])
                == keys[i] by {
                assert(pieces[i] == keys[i] + "="@ + values[i]);
                scan::lemma_before_char(keys[i], '=', values[i]);
                pathmap::lemma_key_is_plain(keys[i]);
            }
            if session_query(joined) {
                assert forall|i: int| 0 <= i < keys.len() implies session_key(#[trigger] keys[i])
                    && pathmap::plain_key(keys[i]) == keys[i] by {
                    assert(pieces[i].len() > 0);
                }
            } else {
                let i = choose|i: int|
                    0 <= i < pieces.len() && !((#[trigger] pieces[i]).len() == 0 || session_key(
                        scan::before_char(pieces[i], '='),
                    ));
                assert(!session_key(keys[i]));
                assert(pathmap::plain_key(keys[i]) == keys[i]);
            }
        },
        None => {
            assert(whole == script);
            scan::lemma_before_char(script, '?', Seq::empty());
            assert(query_of(reference) is None);
        },
    }
    assert(scan::bare_path(reference) == script);
    assert(page_reference(reference) == script + ".html"@ + fragment);
}

/// A reference that leads to a file, or to no file of the site at all, is not replaced.
pub proof fn law_working_links_stay(
    site: link_validation::SiteView,
    filled: link_validation::SiteView,
    file: path::PathView,
    reference: Seq<char>,
)
    requires
        site.resolve(file, reference) matches Some(target) ==> site.serves(target),
    ensures
        repaired_reference(site, filled, file, reference) is None,
{
}

/// Whether an edit replaces the link of a node, an anchor or an image map, by the repaired one.
pub open spec fn replaces_link(
    site: link_validation::SiteView,
    filled: link_validation::SiteView,
    file: path::PathView,
    n: html::NodeView,
    edit: html::EditView,
) -> bool {
    &&& n.kind == NodeKind::Element
    &&& n.tag == "a"@ || n.tag == "area"@
    &&& edit.kind == EditKind::SetAttribute
    &&& edit.at == n.at
    &&& edit.name == "href"@
    &&& html::attribute(n.attributes, "href"@) matches Some(href) && repaired_reference(
        site,
        filled,
        file,
        href,
    ) == Some(edit.value)
}

/// Of the links of a page exactly those of anchors and image maps are replaced that can be repaired.
pub proof fn law_links_of_anchors_and_maps_are_repaired(
    site: link_validation::SiteView,
    filled: link_validation::SiteView,
    file: path::PathView,
    nodes: Seq<html::NodeView>,
    edit: html::EditView,
)
    ensures
        link_repairs(site, filled, file, nodes).contains(edit) <==> exists|i: int|
            0 <= i < nodes.len() && replaces_link(site, filled, file, #[trigger] nodes[i], edit),
    decreases nodes.len(),
{
    if nodes.len() > 0 {
        let front = nodes.drop_last();
        law_links_of_anchors_and_maps_are_repaired(site, filled, file, front, edit);
        let rest = link_repairs(site, filled, file, front);
        let all = link_repairs(site, filled, file, nodes);
        let last = nodes.last();
        let end = nodes.len() - 1;
        assert(nodes[end] == last);
        if rest.contains(edit) {
            let k = choose|k: int| 0 <= k < rest.len() && rest[k] == edit;
            assert(all[k] == edit);
            let i = choose|i: int|
                0 <= i < front.len() && replaces_link(site, filled, file, #[trigger] front[i], edit);
            assert(replaces_link(site, filled, file, nodes[i], edit));
        }
        if replaces_link(site, filled, file, last, edit) {
            assert(all[all.len() - 1] == edit);
            assert(replaces_link(site, filled, file, nodes[end], edit));
        }
        if all.contains(edit) {
            let k = choose|k: int| 0 <= k < all.len() && all[k] == edit;
            if k < rest.len() {
                assert(rest[k] == edit);
            } else {
                assert(replaces_link(site, filled, file, last, edit));
            }
        }
        if exists|i: int|
            0 <= i < nodes.len() && replaces_link(site, filled, file, #[trigger] nodes[i], edit) {
            let i = choose|i: int|
                0 <= i < nodes.len() && replaces_link(site, filled, file, #[trigger] nodes[i], edit);
            if i < front.len() {
                assert(replaces_link(site, filled, file, front[i], edit));
            }
        }
    }
}

/// A page is changed where it has links to repair and names no other URL to read them against, and
/// then all of them are; the number of links is told.
pub proof fn law_pages_with_a_base_stay(
    site: link_validation::SiteView,
    filled: link_validation::SiteView,
    source: link_validation::SourceView,
    nodes: Seq<html::NodeView>,
)
    requires
        html::html_nodes(source.text) == Some(nodes),
    ensures
        ({
            let repairs = link_repairs(site, filled, source.path, nodes);
            let based = exists|i: int|
                0 <= i < nodes.len() && (#[trigger] nodes[i]).kind == NodeKind::Element
                    && nodes[i].tag == "base"@;
            let r = page_with_repaired_links(site, filled, source);
            &&& based || repairs.len() == 0 ==> r == Ok::<Option<(Seq<char>, nat)>, UnreadableHtml>(
                None,
            )
            &&& !based && repairs.len() > 0 ==> (html::html_edited(
                source.text,
                repairs,
            ) matches Some(page) ==> r == Ok::<Option<(Seq<char>, nat)>, UnreadableHtml>(
                Some((page, repairs.len())),
            ))
        }),
{
}

} // verus!

//! HTML documents as lists of elements and script or style texts, read and changed by `lol_html`.
use crate::order;
use crate::text;
use crate::urls;
use lol_html::html_content::{ContentType, Element, TextChunk};
use lol_html::{rewrite_str, ElementContentHandlers, HandlerResult, Settings};
use std::borrow::Cow;
use std::cell::{Cell, RefCell};
use vstd::prelude::*;

verus! {

/// What a node of a document is.
#[derive(Debug, Clone, Copy, PartialEq, Eq, Structural)]
pub enum NodeKind {
    Element,
    StyleText,
    ScriptText,
}

/// An element's start tag, or a piece of text in a `style` or `script` element.
#[derive(Debug)]
pub struct HtmlNode {
    pub kind: NodeKind,
    /// Where it starts in the document, in bytes.
    pub at: usize,
    /// The name of the element, in lower case.
    pub tag: String,
    /// The attributes with their names in lower case, their values as they are written.
    pub attributes: Vec<(String, String)>,
    /// The text.
    pub text: String,
}

/// The mathematical form of a node.
#[verifier::ext_equal]
pub struct NodeView {
    pub kind: NodeKind,
    pub at: usize,
    pub tag: Seq<char>,
    pub attributes: Seq<(Seq<char>, Seq<char>)>,
    pub text: Seq<char>,
}

impl View for HtmlNode {
    type V = NodeView;

    open spec fn view(&self) -> NodeView {
        NodeView {
            kind: self.kind,
            at: self.at,
            tag: self.tag@,
            attributes: urls::pair_views(self.attributes@),
            text: self.text@,
        }
    }
}

/// The views of a list of nodes.
pub open spec fn node_views(nodes: Seq<HtmlNode>) -> Seq<NodeView> {
    Seq::new(nodes.len(), |i: int| nodes[i]@)
}

/// What an edit does.
#[derive(Debug, Clone, Copy, PartialEq, Eq, Structural)]
pub enum EditKind {
    /// Gives an attribute a value.
    SetAttribute,
    /// Takes an attribute away.
    RemoveAttribute,
    /// Takes an element away, with what it holds.
    RemoveElement,
    /// Puts other text in the place of a style or script text.
    ReplaceText,
}

/// One change of a document, at the node that starts at `at`.
#[derive(Debug)]
pub struct HtmlEdit {
    pub kind: EditKind,
    pub at: usize,
    /// The attribute.
    pub name: String,
    /// The value or the text.
    pub value: String,
}

/// The mathematical form of an edit.
#[verifier::ext_equal]
pub struct EditView {
    pub kind: EditKind,
    pub at: usize,
    pub name: Seq<char>,
    pub value: Seq<char>,
}

impl View for HtmlEdit {
    type V = EditView;

    open spec fn view(&self) -> EditView {
        EditView { kind: self.kind, at: self.at, name: self.name@, value: self.value@ }
    }
}

/// The views of a list of edits.
pub open spec fn edit_views(edits: Seq<HtmlEdit>) -> Seq<EditView> {
    Seq::new(edits.len(), |i: int| edits[i]@)
}

/// The elements that `lol_html` finds in a document, in order: where each starts, its name and its
/// attributes.
pub uninterp spec fn html_elements(input: Seq<char>) -> Option<
    Seq<(usize, Seq<char>, Seq<(Seq<char>, Seq<char>)>)>,
>;

/// The text chunks that `lol_html` finds in the elements that a selector matches, in order: where
/// each starts, and its text.
pub uninterp spec fn html_texts(input: Seq<char>, selector: Seq<char>) -> Option<
    Seq<(usize, Seq<char>)>,
>;

/// A document that `lol_html` has changed.
pub uninterp spec fn html_edited(input: Seq<char>, edits: Seq<EditView>) -> Option<Seq<char>>;

/// Whether `lol_html` meets an element that a selector matches.
pub uninterp spec fn html_matches(input: Seq<char>, selector: Seq<char>) -> bool;

/// A text after `html_escape::decode_html_entities`.
pub uninterp spec fn entities_decoded(input: Seq<char>) -> Seq<char>;

/// The view of a list of elements.
pub open spec fn element_list(elements: Seq<(usize, String, Vec<(String, String)>)>) -> Seq<
    (usize, Seq<char>, Seq<(Seq<char>, Seq<char>)>),
> {
    Seq::new(
        elements.len(),
        |i: int| (elements[i].0, elements[i].1@, urls::pair_views(elements[i].2@)),
    )
}

/// The view of a list of texts.
pub open spec fn text_list(texts: Seq<(usize, String)>) -> Seq<(usize, Seq<char>)> {
    Seq::new(texts.len(), |i: int| (texts[i].0, texts[i].1@))
}

/// `lol_html::rewrite_str` with a handler that copies out every element (`Element::source_location`,
/// `tag_name` and `attributes`); `None` where the document cannot be rewritten. The result is named.
/// The attribute values are pieces of the document, so none is longer than it.
#[verifier::external_body]
fn read_elements(input: &str) -> (r: Option<Vec<(usize, String, Vec<(String, String)>)>>)
    ensures
        match r {
            Some(elements) => html_elements(input@) == Some(element_list(elements@)),
            None => html_elements(input@) is None,
        },
        r matches Some(elements) ==> forall|i: int, j: int|
            0 <= i < elements@.len() && 0 <= j < elements@[i].2@.len() ==> (
            #[trigger] elements@[i].2@[j]).1@.len() <= input@.len(),
{
    let found = RefCell::new(Vec::new());
    let keep = |e: &mut Element<'_, '_>| -> HandlerResult {
        let attributes = e.attributes().iter().map(|a| (a.name(), a.value())).collect();
        found.borrow_mut().push((e.source_location().bytes().start, e.tag_name(), attributes));
        Ok(())
    };
    let handlers = ElementContentHandlers::default().element(keep);
    let element_content_handlers = vec![(Cow::Owned("*".parse().ok()?), handlers)];
    rewrite_str(input, Settings { element_content_handlers, ..Settings::new() }).ok()?;
    Some(found.into_inner())
}

/// `lol_html::rewrite_str` with a handler that copies out the text chunks in the elements that the
/// selector matches; `None` where the selector is none or the document cannot be rewritten. The
/// result is named. The texts are pieces of the document, so none is longer than it.
#[verifier::external_body]
pub(crate) fn read_texts(input: &str, selector: &str) -> (r: Option<Vec<(usize, String)>>)
    ensures
        match r {
            Some(texts) => html_texts(input@, selector@) == Some(text_list(texts@)),
            None => html_texts(input@, selector@) is None,
        },
        r matches Some(texts) ==> forall|i: int|
            0 <= i < texts@.len() ==> (#[trigger] texts@[i]).1@.len() <= input@.len(),
{
    let found = RefCell::new(Vec::new());
    let keep = |t: &mut TextChunk<'_>| -> HandlerResult {
        found.borrow_mut().push((t.source_location().bytes().start, t.as_str().to_owned()));
        Ok(())
    };
    let handlers = ElementContentHandlers::default().text(keep);
    let element_content_handlers = vec![(Cow::Owned(selector.parse().ok()?), handlers)];
    rewrite_str(input, Settings { element_content_handlers, ..Settings::new() }).ok()?;
    Some(found.into_inner())
}

/// The names and values of the edits of one kind at one place.
pub open spec fn edits_for(edits: Seq<EditView>, kind: EditKind, at: usize) -> Seq<
    (Seq<char>, Seq<char>),
>
    decreases edits.len(),
{
    if edits.len() == 0 {
        Seq::empty()
    } else {
        let rest = edits_for(edits.drop_last(), kind, at);
        if edits.last().kind == kind && edits.last().at == at {
            rest.push((edits.last().name, edits.last().value))
        } else {
            rest
        }
    }
}

/// The names and values of the edits of one kind at one place.
fn edits_at(edits: &Vec<HtmlEdit>, kind: EditKind, at: usize) -> (r: Vec<(String, String)>)
    ensures
        urls::pair_views(r@) == edits_for(edit_views(edits@), kind, at),
{
    let ghost all = edit_views(edits@);
    let mut r: Vec<(String, String)> = Vec::new();
    let mut i: usize = 0;
    proof {
        assert(urls::pair_views(r@) == edits_for(all.take(0), kind, at));
    }
    while i < edits.len()
        invariant
            i <= edits@.len(),
            all == edit_views(edits@),
            urls::pair_views(r@) == edits_for(all.take(i as int), kind, at),
        decreases edits@.len() - i,
    {
        let ghost before = urls::pair_views(r@);
        proof {
            assert(all.take(i + 1).drop_last() == all.take(i as int));
            assert(all.take(i + 1).last() == edits@[i as int]@);
        }
        if edits[i].kind == kind && edits[i].at == at {
            r.push((edits[i].name.clone(), edits[i].value.clone()));
            proof {
                assert(urls::pair_views(r@) == before.push((edits@[i as int].name@, edits@[i as int].value@)));
            }
        }
        i += 1;
    }
    proof {
        assert(all.take(all.len() as int) == all);
    }
    r
}

/// The first texts of pairs.
pub open spec fn firsts(pairs: Seq<(Seq<char>, Seq<char>)>) -> Seq<Seq<char>> {
    Seq::new(pairs.len(), |i: int| pairs[i].0)
}

/// The second texts of pairs.
pub open spec fn seconds(pairs: Seq<(Seq<char>, Seq<char>)>) -> Seq<Seq<char>> {
    Seq::new(pairs.len(), |i: int| pairs[i].1)
}

/// Parts a list of pairs.
fn unzip(pairs: Vec<(String, String)>) -> (r: (Vec<String>, Vec<String>))
    ensures
        text::views(r.0@) == firsts(urls::pair_views(pairs@)),
        text::views(r.1@) == seconds(urls::pair_views(pairs@)),
{
    let ghost all = urls::pair_views(pairs@);
    let mut a: Vec<String> = Vec::new();
    let mut b: Vec<String> = Vec::new();
    let mut i: usize = 0;
    while i < pairs.len()
        invariant
            i <= pairs@.len(),
            all == urls::pair_views(pairs@),
            text::views(a@) == firsts(all).take(i as int),
            text::views(b@) == seconds(all).take(i as int),
        decreases pairs@.len() - i,
    {
        let ghost x = text::views(a@);
        let ghost y = text::views(b@);
        a.push(pairs[i].0.clone());
        b.push(pairs[i].1.clone());
        i += 1;
        proof {
            assert(text::views(a@) == x.push(all[i - 1].0));
            assert(text::views(b@) == y.push(all[i - 1].1));
            assert(firsts(all).take(i as int) == firsts(all).take(i - 1).push(all[i - 1].0));
            assert(seconds(all).take(i as int) == seconds(all).take(i - 1).push(all[i - 1].1));
        }
    }
    proof {
        assert(firsts(all).take(pairs@.len() as int) == firsts(all));
        assert(seconds(all).take(pairs@.len() as int) == seconds(all));
    }
    (a, b)
}

/// The edits of an element: the attributes to set, those to remove, and its own removals.
fn element_edits_at(edits: &Vec<HtmlEdit>, at: usize) -> (r: (
    Vec<(String, String)>,
    Vec<String>,
    Vec<String>,
))
    ensures
        urls::pair_views(r.0@) == edits_for(edit_views(edits@), EditKind::SetAttribute, at),
        text::views(r.1@) == firsts(edits_for(edit_views(edits@), EditKind::RemoveAttribute, at)),
        text::views(r.2@) == firsts(edits_for(edit_views(edits@), EditKind::RemoveElement, at)),
{
    let (unset, _) = unzip(edits_at(edits, EditKind::RemoveAttribute, at));
    let (removed, _) = unzip(edits_at(edits, EditKind::RemoveElement, at));
    (edits_at(edits, EditKind::SetAttribute, at), unset, removed)
}

/// The texts that take the place of a text.
fn text_edits_at(edits: &Vec<HtmlEdit>, at: usize) -> (r: Vec<String>)
    ensures
        text::views(r@) == seconds(edits_for(edit_views(edits@), EditKind::ReplaceText, at)),
{
    let (_, texts) = unzip(edits_at(edits, EditKind::ReplaceText, at));
    texts
}

/// `lol_html::rewrite_str` with handlers that make each edit at the node that starts where it says,
/// by `Element::set_attribute`, `Element::remove_attribute`, `Element::remove` and
/// `TextChunk::replace`; `None` where the document cannot be rewritten or an attribute cannot have
/// the name. The result is named.
#[verifier::external_body]
pub(crate) fn apply_edits(input: &str, edits: &Vec<HtmlEdit>) -> (r: Option<String>)
    ensures
        urls::option_view(r) == html_edited(input@, edit_views(edits@)),
{
    let all = ElementContentHandlers::default().element(|e: &mut Element| {
        let (set, unset, removed) = element_edits_at(edits, e.source_location().bytes().start);
        for (name, value) in set { e.set_attribute(&name, &value)?; }
        for name in unset { e.remove_attribute(&name); }
        for _ in removed { e.remove(); }
        Ok(())
    }).text(|t: &mut TextChunk| {
        for text in text_edits_at(edits, t.source_location().bytes().start) { t.replace(&text, ContentType::Text); }
        Ok(())
    });
    let element_content_handlers = vec![(Cow::Owned("*".parse().ok()?), all)];
    rewrite_str(input, Settings { element_content_handlers, ..Settings::new() }).ok()
}

/// `lol_html::rewrite_str` with an element handler for the selector; tells whether it was called.
/// The result is named.
#[verifier::external_body]
pub(crate) fn has_match(input: &str, selector: &str) -> (r: bool)
    ensures
        r == html_matches(input@, selector@),
{
    let found = Cell::new(false);
    let note = |_: &mut Element<'_, '_>| -> HandlerResult { Ok(found.set(true)) };
    let Ok(wanted) = selector.parse() else { return false };
    let handlers = ElementContentHandlers::default().element(note);
    let element_content_handlers = vec![(Cow::Owned(wanted), handlers)];
    rewrite_str(input, Settings { element_content_handlers, ..Settings::new() }).ok();
    found.get()
}

/// `html_escape::decode_html_entities`. The result is named.
#[verifier::external_body]
pub(crate) fn decode_entities(input: &str) -> (r: String)
    ensures
        r@ == entities_decoded(input@),
{
    html_escape::decode_html_entities(input).into_owned()
}

/// The first value of an attribute.
pub open spec fn attribute(attributes: Seq<(Seq<char>, Seq<char>)>, name: Seq<char>) -> Option<
    Seq<char>,
>
    decreases attributes.len(),
{
    if attributes.len() == 0 {
        None
    } else if attributes[0].0 == name {
        Some(attributes[0].1)
    } else {
        attribute(attributes.drop_first(), name)
    }
}

impl HtmlNode {
    /// The first value of an attribute.
    pub fn get_attribute(&self, name: &str) -> (r: Option<String>)
        ensures
            urls::option_view(r) == attribute(self@.attributes, name@),
    {
        let ghost all = self@.attributes;
        let mut i: usize = 0;
        proof {
            assert(all.skip(0) == all);
        }
        while i < self.attributes.len()
            invariant
                i <= self.attributes@.len(),
                all == self@.attributes,
                attribute(all, name@) == attribute(all.skip(i as int), name@),
            decreases self.attributes@.len() - i,
        {
            proof {
                assert(all.skip(i as int)[0] == (
                    self.attributes@[i as int].0@,
                    self.attributes@[i as int].1@,
                ));
                assert(all.skip(i as int).drop_first() == all.skip(i + 1));
            }
            if text::same(self.attributes[i].0.as_str(), name) {
                return Some(self.attributes[i].1.clone());
            }
            i += 1;
        }
        None
    }
}

/// The order of nodes by where they start.
pub struct ByPlace;

impl order::Preorder<NodeView> for ByPlace {
    open spec fn le(a: NodeView, b: NodeView) -> bool {
        a.at <= b.at
    }

    proof fn total(a: NodeView, b: NodeView) {
    }

    proof fn transitive(a: NodeView, b: NodeView, c: NodeView) {
    }
}

impl order::Arranges<HtmlNode> for ByPlace {
    fn precedes(a: &HtmlNode, b: &HtmlNode) -> (r: bool) {
        a.at <= b.at
    }
}

/// The nodes of elements.
pub open spec fn element_nodes(
    elements: Seq<(usize, Seq<char>, Seq<(Seq<char>, Seq<char>)>)>,
) -> Seq<NodeView> {
    Seq::new(
        elements.len(),
        |i: int|
            NodeView {
                kind: NodeKind::Element,
                at: elements[i].0,
                tag: elements[i].1,
                attributes: elements[i].2,
                text: Seq::empty(),
            },
    )
}

/// The nodes of texts.
pub open spec fn text_nodes(texts: Seq<(usize, Seq<char>)>, kind: NodeKind) -> Seq<NodeView> {
    Seq::new(
        texts.len(),
        |i: int|
            NodeView {
                kind,
                at: texts[i].0,
                tag: Seq::empty(),
                attributes: Seq::empty(),
                text: texts[i].1,
            },
    )
}

/// The elements of a document and the texts of its styles and scripts, in document order.
pub open spec fn html_nodes(input: Seq<char>) -> Option<Seq<NodeView>> {
    match (html_elements(input), html_texts(input, "style"@), html_texts(input, "script"@)) {
        (Some(elements), Some(styles), Some(scripts)) => Some(
            order::sort_of::<NodeView, ByPlace>(
                element_nodes(elements) + text_nodes(styles, NodeKind::StyleText) + text_nodes(
                    scripts,
                    NodeKind::ScriptText,
                ),
            ),
        ),
        _ => None,
    }
}

/// Whether no text and no attribute value of a node is longer than `n`.
pub open spec fn is_within(node: NodeView, n: nat) -> bool {
    node.text.len() <= n && forall|j: int|
        0 <= j < node.attributes.len() ==> (#[trigger] node.attributes[j]).1.len() <= n
}

/// Whether none of the nodes is longer than `n`.
pub open spec fn all_within(nodes: Seq<NodeView>, n: nat) -> bool {
    forall|i: int| 0 <= i < nodes.len() ==> is_within(#[trigger] nodes[i], n)
}

/// Appends the nodes of texts.
fn push_texts(nodes: &mut Vec<HtmlNode>, texts: Vec<(usize, String)>, kind: NodeKind)
    ensures
        node_views(final(nodes)@) == node_views(old(nodes)@) + text_nodes(text_list(texts@), kind),
{
    let ghost start = node_views(nodes@);
    let ghost all = text_nodes(text_list(texts@), kind);
    let mut i: usize = 0;
    while i < texts.len()
        invariant
            i <= texts@.len(),
            all == text_nodes(text_list(texts@), kind),
            node_views(nodes@) == start + all.take(i as int),
        decreases texts@.len() - i,
    {
        let ghost before = node_views(nodes@);
        let node = HtmlNode {
            kind,
            at: texts[i].0,
            tag: String::new(),
            attributes: Vec::new(),
            text: texts[i].1.clone(),
        };
        proof {
            assert(node@.attributes == Seq::<(Seq<char>, Seq<char>)>::empty());
            assert(node@ == all[i as int]);
        }
        nodes.push(node);
        i += 1;
        proof {
            assert(node_views(nodes@) == before.push(all[i - 1]));
            assert(all.take(i as int) == all.take(i - 1).push(all[i - 1]));
        }
    }
    proof {
        assert(all.take(texts@.len() as int) == all);
    }
}

/// Sorting keeps the bound on the nodes.
proof fn lemma_sorted_within(nodes: Seq<NodeView>, n: nat)
    requires
        all_within(nodes, n),
    ensures
        all_within(order::sort_of::<NodeView, ByPlace>(nodes), n),
{
    let sorted = order::sort_of::<NodeView, ByPlace>(nodes);
    order::lemma_sort_of::<NodeView, ByPlace>(nodes);
    assert forall|i: int| 0 <= i < sorted.len() implies is_within(#[trigger] sorted[i], n) by {
        assert(sorted.contains(sorted[i]));
        let k = choose|k: int| 0 <= k < nodes.len() && nodes[k] == sorted[i];
        assert(is_within(nodes[k], n));
    }
}

/// The elements of a document and the texts of its styles and scripts, in document order; `None`
/// where the document cannot be read.
pub fn read_nodes(input: &str) -> (r: Option<Vec<HtmlNode>>)
    ensures
        match r {
            Some(nodes) => html_nodes(input@) == Some(node_views(nodes@)),
            None => html_nodes(input@) is None,
        },
        r matches Some(nodes) ==> all_within(node_views(nodes@), input@.len()),
{
    let elements = match read_elements(input) {
        Some(elements) => elements,
        None => {
            return None;
        },
    };
    let styles = match read_texts(input, "style") {
        Some(texts) => texts,
        None => {
            return None;
        },
    };
    let scripts = match read_texts(input, "script") {
        Some(texts) => texts,
        None => {
            return None;
        },
    };
    let ghost all = element_nodes(element_list(elements@));
    let mut nodes: Vec<HtmlNode> = Vec::new();
    let mut i: usize = 0;
    proof {
        assert(node_views(nodes@) == all.take(0));
    }
    while i < elements.len()
        invariant
            i <= elements@.len(),
            all == element_nodes(element_list(elements@)),
            node_views(nodes@) == all.take(i as int),
        decreases elements@.len() - i,
    {
        let ghost before = node_views(nodes@);
        let node = HtmlNode {
            kind: NodeKind::Element,
            at: elements[i].0,
            tag: elements[i].1.clone(),
            attributes: urls::clone_pairs(&elements[i].2),
            text: String::new(),
        };
        proof {
            assert(node@ == all[i as int]);
        }
        nodes.push(node);
        i += 1;
        proof {
            assert(node_views(nodes@) == before.push(all[i - 1]));
            assert(all.take(i as int) == all.take(i - 1).push(all[i - 1]));
        }
    }
    proof {
        assert(all.take(elements@.len() as int) == all);
    }
    push_texts(&mut nodes, styles, NodeKind::StyleText);
    push_texts(&mut nodes, scripts, NodeKind::ScriptText);
    proof {
        let whole = node_views(nodes@);
        let s = text_nodes(text_list(styles@), NodeKind::StyleText);
        assert(whole == all + s + text_nodes(text_list(scripts@), NodeKind::ScriptText));
        assert forall|i: int| 0 <= i < whole.len() implies is_within(
            #[trigger] whole[i],
            input@.len(),
        ) by {
            if i < all.len() {
                assert(whole[i] == all[i]);
                assert forall|j: int| 0 <= j < whole[i].attributes.len() implies (
                #[trigger] whole[i].attributes[j]).1.len() <= input@.len() by {
                    assert(elements@[i].2@[j].1@.len() <= input@.len());
                }
            } else if i < all.len() + s.len() {
                let k = i - all.len();
                assert(whole[i] == s[k]);
                assert(styles@[k].1@.len() <= input@.len());
            } else {
                let k = i - all.len() - s.len();
                assert(scripts@[k].1@.len() <= input@.len());
            }
        }
        lemma_sorted_within(whole, input@.len());
    }
    let sorted = order::sort::<HtmlNode, ByPlace>(nodes);
    proof {
        assert(node_views(sorted@) == order::keys(sorted@));
        assert(node_views(nodes@) == order::keys(nodes@));
    }
    Some(sorted)
}

/// The nodes of a document are its elements with their attributes, and the texts in its `style` and
/// `script` elements; they come in the order in which they stand in the document.
pub proof fn law_nodes_of_a_document(
    input: Seq<char>,
    elements: Seq<(usize, Seq<char>, Seq<(Seq<char>, Seq<char>)>)>,
    styles: Seq<(usize, Seq<char>)>,
    scripts: Seq<(usize, Seq<char>)>,
    n: NodeView,
)
    requires
        html_elements(input) == Some(elements),
        html_texts(input, "style"@) == Some(styles),
        html_texts(input, "script"@) == Some(scripts),
    ensures
        ({
            let nodes = html_nodes(input);
            &&& nodes is Some
            &&& forall|i: int, j: int|
                0 <= i < j < nodes->Some_0.len() ==> (#[trigger] nodes->Some_0[i]).at <= (
                #[trigger] nodes->Some_0[j]).at
            &&& nodes->Some_0.len() == elements.len() + styles.len() + scripts.len()
            &&& n.kind == NodeKind::Element ==> (nodes->Some_0.contains(n) <==> n.text.len() == 0
                && elements.contains((n.at, n.tag, n.attributes)))
            &&& n.kind == NodeKind::StyleText ==> (nodes->Some_0.contains(n) <==> n.tag.len() == 0
                && n.attributes.len() == 0 && styles.contains((n.at, n.text)))
            &&& n.kind == NodeKind::ScriptText ==> (nodes->Some_0.contains(n) <==> n.tag.len() == 0
                && n.attributes.len() == 0 && scripts.contains((n.at, n.text)))
        }),
{
    let a = element_nodes(elements);
    let b = text_nodes(styles, NodeKind::StyleText);
    let c = text_nodes(scripts, NodeKind::ScriptText);
    let all = a + b + c;
    order::lemma_sort_of::<NodeView, ByPlace>(all);
    let nodes = html_nodes(input)->Some_0;
    assert(nodes == order::sort_of::<NodeView, ByPlace>(all));
    assert(nodes.contains(n) <==> all.contains(n));
    lemma_in_all(a, b, c, n);
    lemma_element_node(elements, n);
    lemma_text_node(styles, NodeKind::StyleText, n);
    lemma_text_node(scripts, NodeKind::ScriptText, n);
}

/// What stands in three lists together.
proof fn lemma_in_all(a: Seq<NodeView>, b: Seq<NodeView>, c: Seq<NodeView>, n: NodeView)
    ensures
        (a + b + c).contains(n) <==> a.contains(n) || b.contains(n) || c.contains(n),
{
    let all = a + b + c;
    if a.contains(n) {
        let k = choose|k: int| 0 <= k < a.len() && a[k] == n;
        assert(all[k] == n);
    }
    if b.contains(n) {
        let k = choose|k: int| 0 <= k < b.len() && b[k] == n;
        assert(all[a.len() + k] == n);
    }
    if c.contains(n) {
        let k = choose|k: int| 0 <= k < c.len() && c[k] == n;
        assert(all[a.len() + b.len() + k] == n);
    }
    if all.contains(n) {
        let k = choose|k: int| 0 <= k < all.len() && all[k] == n;
        if k < a.len() {
            assert(a[k] == n);
        } else if k < a.len() + b.len() {
            assert(b[k - a.len()] == n);
        } else {
            assert(c[k - a.len() - b.len()] == n);
        }
    }
}

/// The nodes of elements.
proof fn lemma_element_node(
    elements: Seq<(usize, Seq<char>, Seq<(Seq<char>, Seq<char>)>)>,
    n: NodeView,
)
    ensures
        element_nodes(elements).contains(n) <==> n.kind == NodeKind::Element && n.text.len() == 0
            && elements.contains((n.at, n.tag, n.attributes)),
{
    let nodes = element_nodes(elements);
    if nodes.contains(n) {
        let k = choose|k: int| 0 <= k < nodes.len() && nodes[k] == n;
        assert(elements[k] == (n.at, n.tag, n.attributes));
    }
    if n.kind == NodeKind::Element && n.text.len() == 0 && elements.contains(
        (n.at, n.tag, n.attributes),
    ) {
        let k = choose|k: int|
            0 <= k < elements.len() && elements[k] == (n.at, n.tag, n.attributes);
        assert(n.text == Seq::<char>::empty());
        assert(nodes[k] == n);
    }
}

/// The nodes of texts.
proof fn lemma_text_node(texts: Seq<(usize, Seq<char>)>, kind: NodeKind, n: NodeView)
    ensures
        text_nodes(texts, kind).contains(n) <==> n.kind == kind && n.tag.len() == 0
            && n.attributes.len() == 0 && texts.contains((n.at, n.text)),
{
    let nodes = text_nodes(texts, kind);
    if nodes.contains(n) {
        let k = choose|k: int| 0 <= k < nodes.len() && nodes[k] == n;
        assert(texts[k] == (n.at, n.text));
    }
    if n.kind == kind && n.tag.len() == 0 && n.attributes.len() == 0 && texts.contains(
        (n.at, n.text),
    ) {
        let k = choose|k: int| 0 <= k < texts.len() && texts[k] == (n.at, n.text);
        assert(n.tag == Seq::<char>::empty());
        assert(n.attributes == Seq::<(Seq<char>, Seq<char>)>::empty());
        assert(nodes[k] == n);
    }
}

/// Of several attributes with one name the first counts.
pub proof fn law_first_attribute_counts(
    before: Seq<(Seq<char>, Seq<char>)>,
    name: Seq<char>,
    value: Seq<char>,
    after: Seq<(Seq<char>, Seq<char>)>,
)
    requires
        forall|i: int| 0 <= i < before.len() ==> (#[trigger] before[i]).0 != name,
    ensures
        attribute(before + seq![(name, value)] + after, name) == Some(value),
        attribute(before, name) is None,
    decreases before.len(),
{
    let all = before + seq![(name, value)] + after;
    if before.len() > 0 {
        let rest = before.drop_first();
        assert forall|i: int| 0 <= i < rest.len() implies (#[trigger] rest[i]).0 != name by {
            assert(rest[i] == before[i + 1]);
        }
        law_first_attribute_counts(rest, name, value, after);
        assert(all.drop_first() == rest + seq![(name, value)] + after);
        assert(all[0] == before[0]);
    } else {
        assert(all[0] == (name, value));
    }
}

/// The edits of one kind at one place are those of a list that are of the kind and at the place, in
/// order.
pub proof fn law_edits_belong_to_their_place(
    edits: Seq<EditView>,
    edit: EditView,
    kind: EditKind,
    at: usize,
)
    ensures
        edits_for(Seq::empty(), kind, at) == Seq::<(Seq<char>, Seq<char>)>::empty(),
        edits_for(edits.push(edit), kind, at) == if edit.kind == kind && edit.at == at {
            edits_for(edits, kind, at).push((edit.name, edit.value))
        } else {
            edits_for(edits, kind, at)
        },
{
    assert(edits.push(edit).drop_last() == edits);
}

} // verus!

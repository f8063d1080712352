//! Missing static files of a saved site: which can be recovered, and which have a copy under a
//! similar name.
use crate::alias_repair;
use crate::captures;
use crate::cdx;
use crate::download_refs;
use crate::link_validation;
use crate::maps::TextMap;
use crate::numbers;
use crate::order;
use crate::path;
use crate::pathmap;
use crate::retry;
use crate::text;
use alias_repair::AliasCopy;
use captures::RecordLookup;
use cdx::CdxRecord;
use link_validation::{MissingLocalLink, SiteFiles, SourceFile};
use path::LocalPath;
use vstd::prelude::*;

verus! {

/// Whether a path is that of a static file that can be recovered.
pub open spec fn static_asset(p: path::PathView) -> bool {
    p.extension() matches Some(e) && download_refs::static_extension(text::lower(e))
}

/// Whether a path is that of a static file that can be recovered.
pub fn is_recoverable_static_asset(p: &LocalPath) -> (r: bool)
    ensures
        r == static_asset(p@),
{
    match p.extension() {
        Some(e) => download_refs::is_static_resource_extension(
            &text::lower_chars(&text::chars_of(e.as_str())),
        ),
        None => false,
    }
}

/// Whether a text starts with a digit.
pub open spec fn digit_first(s: Seq<char>) -> bool {
    s.len() > 0 && numbers::is_digit(s[0])
}

/// The other name of a screenshot: `screen` and `screenshot` before a number stand for each other.
pub open spec fn alias_stem(stem: Seq<char>) -> Option<Seq<char>> {
    let short = "screen"@;
    let long = "screenshot"@;
    if text::starts_with(stem, short) && digit_first(stem.skip(short.len() as int)) {
        Some(long + stem.skip(short.len() as int))
    } else if text::starts_with(stem, long) && digit_first(stem.skip(long.len() as int)) {
        Some(short + stem.skip(long.len() as int))
    } else {
        None
    }
}

/// What follows a prefix, where a text starts with it and a digit comes next.
fn number_behind(stem: &[char], prefix: &str) -> (r: Option<Vec<char>>)
    ensures
        match r {
            Some(rest) => text::starts_with(stem@, prefix@) && rest@ == stem@.skip(
                prefix@.len() as int,
            ) && digit_first(rest@),
            None => !(text::starts_with(stem@, prefix@) && digit_first(
                stem@.skip(prefix@.len() as int),
            )),
        },
{
    let front = text::chars_of(prefix);
    if !text::is_at(stem, &front, 0) {
        return None;
    }
    let rest = text::part(stem, front.len(), stem.len());
    proof {
        assert(rest@ == stem@.skip(front@.len() as int));
    }
    if rest.len() > 0 && '0' <= rest[0] && rest[0] <= '9' {
        Some(rest)
    } else {
        None
    }
}

/// The other name of a screenshot.
pub fn static_asset_alias_stem(stem: &str) -> (r: Option<String>)
    ensures
        match r {
            Some(other) => alias_stem(stem@) == Some(other@),
            None => alias_stem(stem@) is None,
        },
{
    let s = text::chars_of(stem);
    if let Some(rest) = number_behind(&s, "screen") {
        let mut other = text::chars_of("screenshot");
        text::push_chars(&mut other, &rest);
        return Some(text::string_of(&other));
    }
    if let Some(rest) = number_behind(&s, "screenshot") {
        let mut other = text::chars_of("screen");
        text::push_chars(&mut other, &rest);
        return Some(text::string_of(&other));
    }
    None
}

/// The other name of the other name is the name itself.
pub proof fn law_alias_stems_are_mutual(stem: Seq<char>)
    ensures
        alias_stem(stem) matches Some(other) ==> alias_stem(other) == Some(stem),
{
    let short = "screen"@;
    let long = "screenshot"@;
    reveal_strlit("screen");
    reveal_strlit("screenshot");
    assert(long.take(6) == short);
    if let Some(other) = alias_stem(stem) {
        if text::starts_with(stem, short) && digit_first(stem.skip(6)) {
            let rest = stem.skip(6);
            assert(other == long + rest);
            assert(other.subrange(0, 10) == long);
            assert(other.skip(10) == rest);
            assert(other.skip(6)[0] == 's');
            assert(stem == short + rest) by {
                assert(stem.subrange(0, 6) == short);
                assert(stem == stem.subrange(0, 6) + stem.skip(6));
            }
        } else {
            let rest = stem.skip(10);
            assert(other == short + rest);
            assert(other.subrange(0, 6) == short);
            assert(other.skip(6) == rest);
            assert(stem == long + rest) by {
                assert(stem.subrange(0, 10) == long);
                assert(stem == stem.subrange(0, 10) + stem.skip(10));
            }
        }
    }
}

/// The path under which a missing static file may be kept, if its name has another form.
pub open spec fn alias_candidate(target: path::PathView) -> Option<path::PathView> {
    match target.file_name() {
        Some(name) => match text::rindex_of(name, '.', name.len() - 1) {
            Some(i) => match alias_stem(name.take(i)) {
                Some(stem) => Some(
                    target.with_file_name(stem + "."@ + name.skip(i + 1)),
                ),
                None => None,
            },
            None => None,
        },
        None => None,
    }
}

/// The path under which a missing static file may be kept.
pub fn static_asset_alias_candidate(target: &LocalPath) -> (r: Option<LocalPath>)
    ensures
        match r {
            Some(p) => alias_candidate(target@) == Some(p@),
            None => alias_candidate(target@) is None,
        },
{
    let name = match target.file_name() {
        Some(name) => text::chars_of(name.as_str()),
        None => {
            return None;
        },
    };
    let n: usize = name.len();
    match text::last_index(&name, '.') {
        Some(i) => {
            proof {
                assert(name@.subrange(0, i as int) == name@.take(i as int));
                assert(name@.subrange(i + 1, n as int) == name@.skip(i + 1));
            }
            match static_asset_alias_stem(text::cut_string(&name, 0, i).as_str()) {
                Some(stem) => {
                    let mut other = text::chars_of(stem.as_str());
                    text::push_text(&mut other, ".");
                    text::push_chars(&mut other, &text::part(&name, i + 1, n));
                    Some(target.with_file_name(text::string_of(&other).as_str()))
                },
                None => None,
            }
        },
        None => None,
    }
}

/// The paths under which a missing static file may be kept.
pub fn static_asset_alias_candidates(target: &LocalPath) -> (r: Vec<LocalPath>)
    ensures
        order::keys(r@) == (match alias_candidate(target@) {
            Some(p) => seq![p],
            None => Seq::empty(),
        }),
{
    let mut found: Vec<LocalPath> = Vec::new();
    proof {
        assert(order::keys(found@) == Seq::<path::PathView>::empty());
    }
    if let Some(p) = static_asset_alias_candidate(target) {
        found.push(p);
        proof {
            assert(order::keys(found@) == seq![p@]);
        }
    }
    found
}

/// The ordinary components of a path, with slashes for backslashes.
pub open spec fn slash_parts(parts: Seq<Seq<char>>) -> Seq<Seq<char>>
    decreases parts.len(),
{
    if parts.len() == 0 {
        Seq::empty()
    } else if path::is_normal(parts.last()) {
        slash_parts(parts.drop_last()).push(text::replace_char(parts.last(), '\\', '/'))
    } else {
        slash_parts(parts.drop_last())
    }
}

/// A path with slashes, without its root.
pub open spec fn slashed(p: path::PathView) -> Seq<char> {
    text::join(slash_parts(p.parts), "/"@)
}

/// A path with slashes, without its root.
pub fn slash_path(p: &LocalPath) -> (r: String)
    ensures
        r@ == slashed(p@),
{
    let ghost all = text::views(p.parts@);
    let mut out: Vec<String> = Vec::new();
    let mut i: usize = 0;
    proof {
        assert(text::views(out@) == slash_parts(all.take(0)));
    }
    while i < p.parts.len()
        invariant
            i <= p.parts@.len(),
            all == text::views(p.parts@),
            text::views(out@) == slash_parts(all.take(i as int)),
        decreases p.parts@.len() - i,
    {
        let ghost before = text::views(out@);
        let part = p.parts[i].as_str();
        proof {
            assert(all.take(i + 1).drop_last() == all.take(i as int));
            assert(all.take(i + 1).last() == part@);
        }
        if path::is_normal_part(part) {
            let plain = text::string_of(
                &text::replace_chars(&text::chars_of(part), '\\', '/'),
            );
            out.push(plain);
            proof {
                assert(text::views(out@) == before.push(plain@));
            }
        }
        i += 1;
    }
    proof {
        assert(all.take(all.len() as int) == all);
    }
    text::join_strings(&out, "/")
}

/// Whether a page at `source` refers to a file: by a relative link, or from the root.
pub open spec fn refers_to(
    content: Seq<char>,
    source: path::PathView,
    candidate: path::PathView,
) -> bool {
    let relative = path::relative_link_of(source, candidate);
    ||| relative.len() > 0 && text::contains(content, relative)
    ||| slashed(candidate).len() > 0 && text::contains(content, "/"@ + slashed(candidate))
}

/// Whether a page at `source` refers to a file.
pub fn candidate_reference_appears(input: &str, source: &LocalPath, candidate: &LocalPath) -> (r:
    bool)
    ensures
        r == refers_to(input@, source@, candidate@),
{
    let relative = pathmap::relative_link(source, candidate);
    if !relative.as_str().is_empty() && text::has(input, relative.as_str()) {
        return true;
    }
    let slash = slash_path(candidate);
    !slash.as_str().is_empty() && text::has(input, text::concat("/", slash.as_str()).as_str())
}

/// Whether a file is a text that may refer to others.
pub open spec fn reference_text_file(p: path::PathView) -> bool {
    p.extension() matches Some(e) && {
        ||| text::lower(e) == "css"@
        ||| text::lower(e) == "htm"@
        ||| text::lower(e) == "html"@
        ||| text::lower(e) == "js"@
        ||| text::lower(e) == "mjs"@
        ||| text::lower(e) == "txt"@
        ||| text::lower(e) == "xhtml"@
    }
}

/// Whether a file is a text that may refer to others.
pub fn is_reference_text_file(p: &LocalPath) -> (r: bool)
    ensures
        r == reference_text_file(p@),
{
    match p.extension() {
        Some(e) => {
            let l = text::lower_chars(&text::chars_of(e.as_str()));
            text::is(&l, "css") || text::is(&l, "htm") || text::is(&l, "html") || text::is(&l, "js") || text::is(&l, "mjs") || text::is(&l, "txt") || text::is(&l, "xhtml")
        },
        None => false,
    }
}

/// A file that refers to a missing static file.
pub struct MissingStaticAssetLink {
    pub source: LocalPath,
    pub target: LocalPath,
}

impl View for MissingStaticAssetLink {
    type V = (path::PathView, path::PathView);

    open spec fn view(&self) -> (path::PathView, path::PathView) {
        (self.source@, self.target@)
    }
}

/// The order of links by source and target.
pub struct ByLink;

/// Whether a link comes before another, or is its equal.
pub open spec fn link_le(
    a: (path::PathView, path::PathView),
    b: (path::PathView, path::PathView),
) -> bool {
    if path::path_le(a.0, b.0) && path::path_le(b.0, a.0) {
        path::path_le(a.1, b.1)
    } else {
        path::path_le(a.0, b.0)
    }
}

impl order::Preorder<(path::PathView, path::PathView)> for ByLink {
    open spec fn le(
        a: (path::PathView, path::PathView),
        b: (path::PathView, path::PathView),
    ) -> bool {
        link_le(a, b)
    }

    proof fn total(a: (path::PathView, path::PathView), b: (path::PathView, path::PathView)) {
        path::lemma_path_le_total(a.0, b.0);
        path::lemma_path_le_total(a.1, b.1);
    }

    proof fn transitive(
        a: (path::PathView, path::PathView),
        b: (path::PathView, path::PathView),
        c: (path::PathView, path::PathView),
    ) {
        path::lemma_path_le_transitive(a.0, b.0, c.0);
        if path::path_le(b.0, a.0) && path::path_le(c.0, b.0) {
            path::lemma_path_le_transitive(c.0, b.0, a.0);
            path::lemma_path_le_transitive(a.1, b.1, c.1);
        } else if path::path_le(c.0, a.0) {
            if path::path_le(b.0, a.0) {
                path::lemma_path_le_transitive(c.0, a.0, b.0);
            } else {
                path::lemma_path_le_transitive(b.0, c.0, a.0);
            }
        }
    }
}

impl order::Arranges<MissingStaticAssetLink> for ByLink {
    fn precedes(a: &MissingStaticAssetLink, b: &MissingStaticAssetLink) -> (r: bool) {
        let forth = a.source.at_most(&b.source);
        let back = b.source.at_most(&a.source);
        if forth && back {
            a.target.at_most(&b.target)
        } else {
            forth
        }
    }
}

impl order::SameView for MissingStaticAssetLink {
    fn same_view(&self, other: &Self) -> (r: bool) {
        self.source.same(&other.source) && self.target.same(&other.target)
    }
}

/// The links to missing static files, seen from the root, in the order in which they were found.
pub open spec fn asset_links(
    root: path::PathView,
    missing: Seq<link_validation::MissingLinkView>,
) -> Seq<(path::PathView, path::PathView)>
    decreases missing.len(),
{
    if missing.len() == 0 {
        Seq::empty()
    } else {
        let rest = asset_links(root, missing.drop_last());
        match (
            missing.last().source.strip_prefix(root),
            missing.last().target.strip_prefix(root),
        ) {
            (Some(source), Some(target)) => if static_asset(target) {
                rest.push((source, target))
            } else {
                rest
            },
            _ => rest,
        }
    }
}

/// The links to missing static files, sorted, each once.
pub fn missing_static_asset_links(root: &LocalPath, missing: &Vec<MissingLocalLink>) -> (r: Vec<
    MissingStaticAssetLink,
>)
    ensures
        order::keys(r@) == order::dedup_of(
            order::sort_of::<(path::PathView, path::PathView), ByLink>(
                asset_links(root@, order::keys(missing@)),
            ),
        ),
{
    let ghost all = order::keys(missing@);
    let mut out: Vec<MissingStaticAssetLink> = Vec::new();
    let mut i: usize = 0;
    proof {
        assert(order::keys(out@) == asset_links(root@, all.take(0)));
    }
    while i < missing.len()
        invariant
            i <= missing@.len(),
            all == order::keys(missing@),
            order::keys(out@) == asset_links(root@, all.take(i as int)),
        decreases missing@.len() - i,
    {
        let ghost before = order::keys(out@);
        proof {
            assert(all.take(i + 1).drop_last() == all.take(i as int));
            assert(all.take(i + 1).last() == missing@[i as int]@);
        }
        if let Some(source) = missing[i].source.strip_prefix(root) {
            if let Some(target) = missing[i].target.strip_prefix(root) {
                if is_recoverable_static_asset(&target) {
                    let link = MissingStaticAssetLink { source, target };
                    out.push(link);
                    proof {
                        assert(order::keys(out@) == before.push(link@));
                    }
                }
            }
        }
        i += 1;
    }
    proof {
        assert(all.take(all.len() as int) == all);
    }
    order::sort_unique::<MissingStaticAssetLink, ByLink>(out)
}

/// The missing static files, seen from the root, in the order in which they were found.
pub open spec fn asset_targets(
    root: path::PathView,
    missing: Seq<link_validation::MissingLinkView>,
) -> Seq<path::PathView>
    decreases missing.len(),
{
    if missing.len() == 0 {
        Seq::empty()
    } else {
        let rest = asset_targets(root, missing.drop_last());
        match missing.last().target.strip_prefix(root) {
            Some(target) => if static_asset(target) {
                rest.push(target)
            } else {
                rest
            },
            None => rest,
        }
    }
}

/// The missing static files, sorted, each once.
pub fn missing_static_asset_targets(root: &LocalPath, missing: &Vec<MissingLocalLink>) -> (r: Vec<
    LocalPath,
>)
    ensures
        order::keys(r@) == order::dedup_of(
            order::sort_of::<path::PathView, path::ByPath>(
                asset_targets(root@, order::keys(missing@)),
            ),
        ),
{
    let ghost all = order::keys(missing@);
    let mut out: Vec<LocalPath> = Vec::new();
    let mut i: usize = 0;
    proof {
        assert(order::keys(out@) == asset_targets(root@, all.take(0)));
    }
    while i < missing.len()
        invariant
            i <= missing@.len(),
            all == order::keys(missing@),
            order::keys(out@) == asset_targets(root@, all.take(i as int)),
        decreases missing@.len() - i,
    {
        let ghost before = order::keys(out@);
        proof {
            assert(all.take(i + 1).drop_last() == all.take(i as int));
            assert(all.take(i + 1).last() == missing@[i as int]@);
        }
        if let Some(target) = missing[i].target.strip_prefix(root) {
            if is_recoverable_static_asset(&target) {
                out.push(target);
                proof {
                    assert(order::keys(out@) == before.push(target@));
                }
            }
        }
        i += 1;
    }
    proof {
        assert(all.take(all.len() as int) == all);
    }
    order::sort_unique::<LocalPath, path::ByPath>(out)
}

/// Whether a text lies beside a page and refers to a file; all paths are seen from the root.
pub open spec fn refers_beside(
    file: link_validation::SourceView,
    source: path::PathView,
    candidate: path::PathView,
) -> bool {
    file.path.parent() == source.parent() && reference_text_file(file.path) && refers_to(
        file.text,
        file.path,
        candidate,
    )
}

/// Whether one of the texts beside a page refers to a file.
pub open spec fn is_referred_to(
    texts: Seq<link_validation::SourceView>,
    source: path::PathView,
    candidate: path::PathView,
) -> bool {
    exists|i: int| 0 <= i < texts.len() && refers_beside(#[trigger] texts[i], source, candidate)
}

/// Whether two files lie in the same directory.
fn is_beside(a: &LocalPath, b: &LocalPath) -> (r: bool)
    ensures
        r == (a@.parent() == b@.parent()),
{
    match (a.parent(), b.parent()) {
        (Some(x), Some(y)) => x.same(&y),
        (None, None) => true,
        _ => false,
    }
}

/// Whether one of the texts beside a page refers to a file.
pub fn local_candidate_reference_exists(
    texts: &Vec<SourceFile>,
    source: &LocalPath,
    candidate: &LocalPath,
) -> (r: bool)
    ensures
        r == is_referred_to(order::keys(texts@), source@, candidate@),
{
    let ghost all = order::keys(texts@);
    let mut i: usize = 0;
    while i < texts.len()
        invariant
            i <= texts@.len(),
            all == order::keys(texts@),
            forall|k: int|
                0 <= k < i ==> !refers_beside(#[trigger] all[k], source@, candidate@),
        decreases texts@.len() - i,
    {
        let file = &texts[i];
        proof {
            assert(all[i as int] == file@);
        }
        if is_beside(&file.path, source) && is_reference_text_file(&file.path)
            && candidate_reference_appears(file.text.as_str(), &file.path, candidate) {
            return true;
        }
        i += 1;
    }
    false
}

/// The file that stands for a missing static one: its name has the other form, it is there, and a
/// text beside the page that misses the file refers to it.
pub open spec fn alias_file(
    site: link_validation::SiteView,
    texts: Seq<link_validation::SourceView>,
    source: path::PathView,
    target: path::PathView,
) -> Option<path::PathView> {
    match alias_candidate(target) {
        Some(candidate) => if is_referred_to(texts, source, candidate) && site.files.contains(
            site.root.join(candidate).text(),
        ) {
            Some(site.root.join(candidate))
        } else {
            None
        },
        None => None,
    }
}

/// The file that stands for a missing static one; `site` holds the files that are not empty.
pub fn existing_static_asset_alias_source(
    site: &SiteFiles,
    texts: &Vec<SourceFile>,
    source: &LocalPath,
    target: &LocalPath,
) -> (r: Option<LocalPath>)
    ensures
        match r {
            Some(p) => alias_file(site@, order::keys(texts@), source@, target@) == Some(p@),
            None => alias_file(site@, order::keys(texts@), source@, target@) is None,
        },
{
    match static_asset_alias_candidate(target) {
        Some(candidate) => {
            let place = site.root.join(&candidate);
            if local_candidate_reference_exists(texts, source, &candidate) && site.is_file(&place) {
                Some(place)
            } else {
                None
            }
        },
        None => None,
    }
}

/// The first text at a path.
pub open spec fn text_at(texts: Seq<link_validation::SourceView>, place: path::PathView) -> Option<
    Seq<char>,
>
    decreases texts.len(),
{
    if texts.len() == 0 {
        None
    } else if texts[0].path == place {
        Some(texts[0].text)
    } else {
        text_at(texts.drop_first(), place)
    }
}

/// The texts after one of them, if it is one, was copied.
pub open spec fn with_copy(
    texts: Seq<link_validation::SourceView>,
    from: path::PathView,
    to: path::PathView,
) -> Seq<link_validation::SourceView> {
    match text_at(texts, from) {
        Some(text) => texts.push(link_validation::SourceView { path: to, text }),
        None => texts,
    }
}

/// A site while copies are made for missing static files: the files that are not empty, the texts
/// that may hold references, and the copies: from where, to where.
#[verifier::ext_equal]
pub struct LocalAliases {
    pub site: link_validation::SiteView,
    pub texts: Seq<link_validation::SourceView>,
    pub copies: Seq<(path::PathView, path::PathView)>,
}

/// The site after copies were made for missing static files, one link after the other. A copy can be
/// copied in turn, and what a copied text refers to counts for the links behind it.
pub open spec fn local_aliases(
    site: link_validation::SiteView,
    texts: Seq<link_validation::SourceView>,
    links: Seq<(path::PathView, path::PathView)>,
) -> LocalAliases
    decreases links.len(),
{
    if links.len() == 0 {
        LocalAliases { site, texts, copies: Seq::empty() }
    } else {
        let now = local_aliases(site, texts, links.drop_last());
        let (source, target) = links.last();
        let place = now.site.root.join(target);
        match (alias_file(now.site, now.texts, source, target), alias_candidate(target)) {
            (Some(from), Some(candidate)) => if now.site.files.contains(place.text()) {
                now
            } else {
                LocalAliases {
                    site: link_validation::SiteView {
                        root: now.site.root,
                        files: now.site.files.insert(place.text()),
                    },
                    texts: with_copy(now.texts, candidate, target),
                    copies: now.copies.push((from, place)),
                }
            },
            _ => now,
        }
    }
}

/// Copies a text, if there is one at a path, to another path.
fn copy_text(texts: &mut Vec<SourceFile>, from: &LocalPath, to: &LocalPath)
    ensures
        order::keys(final(texts)@) == with_copy(order::keys(old(texts)@), from@, to@),
{
    let ghost all = order::keys(texts@);
    let mut i: usize = 0;
    proof {
        assert(all.skip(0) == all);
    }
    while i < texts.len()
        invariant
            i <= texts@.len(),
            texts@ == old(texts)@,
            all == order::keys(texts@),
            text_at(all, from@) == text_at(all.skip(i as int), from@),
        decreases texts@.len() - i,
    {
        proof {
            assert(all.skip(i as int)[0] == texts@[i as int]@);
            assert(all.skip(i as int).drop_first() == all.skip(i + 1));
        }
        if texts[i].path.same(from) {
            let copy = SourceFile { path: to.duplicate(), text: texts[i].text.clone() };
            texts.push(copy);
            proof {
                assert(order::keys(texts@) == all.push(copy@));
            }
            return;
        }
        i += 1;
    }
}

/// The copies to be made for missing static files: `site` holds the files that are not empty,
/// `texts` those that may hold references, at paths seen from the root.
pub fn create_missing_static_asset_aliases(
    site: SiteFiles,
    texts: Vec<SourceFile>,
    links: &Vec<MissingStaticAssetLink>,
) -> (r: Vec<AliasCopy>)
    ensures
        order::keys(r@) == local_aliases(
            site@,
            order::keys(texts@),
            order::keys(links@),
        ).copies,
{
    let ghost all = order::keys(links@);
    let ghost start = site@;
    let ghost given = order::keys(texts@);
    let mut now = site;
    let mut known = texts;
    let mut copies: Vec<AliasCopy> = Vec::new();
    let mut i: usize = 0;
    proof {
        assert(order::keys(copies@) == local_aliases(start, given, all.take(0)).copies);
    }
    while i < links.len()
        invariant
            i <= links@.len(),
            all == order::keys(links@),
            local_aliases(start, given, all.take(i as int)) == (LocalAliases {
                site: now@,
                texts: order::keys(known@),
                copies: order::keys(copies@),
            }),
        decreases links@.len() - i,
    {
        let ghost before = order::keys(copies@);
        let link = &links[i];
        proof {
            assert(all.take(i + 1).drop_last() == all.take(i as int));
            assert(all.take(i + 1).last() == link@);
        }
        let place = now.root.join(&link.target);
        if !now.is_file(&place) {
            if let Some(candidate) = static_asset_alias_candidate(&link.target) {
                if let Some(from) = existing_static_asset_alias_source(
                    &now,
                    &known,
                    &link.source,
                    &link.target,
                ) {
                    now.add(&place);
                    copy_text(&mut known, &candidate, &link.target);
                    let copy = AliasCopy { source: from, target: place };
                    copies.push(copy);
                    proof {
                        assert(order::keys(copies@) == before.push(copy@));
                    }
                }
            }
        }
        i += 1;
    }
    proof {
        assert(all.take(all.len() as int) == all);
    }
    copies
}

/// A copy for a missing static file never replaces a file, and is made of one that is there or was
/// copied before.
pub proof fn law_static_aliases_replace_nothing(
    site: link_validation::SiteView,
    texts: Seq<link_validation::SourceView>,
    links: Seq<(path::PathView, path::PathView)>,
)
    ensures
        site.files.subset_of(local_aliases(site, texts, links).site.files),
        forall|i: int|
            0 <= i < local_aliases(site, texts, links).copies.len() ==> {
                let copy = #[trigger] local_aliases(site, texts, links).copies[i];
                &&& !site.files.contains(copy.1.text())
                &&& local_aliases(site, texts, links).site.files.contains(copy.0.text())
            },
    decreases links.len(),
{
    if links.len() > 0 {
        law_static_aliases_replace_nothing(site, texts, links.drop_last());
        let before = local_aliases(site, texts, links.drop_last());
        let after = local_aliases(site, texts, links);
        assert forall|i: int| 0 <= i < after.copies.len() implies {
            let copy = #[trigger] after.copies[i];
            &&& !site.files.contains(copy.1.text())
            &&& after.site.files.contains(copy.0.text())
        } by {
            if i < before.copies.len() {
                assert(after.copies[i] == before.copies[i]);
            }
        }
    }
}

/// A missing static file, the page that misses it, and the file that may stand for it.
pub struct StaticAssetAliasRequest {
    pub source: LocalPath,
    pub target: LocalPath,
    pub candidate: LocalPath,
}

/// The mathematical form of a request.
#[verifier::ext_equal]
pub struct AliasRequestView {
    pub source: path::PathView,
    pub target: path::PathView,
    pub candidate: path::PathView,
}

impl View for StaticAssetAliasRequest {
    type V = AliasRequestView;

    open spec fn view(&self) -> AliasRequestView {
        AliasRequestView {
            source: self.source@,
            target: self.target@,
            candidate: self.candidate@,
        }
    }
}

/// The requests that links call for: the page has a capture, the target is not there, and the file
/// with the other name is there or has a capture.
pub open spec fn alias_requests(
    site: link_validation::SiteView,
    selected: Map<Seq<char>, cdx::RecordView>,
    recoverable: Map<Seq<char>, cdx::RecordView>,
    links: Seq<(path::PathView, path::PathView)>,
) -> Seq<AliasRequestView>
    decreases links.len(),
{
    if links.len() == 0 {
        Seq::empty()
    } else {
        let rest = alias_requests(site, selected, recoverable, links.drop_last());
        let (source, target) = links.last();
        match alias_candidate(target) {
            Some(candidate) => if selected.contains_key(source.text()) && !site.files.contains(
                site.root.join(target).text(),
            ) && (site.files.contains(site.root.join(candidate).text())
                || recoverable.contains_key(candidate.text())) {
                rest.push(AliasRequestView { source, target, candidate })
            } else {
                rest
            },
            None => rest,
        }
    }
}

/// The requests that links call for, in the order of the links; `site` holds the files that are not
/// empty.
pub fn missing_static_asset_alias_requests(
    site: &SiteFiles,
    selected: &TextMap<CdxRecord>,
    recoverable: &TextMap<CdxRecord>,
    links: &Vec<MissingStaticAssetLink>,
) -> (r: Vec<StaticAssetAliasRequest>)
    ensures
        order::keys(r@) == alias_requests(
            site@,
            selected@,
            recoverable@,
            order::keys(links@),
        ),
{
    let ghost all = order::keys(links@);
    let mut out: Vec<StaticAssetAliasRequest> = Vec::new();
    let mut i: usize = 0;
    proof {
        assert(order::keys(out@) == alias_requests(site@, selected@, recoverable@, all.take(0)));
    }
    while i < links.len()
        invariant
            i <= links@.len(),
            all == order::keys(links@),
            order::keys(out@) == alias_requests(
                site@,
                selected@,
                recoverable@,
                all.take(i as int),
            ),
        decreases links@.len() - i,
    {
        let ghost before = order::keys(out@);
        let link = &links[i];
        proof {
            assert(all.take(i + 1).drop_last() == all.take(i as int));
            assert(all.take(i + 1).last() == link@);
        }
        if let Some(candidate) = static_asset_alias_candidate(&link.target) {
            if selected.contains(link.source.to_text().as_str()) && !site.is_file(
                &site.root.join(&link.target),
            ) && (site.is_file(&site.root.join(&candidate)) || recoverable.contains(
                candidate.to_text().as_str(),
            )) {
                let request = StaticAssetAliasRequest {
                    source: link.source.duplicate(),
                    target: link.target.duplicate(),
                    candidate,
                };
                out.push(request);
                proof {
                    assert(order::keys(out@) == before.push(request@));
                }
            }
        }
        i += 1;
    }
    proof {
        assert(all.take(all.len() as int) == all);
    }
    out
}

/// The requests from the `index`-th one on that another capture of their page confirms, in the order
/// in which they are taken out, and the requests that are left. The last request moves to the place
/// of one that is taken out.
pub open spec fn parted_requests(
    content: Seq<char>,
    source: path::PathView,
    requests: Seq<AliasRequestView>,
    index: int,
) -> (Seq<AliasRequestView>, Seq<AliasRequestView>)
    decreases requests.len() - index,
{
    if index < 0 || index >= requests.len() {
        (Seq::empty(), requests)
    } else if refers_to(content, source, requests[index].candidate) {
        let rest = parted_requests(
            content,
            source,
            requests.update(index, requests.last()).drop_last(),
            index,
        );
        (seq![requests[index]] + rest.0, rest.1)
    } else {
        parted_requests(content, source, requests, index + 1)
    }
}

/// Parts the requests of one page into those that its other capture confirms and the others.
pub fn take_confirmed_requests(
    content: &str,
    source: &LocalPath,
    requests: Vec<StaticAssetAliasRequest>,
) -> (r: (Vec<StaticAssetAliasRequest>, Vec<StaticAssetAliasRequest>))
    ensures
        (order::keys(r.0@), order::keys(r.1@)) == parted_requests(
            content@,
            source@,
            order::keys(requests@),
            0,
        ),
{
    let ghost whole = parted_requests(content@, source@, order::keys(requests@), 0);
    let mut pending = requests;
    let mut taken: Vec<StaticAssetAliasRequest> = Vec::new();
    let mut index: usize = 0;
    proof {
        assert(order::keys(taken@) + whole.0 == whole.0);
    }
    while index < pending.len()
        invariant
            index <= pending@.len(),
            ({
                let rest = parted_requests(
                    content@,
                    source@,
                    order::keys(pending@),
                    index as int,
                );
                whole == (order::keys(taken@) + rest.0, rest.1)
            }),
        decreases pending@.len() - index,
    {
        let ghost all = order::keys(pending@);
        let ghost before = order::keys(taken@);
        if candidate_reference_appears(content, source, &pending[index].candidate) {
            let request = pending.swap_remove(index);
            taken.push(request);
            proof {
                let next = all.update(index as int, all.last()).drop_last();
                let rest = parted_requests(content@, source@, next, index as int);
                assert(order::keys(pending@) == next);
                assert(order::keys(taken@) == before.push(request@));
                assert(before.push(request@) + rest.0 == before + (seq![request@] + rest.0));
            }
        } else {
            index += 1;
        }
    }
    proof {
        let none = Seq::<AliasRequestView>::empty();
        assert(order::keys(taken@) + none == order::keys(taken@));
    }
    (taken, pending)
}

/// How many lookups in a row may find no connection before the others are left for another run.
pub const MAX_CDX_CONNECTIVITY_FAILURES: usize = 3;

/// Lookups in a row that found no connection.
#[derive(Debug, Clone, Copy)]
pub struct FailureStreak {
    pub failures: usize,
}

impl FailureStreak {
    /// No failure yet.
    pub fn new() -> (r: FailureStreak)
        ensures
            r.failures == 0,
    {
        FailureStreak { failures: 0 }
    }

    /// Counts a lookup; tells whether to stop looking.
    pub fn note(&mut self, no_connection: bool) -> (stop: bool)
        ensures
            final(self).failures == (if no_connection {
                retry::one_more(old(self).failures)
            } else {
                0
            }),
            stop == (final(self).failures >= MAX_CDX_CONNECTIVITY_FAILURES),
    {
        if no_connection {
            self.failures = self.failures.saturating_add(1);
        } else {
            self.failures = 0;
        }
        self.failures >= MAX_CDX_CONNECTIVITY_FAILURES
    }
}

/// Parting requests from an index on takes out those that are referred to and keeps the others.
proof fn lemma_parted_requests(
    content: Seq<char>,
    source: path::PathView,
    requests: Seq<AliasRequestView>,
    index: int,
    request: AliasRequestView,
)
    requires
        0 <= index <= requests.len(),
        forall|k: int|
            0 <= k < index ==> !refers_to(content, source, (#[trigger] requests[k]).candidate),
    ensures
        ({
            let parted = parted_requests(content, source, requests, index);
            let referred = refers_to(content, source, request.candidate);
            &&& parted.0.contains(request) == (requests.contains(request) && referred)
            &&& parted.1.contains(request) == (requests.contains(request) && !referred)
        }),
    decreases requests.len() - index,
{
    let parted = parted_requests(content, source, requests, index);
    if index == requests.len() {
        assert(!parted.0.contains(request));
    } else if refers_to(content, source, requests[index].candidate) {
        let next = requests.update(index, requests.last()).drop_last();
        let rest = parted_requests(content, source, next, index);
        lemma_parted_requests(content, source, next, index, request);
        assert(parted.0.contains(request) == (request == requests[index] || rest.0.contains(
            request,
        ))) by {
            assert(parted.0[0] == requests[index]);
            if rest.0.contains(request) {
                let k = choose|k: int| 0 <= k < rest.0.len() && rest.0[k] == request;
                assert(parted.0[k + 1] == request);
            }
            if parted.0.contains(request) && request != requests[index] {
                let k = choose|k: int| 0 <= k < parted.0.len() && parted.0[k] == request;
                assert(rest.0[k - 1] == request);
            }
        }
        assert(requests.contains(request) == (request == requests[index] || next.contains(
            request,
        ))) by {
            if next.contains(request) {
                let k = choose|k: int| 0 <= k < next.len() && next[k] == request;
                if k == index {
                    assert(requests[requests.len() - 1] == request);
                } else {
                    assert(requests[k] == request);
                }
            }
            if requests.contains(request) && request != requests[index] {
                let k = choose|k: int| 0 <= k < requests.len() && requests[k] == request;
                if k == requests.len() - 1 {
                    assert(next[index] == request);
                } else {
                    assert(next[k] == request);
                }
            }
        }
    } else {
        lemma_parted_requests(content, source, requests, index + 1, request);
    }
}

/// The requests of a page that another capture confirms are those that name a file to which that
/// capture refers; the others are left.
pub proof fn law_confirmed_requests_are_referred_to(
    content: Seq<char>,
    source: path::PathView,
    requests: Seq<AliasRequestView>,
    request: AliasRequestView,
)
    ensures
        ({
            let parted = parted_requests(content, source, requests, 0);
            let referred = refers_to(content, source, request.candidate);
            &&& parted.0.contains(request) == (requests.contains(request) && referred)
            &&& parted.1.contains(request) == (requests.contains(request) && !referred)
        }),
{
    lemma_parted_requests(content, source, requests, 0, request);
}

/// What a search for confirmed names does next.
pub enum AliasStep {
    /// Look for other captures of this page.
    LookUp(LocalPath),
    /// Get the bytes of this capture.
    Fetch(CdxRecord),
    /// Make a copy for the request.
    Copy(StaticAssetAliasRequest),
    Finished,
}

/// The mathematical form of a step.
#[verifier::ext_equal]
pub enum AliasStepView {
    LookUp(path::PathView),
    Fetch(cdx::RecordView),
    Copy(AliasRequestView),
    Finished,
}

impl View for AliasStep {
    type V = AliasStepView;

    open spec fn view(&self) -> AliasStepView {
        match self {
            AliasStep::LookUp(source) => AliasStepView::LookUp(source@),
            AliasStep::Fetch(record) => AliasStepView::Fetch(record@),
            AliasStep::Copy(request) => AliasStepView::Copy(request@),
            AliasStep::Finished => AliasStepView::Finished,
        }
    }
}

/// A search through other captures of pages for names of missing static files, one page after the
/// other.
pub struct AliasSearch {
    requests: Vec<StaticAssetAliasRequest>,
    at: usize,
    source: LocalPath,
    open: Vec<StaticAssetAliasRequest>,
    records: Vec<CdxRecord>,
    next_record: usize,
    confirmed: Vec<StaticAssetAliasRequest>,
    next_confirmed: usize,
    streak: FailureStreak,
    created: usize,
}

/// The mathematical form of a search for confirmed names.
#[verifier::ext_equal]
pub struct AliasSearchView {
    /// The requests of the pages behind the current one.
    pub pending: Seq<AliasRequestView>,
    /// The current page.
    pub source: path::PathView,
    /// Its requests that no capture has confirmed yet.
    pub open: Seq<AliasRequestView>,
    /// Its captures that were not looked at yet.
    pub records: Seq<cdx::RecordView>,
    /// The requests for which copies are to be made.
    pub confirmed: Seq<AliasRequestView>,
    /// How many lookups in a row found no connection.
    pub failures: usize,
    /// How many copies were made.
    pub created: usize,
}

impl View for AliasSearch {
    type V = AliasSearchView;

    closed spec fn view(&self) -> AliasSearchView {
        AliasSearchView {
            pending: order::keys(self.requests@).skip(self.at as int),
            source: self.source@,
            open: order::keys(self.open@),
            records: cdx::record_views(self.records@).skip(self.next_record as int),
            confirmed: order::keys(self.confirmed@).skip(self.next_confirmed as int),
            failures: self.streak.failures,
            created: self.created,
        }
    }
}

/// How many requests at the start are of one page.
pub open spec fn run_of(requests: Seq<AliasRequestView>, source: path::PathView) -> nat
    decreases requests.len(),
{
    if requests.len() > 0 && requests[0].source == source {
        1 + run_of(requests.skip(1), source)
    } else {
        0
    }
}

impl AliasSearchView {
    /// What the search does next, and the search behind it: copies come first, then the captures
    /// of the current page while it has open requests, then the next page.
    pub open spec fn next(self) -> (AliasStepView, AliasSearchView) {
        if self.confirmed.len() > 0 {
            (
                AliasStepView::Copy(self.confirmed[0]),
                AliasSearchView { confirmed: self.confirmed.skip(1), ..self },
            )
        } else if self.open.len() > 0 && self.records.len() > 0 {
            (
                AliasStepView::Fetch(self.records[0]),
                AliasSearchView { records: self.records.skip(1), ..self },
            )
        } else if self.pending.len() > 0 {
            let source = self.pending[0].source;
            let n = run_of(self.pending, source) as int;
            (
                AliasStepView::LookUp(source),
                AliasSearchView {
                    pending: self.pending.skip(n),
                    source,
                    open: self.pending.take(n),
                    records: Seq::empty(),
                    ..self
                },
            )
        } else {
            (AliasStepView::Finished, self)
        }
    }

    /// After a lookup failed: where it is the third in a row without a connection, the pages behind
    /// it are left for another run.
    pub open spec fn after_failure(self, no_connection: bool) -> AliasSearchView {
        let failures = if no_connection {
            retry::one_more(self.failures)
        } else {
            0
        };
        if failures >= MAX_CDX_CONNECTIVITY_FAILURES {
            AliasSearchView { pending: Seq::empty(), failures, ..self }
        } else {
            AliasSearchView { failures, ..self }
        }
    }
}

/// At least one request at the start is of the page of the first one, and no more than there are.
proof fn lemma_run(requests: Seq<AliasRequestView>, source: path::PathView)
    ensures
        run_of(requests, source) <= requests.len(),
    decreases requests.len(),
{
    if requests.len() > 0 && requests[0].source == source {
        lemma_run(requests.skip(1), source);
    }
}

/// Each step of a search for confirmed names uses up pages, captures or copies, so that it ends.
pub proof fn law_alias_searches_end(search: AliasSearchView)
    ensures
        search.next().0 !is Finished ==> {
            let after = search.next().1;
            ||| after.pending.len() < search.pending.len()
            ||| (after.pending == search.pending && after.records.len() < search.records.len())
            ||| (after.pending == search.pending && after.records == search.records
                && after.confirmed.len() < search.confirmed.len())
        },
{
    if search.pending.len() > 0 {
        lemma_run(search.pending, search.pending[0].source);
    }
}

impl StaticAssetAliasRequest {
    /// A copy of the request.
    pub fn duplicate(&self) -> (r: StaticAssetAliasRequest)
        ensures
            r@ == self@,
    {
        StaticAssetAliasRequest {
            source: self.source.duplicate(),
            target: self.target.duplicate(),
            candidate: self.candidate.duplicate(),
        }
    }
}

impl AliasSearch {
    /// Whether the positions lie within the lists.
    pub closed spec fn well_formed(&self) -> bool {
        self.at <= self.requests@.len() && self.next_record <= self.records@.len()
            && self.next_confirmed <= self.confirmed@.len()
    }

    /// A search for requests in the order of their pages.
    pub fn new(requests: Vec<StaticAssetAliasRequest>) -> (r: AliasSearch)
        ensures
            r.well_formed(),
            r@.pending == order::keys(requests@),
            r@.open.len() == 0,
            r@.records.len() == 0,
            r@.confirmed.len() == 0,
            r@.failures == 0,
            r@.created == 0,
    {
        let r = AliasSearch {
            requests,
            at: 0,
            source: LocalPath::parse(""),
            open: Vec::new(),
            records: Vec::new(),
            next_record: 0,
            confirmed: Vec::new(),
            next_confirmed: 0,
            streak: FailureStreak::new(),
            created: 0,
        };
        proof {
            assert(order::keys(r.requests@).skip(0) == order::keys(r.requests@));
        }
        r
    }

    /// What the search does next.
    pub fn next(&mut self) -> (r: AliasStep)
        requires
            old(self).well_formed(),
        ensures
            final(self).well_formed(),
            (r@, final(self)@) == old(self)@.next(),
    {
        let ghost start = self@;
        let ghost all = order::keys(self.requests@);
        let ghost captures = cdx::record_views(self.records@);
        let ghost copies = order::keys(self.confirmed@);
        if self.next_confirmed < self.confirmed.len() {
            let at: usize = self.next_confirmed;
            let request = self.confirmed[at].duplicate();
            proof {
                assert(copies.skip(at as int)[0] == request@);
                assert(copies.skip(at as int).skip(1) == copies.skip(at + 1));
            }
            self.next_confirmed = at + 1;
            return AliasStep::Copy(request);
        }
        if self.open.len() > 0 && self.next_record < self.records.len() {
            let at: usize = self.next_record;
            let record = self.records[at].duplicate();
            proof {
                assert(captures.skip(at as int)[0] == record@);
                assert(captures.skip(at as int).skip(1) == captures.skip(at + 1));
                assert(order::keys(self.open@).len() == self.open@.len());
            }
            self.next_record = at + 1;
            return AliasStep::Fetch(record);
        }
        proof {
            assert(order::keys(self.open@).len() == self.open@.len());
        }
        let n: usize = self.requests.len();
        if self.at == n {
            return AliasStep::Finished;
        }
        let first: usize = self.at;
        let source = self.requests[first].source.duplicate();
        let ghost pending = all.skip(first as int);
        let mut open: Vec<StaticAssetAliasRequest> = Vec::new();
        let mut i: usize = first;
        proof {
            assert(pending[0].source == source@);
            assert(order::keys(open@) == pending.take(0));
            assert(pending.skip(0) == pending);
            assert(all.skip(i as int)[0] == self.requests@[i as int]@);
        }
        while i < n && self.requests[i].source.same(&source)
            invariant
                first <= i <= n,
                n == self.requests@.len(),
                all == order::keys(self.requests@),
                pending == all.skip(first as int),
                open@.len() == i - first,
                order::keys(open@) == pending.take(i - first),
                run_of(pending, source@) == (i - first) + run_of(all.skip(i as int), source@),
            decreases n - i,
        {
            let ghost before = order::keys(open@);
            let request = self.requests[i].duplicate();
            proof {
                assert(all.skip(i as int)[0] == request@);
                assert(all.skip(i as int).skip(1) == all.skip(i + 1));
            }
            open.push(request);
            i += 1;
            proof {
                assert(order::keys(open@) == before.push(request@));
                assert(pending.take(i - first) == pending.take(i - first - 1).push(
                    pending[i - first - 1],
                ));
            }
        }
        proof {
            if i < n {
                assert(all.skip(i as int)[0] == self.requests@[i as int]@);
            }
            assert(run_of(all.skip(i as int), source@) == 0);
            assert(pending.skip(i - first) == all.skip(i as int));
        }
        self.at = i;
        self.source = source.duplicate();
        self.open = open;
        self.records = Vec::new();
        self.next_record = 0;
        proof {
            assert(cdx::record_views(self.records@).skip(0) == Seq::<cdx::RecordView>::empty());
        }
        AliasStep::LookUp(source)
    }

    /// Takes the other captures of the current page.
    pub fn looked_up(&mut self, records: Vec<CdxRecord>)
        requires
            old(self).well_formed(),
        ensures
            final(self).well_formed(),
            final(self)@ == (AliasSearchView {
                records: cdx::record_views(records@),
                failures: 0,
                ..old(self)@
            }),
    {
        self.streak.note(false);
        self.records = records;
        self.next_record = 0;
        proof {
            assert(cdx::record_views(self.records@).skip(0) == cdx::record_views(self.records@));
        }
    }

    /// Notes a lookup that failed.
    pub fn lookup_failed(&mut self, no_connection: bool)
        requires
            old(self).well_formed(),
        ensures
            final(self).well_formed(),
            final(self)@ == old(self)@.after_failure(no_connection),
    {
        if self.streak.note(no_connection) {
            self.at = self.requests.len();
            proof {
                assert(order::keys(self.requests@).skip(self.at as int) == Seq::<
                    AliasRequestView,
                >::empty());
            }
        }
    }

    /// Takes the text of a capture of the current page: the requests that it confirms are to be
    /// copied.
    pub fn fetched(&mut self, content: &str)
        requires
            old(self).well_formed(),
            old(self)@.confirmed.len() == 0,
        ensures
            final(self).well_formed(),
            ({
                let parted = parted_requests(content@, old(self)@.source, old(self)@.open, 0);
                final(self)@ == (AliasSearchView {
                    open: parted.1,
                    confirmed: parted.0,
                    ..old(self)@
                })
            }),
    {
        let mut open: Vec<StaticAssetAliasRequest> = Vec::new();
        std::mem::swap(&mut open, &mut self.open);
        let (confirmed, left) = take_confirmed_requests(content, &self.source, open);
        self.open = left;
        self.confirmed = confirmed;
        self.next_confirmed = 0;
        proof {
            assert(order::keys(self.confirmed@).skip(0) == order::keys(self.confirmed@));
        }
    }

    /// Counts a copy that was made, as far as the count fits.
    pub fn copied(&mut self)
        requires
            old(self).well_formed(),
        ensures
            final(self).well_formed(),
            final(self)@ == (AliasSearchView {
                created: numbers::capped((old(self)@.created + 1) as nat) as usize,
                ..old(self)@
            }),
    {
        self.created = numbers::add_capped(self.created, 1);
    }

    /// How many copies were made.
    pub fn created(&self) -> (r: usize)
        ensures
            r == self@.created,
    {
        self.created
    }
}

/// What became of one missing static file.
#[derive(Debug, Clone, Copy, PartialEq, Eq, Structural)]
pub enum AssetOutcome {
    /// The file is there by now.
    AlreadyThere,
    /// No capture was found; `no_connection` tells that no query was answered.
    NotFound { no_connection: bool },
    /// The capture is larger than the limit, or its bytes could not be had.
    NotSaved,
    /// The file was written.
    Saved,
}

/// The recovery of missing static files, one after the other.
#[derive(Debug, Clone, Copy)]
pub struct StaticAssetRecovery {
    /// How many files are to be recovered.
    pub total: usize,
    /// How many of them were dealt with.
    pub done: usize,
    pub recovered: usize,
    pub unavailable: usize,
    /// How many were left for another run.
    pub deferred: usize,
    pub streak: FailureStreak,
}

impl StaticAssetRecovery {
    /// Whether the counts belong to the files that were dealt with.
    pub open spec fn well_formed(self) -> bool {
        self.done <= self.total && self.recovered + self.unavailable + self.deferred <= self.done
    }

    /// The recovery of some files.
    pub fn new(total: usize) -> (r: StaticAssetRecovery)
        ensures
            r.well_formed(),
            r.total == total,
            r.done == 0,
            r.recovered == 0,
            r.unavailable == 0,
            r.deferred == 0,
            r.streak.failures == 0,
    {
        StaticAssetRecovery {
            total,
            done: 0,
            recovered: 0,
            unavailable: 0,
            deferred: 0,
            streak: FailureStreak::new(),
        }
    }

    /// The index of the next file.
    pub fn next(&self) -> (r: Option<usize>)
        requires
            self.well_formed(),
        ensures
            r == (if self.done < self.total {
                Some(self.done)
            } else {
                None
            }),
    {
        if self.done < self.total {
            Some(self.done)
        } else {
            None
        }
    }

    /// The recovery after one more file: the third lookup in a row without a connection leaves the
    /// files behind it for another run.
    pub open spec fn settled(self, outcome: AssetOutcome) -> StaticAssetRecovery {
        match outcome {
            AssetOutcome::AlreadyThere => StaticAssetRecovery {
                done: (self.done + 1) as usize,
                ..self
            },
            AssetOutcome::Saved => StaticAssetRecovery {
                done: (self.done + 1) as usize,
                recovered: (self.recovered + 1) as usize,
                streak: FailureStreak { failures: 0 },
                ..self
            },
            AssetOutcome::NotSaved | AssetOutcome::NotFound { no_connection: false } => {
                StaticAssetRecovery {
                    done: (self.done + 1) as usize,
                    unavailable: (self.unavailable + 1) as usize,
                    streak: FailureStreak { failures: 0 },
                    ..self
                }
            },
            AssetOutcome::NotFound { no_connection: true } => {
                let failures = retry::one_more(self.streak.failures);
                let left = if failures >= MAX_CDX_CONNECTIVITY_FAILURES {
                    self.total - self.done
                } else {
                    1
                };
                StaticAssetRecovery {
                    done: (self.done + left) as usize,
                    deferred: (self.deferred + left) as usize,
                    streak: FailureStreak { failures },
                    ..self
                }
            },
        }
    }

    /// Counts what became of the next file. Where the third lookup in a row found no connection,
    /// the files behind it are left for another run.
    pub fn settle(&mut self, outcome: AssetOutcome)
        requires
            old(self).well_formed(),
            old(self).done < old(self).total,
        ensures
            *final(self) == old(self).settled(outcome),
            final(self).well_formed(),
            final(self).total == old(self).total,
            final(self).recovered == old(self).recovered + (if outcome == AssetOutcome::Saved {
                1int
            } else {
                0
            }),
            final(self).unavailable == old(self).unavailable + (if outcome == AssetOutcome::NotSaved
                || outcome == (AssetOutcome::NotFound { no_connection: false }) {
                1int
            } else {
                0
            }),
            final(self).streak.failures == (match outcome {
                AssetOutcome::AlreadyThere => old(self).streak.failures,
                AssetOutcome::NotFound { no_connection } => if no_connection {
                    retry::one_more(old(self).streak.failures)
                } else {
                    0
                },
                _ => 0,
            }),
            ({
                let stop = outcome == (AssetOutcome::NotFound { no_connection: true })
                    && final(self).streak.failures >= MAX_CDX_CONNECTIVITY_FAILURES;
                &&& final(self).done == (if stop {
                    old(self).total
                } else {
                    (old(self).done + 1) as usize
                })
                &&& final(self).deferred == old(self).deferred + (if stop {
                    old(self).total - old(self).done
                } else if outcome == (AssetOutcome::NotFound { no_connection: true }) {
                    1
                } else {
                    0
                })
            }),
    {
        self.done = self.done + 1;
        match outcome {
            AssetOutcome::AlreadyThere => {},
            AssetOutcome::NotFound { no_connection } => {
                if no_connection {
                    self.deferred = self.deferred + 1;
                    if self.streak.note(true) {
                        self.deferred = self.deferred + (self.total - self.done);
                        self.done = self.total;
                    }
                } else {
                    self.unavailable = self.unavailable + 1;
                    self.streak.note(false);
                }
            },
            AssetOutcome::NotSaved => {
                self.unavailable = self.unavailable + 1;
                self.streak.note(false);
            },
            AssetOutcome::Saved => {
                self.recovered = self.recovered + 1;
                self.streak.note(false);
            },
        }
    }
}

/// What a lookup says of a missing file; none where it found a capture.
pub fn lookup_outcome(lookup: &RecordLookup) -> (r: Option<AssetOutcome>)
    ensures
        r == (if lookup.record is Some {
            None
        } else {
            Some(
                AssetOutcome::NotFound {
                    no_connection: lookup.connectivity_failed && !lookup.cdx_query_succeeded,
                },
            )
        }),
{
    if lookup.record.is_some() {
        None
    } else {
        Some(AssetOutcome::NotFound { no_connection: lookup.is_deferred() })
    }
}

/// A file is one of the static files that can be recovered by the extension of its name, in whatever
/// case, and one of the texts that may refer to others likewise.
pub proof fn law_assets_and_texts_are_told_by_extension(
    directory: path::PathView,
    stem: Seq<char>,
    extension: Seq<char>,
)
    requires
        stem.len() > 0,
        extension.len() > 0,
        !extension.contains('.'),
    ensures
        ({
            let p = path::PathView {
                absolute: directory.absolute,
                parts: directory.parts.push(stem + "."@ + extension),
            };
            let e = text::lower(extension);
            let resource = {
                ||| e == "atom"@ || e == "bmp"@ || e == "css"@ || e == "eot"@ || e == "gif"@
                ||| e == "ico"@ || e == "jpe"@ || e == "jpeg"@ || e == "jpg"@ || e == "js"@
                ||| e == "json"@ || e == "m4a"@ || e == "mid"@ || e == "midi"@ || e == "mjs"@
                ||| e == "mov"@ || e == "mp3"@ || e == "mp4"@ || e == "ogg"@ || e == "otf"@
                ||| e == "pdf"@ || e == "png"@ || e == "rss"@ || e == "svg"@ || e == "swf"@
                ||| e == "ttf"@ || e == "txt"@ || e == "wav"@ || e == "webm"@ || e == "webp"@
                ||| e == "woff"@ || e == "woff2"@ || e == "xml"@
            };
            let document = {
                ||| e == "css"@ || e == "htm"@ || e == "html"@ || e == "js"@ || e == "mjs"@
                ||| e == "txt"@ || e == "xhtml"@
            };
            &&& static_asset(p) <==> resource
            &&& reference_text_file(p) <==> document
        }),
{
    lemma_named(directory, stem, extension);
}

/// The name and the extension of a file.
proof fn lemma_named(directory: path::PathView, stem: Seq<char>, extension: Seq<char>)
    requires
        stem.len() > 0,
        extension.len() > 0,
        !extension.contains('.'),
    ensures
        ({
            let name = stem + "."@ + extension;
            let p = path::PathView {
                absolute: directory.absolute,
                parts: directory.parts.push(name),
            };
            &&& p.file_name() == Some(name)
            &&& p.extension() == Some(extension)
            &&& p.parts.drop_last() == directory.parts
            &&& text::rindex_of(name, '.', name.len() - 1) == Some(stem.len() as int)
            &&& name.take(stem.len() as int) == stem
            &&& name.skip(stem.len() as int + 1) == extension
        }),
{
    let name = stem + "."@ + extension;
    pathmap::lemma_extension_is_read(stem, extension);
    reveal_strlit(".");
    reveal_strlit("..");
    assert("."@.len() == 1 && ".."@.len() == 2);
    assert(name.len() >= 3);
    assert(name.len() - 1 == stem.len() + extension.len());
    assert(name.skip(stem.len() as int + 1) == extension);
    assert(name.take(stem.len() as int) == stem);
    assert(directory.parts.push(name).drop_last() == directory.parts);
    assert(directory.parts.push(name).last() == name);
}

/// A screenshot may be kept under its other name: `screen` and `screenshot` stand for each other
/// before a number, in the same directory and with the same extension. No other name has another.
pub proof fn law_screenshots_have_two_names(
    directory: path::PathView,
    number: Seq<char>,
    stem: Seq<char>,
    extension: Seq<char>,
)
    requires
        number.len() > 0,
        '0' <= number[0] <= '9',
        stem.len() > 0,
        !text::starts_with(stem, "screen"@),
        extension.len() > 0,
        !extension.contains('.'),
    ensures
        ({
            let file = |name: Seq<char>|
                path::PathView {
                    absolute: directory.absolute,
                    parts: directory.parts.push(name + "."@ + extension),
                };
            &&& alias_candidate(file("screen"@ + number)) == Some(file("screenshot"@ + number))
            &&& alias_candidate(file("screenshot"@ + number)) == Some(file("screen"@ + number))
            &&& alias_candidate(file(stem)) is None
        }),
{
    reveal_strlit("screen");
    reveal_strlit("screenshot");
    let short = "screen"@ + number;
    let long = "screenshot"@ + number;
    assert(short.subrange(0, 6) == "screen"@);
    assert(short.skip(6) == number);
    assert(long.subrange(0, 6) == "screen"@);
    assert(long.subrange(0, 10) == "screenshot"@);
    assert(long.skip(10) == number);
    assert(long.skip(6)[0] == 's');
    assert(!digit_first(long.skip(6)));
    lemma_named(directory, short, extension);
    lemma_named(directory, long, extension);
    lemma_named(directory, stem, extension);
    if text::starts_with(stem, "screenshot"@) {
        assert(stem.subrange(0, 6) == stem.subrange(0, 10).subrange(0, 6));
        assert("screenshot"@.subrange(0, 6) == "screen"@);
        assert(text::starts_with(stem, "screen"@));
    }
}

/// A text refers to a file where the relative link from its place stands in it, or the path from the
/// root behind a slash.
pub proof fn law_texts_refer_by_link_or_by_path(
    content: Seq<char>,
    source: path::PathView,
    candidate: path::PathView,
)
    requires
        candidate.parts.len() > 0,
        forall|i: int|
            0 <= i < candidate.parts.len() ==> pathmap::is_ordinary(#[trigger] candidate.parts[i]),
    ensures
        refers_to(content, source, candidate) <==> (path::relative_link_of(source, candidate).len()
            > 0 && text::contains(content, path::relative_link_of(source, candidate)))
            || text::contains(content, "/"@ + text::join(candidate.parts, "/"@)),
{
    lemma_slash_parts(candidate.parts);
    text::lemma_join_first(candidate.parts, "/"@);
}

/// Ordinary names keep their slashes.
proof fn lemma_slash_parts(parts: Seq<Seq<char>>)
    requires
        forall|i: int| 0 <= i < parts.len() ==> pathmap::is_ordinary(#[trigger] parts[i]),
    ensures
        slash_parts(parts) == parts,
        parts.len() > 0 ==> parts[0].len() > 0,
    decreases parts.len(),
{
    if parts.len() > 0 {
        let front = parts.drop_last();
        assert forall|i: int| 0 <= i < front.len() implies pathmap::is_ordinary(
            #[trigger] front[i],
        ) by {
            assert(front[i] == parts[i]);
        }
        lemma_slash_parts(front);
        let last = parts[parts.len() - 1];
        assert(pathmap::is_ordinary(last));
        assert(pathmap::is_ordinary(parts[0]));
        reveal_strlit(".");
        reveal_strlit("..");
        assert("."@[0] == '.' && ".."@[0] == '.');
        assert(path::is_normal(last));
        assert(text::replace_char(last, '\\', '/') == last);
        assert(front.push(last) == parts);
    } else {
        assert(slash_parts(parts) == parts);
    }
}

/// A link to a missing static file is one whose source and target lie in the site.
pub proof fn law_missing_assets_are_listed(
    root: path::PathView,
    missing: Seq<link_validation::MissingLinkView>,
    source: path::PathView,
    target: path::PathView,
)
    ensures
        asset_links(root, missing).contains((source, target)) <==> exists|i: int|
            0 <= i < missing.len() && (#[trigger] missing[i]).source.strip_prefix(root) == Some(
                source,
            ) && missing[i].target.strip_prefix(root) == Some(target) && static_asset(target),
        asset_targets(root, missing).contains(target) <==> exists|i: int|
            0 <= i < missing.len() && (#[trigger] missing[i]).target.strip_prefix(root) == Some(
                target,
            ) && static_asset(target),
    decreases missing.len(),
{
    if missing.len() > 0 {
        let front = missing.drop_last();
        law_missing_assets_are_listed(root, front, source, target);
        lemma_listed_links(root, missing, source, target);
        lemma_listed_targets(root, missing, target);
    }
}

/// The links of one more missing file.
proof fn lemma_listed_links(
    root: path::PathView,
    missing: Seq<link_validation::MissingLinkView>,
    source: path::PathView,
    target: path::PathView,
)
    requires
        missing.len() > 0,
        asset_links(root, missing.drop_last()).contains((source, target)) <==> exists|i: int|
            0 <= i < missing.len() - 1 && (#[trigger] missing.drop_last()[i]).source.strip_prefix(
                root,
            ) == Some(source) && missing.drop_last()[i].target.strip_prefix(root) == Some(target)
                && static_asset(target),
    ensures
        asset_links(root, missing).contains((source, target)) <==> exists|i: int|
            0 <= i < missing.len() && (#[trigger] missing[i]).source.strip_prefix(root) == Some(
                source,
            ) && missing[i].target.strip_prefix(root) == Some(target) && static_asset(target),
{
    let front = missing.drop_last();
    let rest = asset_links(root, front);
    let all = asset_links(root, missing);
    let end = missing.len() - 1;
    assert(missing[end] == missing.last());
    let x = (source, target);
    if rest.contains(x) {
        let k = choose|k: int| 0 <= k < rest.len() && rest[k] == x;
        assert(all[k] == x);
        let i = choose|i: int|
            0 <= i < front.len() && (#[trigger] front[i]).source.strip_prefix(root) == Some(source)
                && front[i].target.strip_prefix(root) == Some(target) && static_asset(target);
        assert(missing[i] == front[i]);
    }
    if all.contains(x) {
        let k = choose|k: int| 0 <= k < all.len() && all[k] == x;
        if k < rest.len() {
            assert(rest[k] == x);
        } else {
            assert(missing[end].source.strip_prefix(root) == Some(source));
        }
    }
    if exists|i: int|
        0 <= i < missing.len() && (#[trigger] missing[i]).source.strip_prefix(root) == Some(source)
            && missing[i].target.strip_prefix(root) == Some(target) && static_asset(target) {
        let i = choose|i: int|
            0 <= i < missing.len() && (#[trigger] missing[i]).source.strip_prefix(root) == Some(
                source,
            ) && missing[i].target.strip_prefix(root) == Some(target) && static_asset(target);
        if i < end {
            assert(front[i] == missing[i]);
        } else {
            assert(all[all.len() - 1] == x);
        }
    }
}

/// The targets of one more missing file.
proof fn lemma_listed_targets(
    root: path::PathView,
    missing: Seq<link_validation::MissingLinkView>,
    target: path::PathView,
)
    requires
        missing.len() > 0,
        asset_targets(root, missing.drop_last()).contains(target) <==> exists|i: int|
            0 <= i < missing.len() - 1 && (#[trigger] missing.drop_last()[i]).target.strip_prefix(
                root,
            ) == Some(target) && static_asset(target),
    ensures
        asset_targets(root, missing).contains(target) <==> exists|i: int|
            0 <= i < missing.len() && (#[trigger] missing[i]).target.strip_prefix(root) == Some(
                target,
            ) && static_asset(target),
{
    let front = missing.drop_last();
    let rest = asset_targets(root, front);
    let all = asset_targets(root, missing);
    let end = missing.len() - 1;
    assert(missing[end] == missing.last());
    if rest.contains(target) {
        let k = choose|k: int| 0 <= k < rest.len() && rest[k] == target;
        assert(all[k] == target);
        let i = choose|i: int|
            0 <= i < front.len() && (#[trigger] front[i]).target.strip_prefix(root) == Some(target)
                && static_asset(target);
        assert(missing[i] == front[i]);
    }
    if all.contains(target) {
        let k = choose|k: int| 0 <= k < all.len() && all[k] == target;
        if k < rest.len() {
            assert(rest[k] == target);
        } else {
            assert(missing[end].target.strip_prefix(root) == Some(target));
        }
    }
    if exists|i: int|
        0 <= i < missing.len() && (#[trigger] missing[i]).target.strip_prefix(root) == Some(target)
            && static_asset(target) {
        let i = choose|i: int|
            0 <= i < missing.len() && (#[trigger] missing[i]).target.strip_prefix(root) == Some(
                target,
            ) && static_asset(target);
        if i < end {
            assert(front[i] == missing[i]);
        } else {
            assert(all[all.len() - 1] == target);
        }
    }
}

/// A file stands for a missing one where it has the other name of the missing one, is there, and
/// a text in the directory of the page that misses the file refers to it.
pub proof fn law_stand_ins_are_there_and_referred_to(
    site: link_validation::SiteView,
    texts: Seq<link_validation::SourceView>,
    source: path::PathView,
    target: path::PathView,
)
    ensures
        alias_file(site, texts, source, target) == match alias_candidate(target) {
            Some(candidate) => if site.files.contains(site.root.join(candidate).text()) && exists|
                i: int,
            |
                0 <= i < texts.len() && (#[trigger] texts[i]).path.parent() == source.parent()
                    && reference_text_file(texts[i].path) && refers_to(
                    texts[i].text,
                    texts[i].path,
                    candidate,
                ) {
                Some(site.root.join(candidate))
            } else {
                None
            },
            None => None,
        },
{
    if let Some(candidate) = alias_candidate(target) {
        if is_referred_to(texts, source, candidate) {
            let i = choose|i: int|
                0 <= i < texts.len() && refers_beside(#[trigger] texts[i], source, candidate);
            assert(texts[i].path.parent() == source.parent());
        }
        if exists|i: int|
            0 <= i < texts.len() && (#[trigger] texts[i]).path.parent() == source.parent()
                && reference_text_file(texts[i].path) && refers_to(
                texts[i].text,
                texts[i].path,
                candidate,
            ) {
            let i = choose|i: int|
                0 <= i < texts.len() && (#[trigger] texts[i]).path.parent() == source.parent()
                    && reference_text_file(texts[i].path) && refers_to(
                    texts[i].text,
                    texts[i].path,
                    candidate,
                );
            assert(refers_beside(texts[i], source, candidate));
        }
    }
}

/// A link calls for another capture of its page where the page has a capture, the target is not there,
/// and the file with the other name is there or can be recovered.
pub proof fn law_links_that_call_for_other_captures(
    site: link_validation::SiteView,
    selected: Map<Seq<char>, cdx::RecordView>,
    recoverable: Map<Seq<char>, cdx::RecordView>,
    links: Seq<(path::PathView, path::PathView)>,
    link: (path::PathView, path::PathView),
)
    ensures
        alias_requests(site, selected, recoverable, Seq::empty()) == Seq::<
            AliasRequestView,
        >::empty(),
        alias_requests(site, selected, recoverable, links.push(link)) == match alias_candidate(
            link.1,
        ) {
            Some(candidate) => if selected.contains_key(link.0.text()) && !site.files.contains(
                site.root.join(link.1).text(),
            ) && (site.files.contains(site.root.join(candidate).text())
                || recoverable.contains_key(candidate.text())) {
                alias_requests(site, selected, recoverable, links).push(
                    AliasRequestView { source: link.0, target: link.1, candidate },
                )
            } else {
                alias_requests(site, selected, recoverable, links)
            },
            None => alias_requests(site, selected, recoverable, links),
        },
{
    assert(links.push(link).drop_last() == links);
}

/// After three lookups in a row without a connection the pages behind are left for another run; any
/// other failure starts the count anew, and takes no page away.
pub proof fn law_three_failures_end_a_search(search: AliasSearchView)
    requires
        search.failures < 3,
    ensures
        search.after_failure(false).failures == 0,
        search.after_failure(false).pending == search.pending,
        search.after_failure(true).failures == search.failures + 1,
        search.after_failure(true).pending == if search.failures == 2 {
            Seq::empty()
        } else {
            search.pending
        },
        search.after_failure(true).confirmed == search.confirmed,
        search.after_failure(true).created == search.created,
{
}

/// A search makes the copies that were confirmed first, then looks at the captures of the current page
/// while something is open, then takes the next page with all of its requests.
pub proof fn law_alias_searches_go_in_order(search: AliasSearchView)
    ensures
        search.confirmed.len() > 0 ==> search.next().0 == AliasStepView::Copy(search.confirmed[0])
            && search.next().1.confirmed == search.confirmed.skip(1),
        search.confirmed.len() == 0 && search.open.len() > 0 && search.records.len() > 0
            ==> search.next().0 == AliasStepView::Fetch(search.records[0])
            && search.next().1.records == search.records.skip(1) && search.next().1.open
            == search.open,
        search.confirmed.len() == 0 && (search.open.len() == 0 || search.records.len() == 0)
            && search.pending.len() > 0 ==> {
            let after = search.next().1;
            &&& search.next().0 == AliasStepView::LookUp(search.pending[0].source)
            &&& after.source == search.pending[0].source
            &&& after.open + after.pending == search.pending
            &&& forall|i: int|
                0 <= i < after.open.len() ==> (#[trigger] after.open[i]).source
                    == search.pending[0].source
            &&& after.pending.len() > 0 ==> after.pending[0].source != search.pending[0].source
        },
        search.confirmed.len() == 0 && (search.open.len() == 0 || search.records.len() == 0)
            && search.pending.len() == 0 ==> search.next() == (AliasStepView::Finished, search),
{
    if search.pending.len() > 0 {
        let source = search.pending[0].source;
        lemma_whole_run(search.pending, source);
        let n = run_of(search.pending, source) as int;
        assert(search.pending.take(n) + search.pending.skip(n) == search.pending);
    }
}

/// The requests of one page at the start, all of them.
proof fn lemma_whole_run(requests: Seq<AliasRequestView>, source: path::PathView)
    ensures
        run_of(requests, source) <= requests.len(),
        forall|i: int|
            0 <= i < run_of(requests, source) ==> (#[trigger] requests[i]).source == source,
        run_of(requests, source) < requests.len() ==> requests[run_of(requests, source) as int].source
            != source,
    decreases requests.len(),
{
    if requests.len() > 0 && requests[0].source == source {
        let rest = requests.skip(1);
        lemma_whole_run(rest, source);
        assert forall|i: int| 0 <= i < run_of(requests, source) implies (#[trigger] requests[i]).source
            == source by {
            if i > 0 {
                assert(rest[i - 1] == requests[i]);
            }
        }
    }
}

/// A file that is saved is counted as recovered, one whose bytes could not be had or for which there is
/// no capture as unavailable, one that is there by now not at all. One for which no query was answered
/// is left for another run, and the third such one in a row leaves all behind it for another run too.
pub proof fn law_recoveries_are_counted(recovery: StaticAssetRecovery)
    requires
        recovery.well_formed(),
        recovery.done < recovery.total,
        recovery.streak.failures < 3,
    ensures
        ({
            let there = recovery.settled(AssetOutcome::AlreadyThere);
            let saved = recovery.settled(AssetOutcome::Saved);
            let lost = recovery.settled(AssetOutcome::NotSaved);
            let missing = recovery.settled(AssetOutcome::NotFound { no_connection: false });
            let unanswered = recovery.settled(AssetOutcome::NotFound { no_connection: true });
            let r = recovery;
            &&& there.done == r.done + 1 && there.recovered == r.recovered && there.unavailable
                == r.unavailable && there.deferred == r.deferred && there.streak == r.streak
            &&& saved.done == r.done + 1 && saved.recovered == r.recovered + 1 && saved.unavailable
                == r.unavailable && saved.deferred == r.deferred && saved.streak.failures == 0
            &&& lost == missing
            &&& lost.done == r.done + 1 && lost.recovered == r.recovered && lost.unavailable
                == r.unavailable + 1 && lost.deferred == r.deferred && lost.streak.failures == 0
            &&& unanswered.recovered == r.recovered && unanswered.unavailable == r.unavailable
            &&& unanswered.streak.failures == r.streak.failures + 1
            &&& r.streak.failures < 2 ==> unanswered.done == r.done + 1 && unanswered.deferred
                == r.deferred + 1
            &&& r.streak.failures == 2 ==> unanswered.done == r.total && unanswered.deferred
                == r.deferred + (r.total - r.done)
        }),
{
}

/// Links are dealt with in turn: a missing file for which another stands is copied from it, is there
/// from then on, and holds what the other holds; a file that is there stays, and so does everything
/// where no file stands for the missing one.
pub proof fn law_copies_are_made_in_turn(
    site: link_validation::SiteView,
    texts: Seq<link_validation::SourceView>,
    links: Seq<(path::PathView, path::PathView)>,
    source: path::PathView,
    target: path::PathView,
)
    ensures
        local_aliases(site, texts, Seq::empty()).copies.len() == 0,
        local_aliases(site, texts, Seq::empty()).site == site,
        ({
            let before = local_aliases(site, texts, links);
            let after = local_aliases(site, texts, links.push((source, target)));
            let place = before.site.root.join(target);
            let from = alias_file(before.site, before.texts, source, target);
            &&& from is None || before.site.files.contains(place.text()) ==> after == before
            &&& !before.site.files.contains(place.text()) ==> (from matches Some(file) ==> {
                &&& after.copies == before.copies.push((file, place))
                &&& after.site.files == before.site.files.insert(place.text())
                &&& after.site.root == before.site.root
                &&& after.texts == with_copy(
                    before.texts,
                    alias_candidate(target)->Some_0,
                    target,
                )
            })
        }),
{
    assert(links.push((source, target)).drop_last() == links);
    assert(links.push((source, target)).last() == (source, target));
}

/// A copy of a text holds the text of the first file at the place that it was made from; a copy of
/// anything else adds no text.
pub proof fn law_copies_hold_the_text_of_their_source(
    before: Seq<link_validation::SourceView>,
    text: Seq<char>,
    after: Seq<link_validation::SourceView>,
    from: path::PathView,
    to: path::PathView,
)
    requires
        forall|i: int| 0 <= i < before.len() ==> (#[trigger] before[i]).path != from,
    ensures
        ({
            let file = link_validation::SourceView { path: from, text };
            let all = before + seq![file] + after;
            with_copy(all, from, to) == all.push(link_validation::SourceView { path: to, text })
        }),
        with_copy(before, from, to) == before,
{
    let file = link_validation::SourceView { path: from, text };
    lemma_first_text(before, file, after);
}

/// The first text at a place.
proof fn lemma_first_text(
    before: Seq<link_validation::SourceView>,
    file: link_validation::SourceView,
    after: Seq<link_validation::SourceView>,
)
    requires
        forall|i: int| 0 <= i < before.len() ==> (#[trigger] before[i]).path != file.path,
    ensures
        text_at(before + seq![file] + after, file.path) == Some(file.text),
        text_at(before, file.path) is None,
    decreases before.len(),
{
    let all = before + seq![file] + after;
    if before.len() > 0 {
        let rest = before.drop_first();
        assert forall|i: int| 0 <= i < rest.len() implies (#[trigger] rest[i]).path != file.path by {
            assert(rest[i] == before[i + 1]);
        }
        lemma_first_text(rest, file, after);
        assert(all.drop_first() == rest + seq![file] + after);
        assert(all[0] == before[0]);
    } else {
        assert(all[0] == file);
    }
}

/// Names joined by slashes hold every name, with backslashes written as slashes.
proof fn lemma_joined_names(parts: Seq<Seq<char>>)
    requires
        forall|i: int| 0 <= i < parts.len() ==> path::is_normal(#[trigger] parts[i]),
    ensures
        slash_parts(parts).len() == parts.len(),
        text::join(slash_parts(parts), "/"@) == text::replace_char(
            text::join(parts, "/"@),
            '\\',
            '/',
        ),
    decreases parts.len(),
{
    reveal_strlit("/");
    if parts.len() > 0 {
        let front = parts.drop_last();
        assert forall|i: int| 0 <= i < front.len() implies path::is_normal(#[trigger] front[i]) by {
            assert(front[i] == parts[i]);
        }
        lemma_joined_names(front);
        let last = text::replace_char(parts.last(), '\\', '/');
        let whole = slash_parts(parts);
        assert(whole == slash_parts(front).push(last));
        assert(whole.drop_last() == slash_parts(front));
        let sides = text::replace_char(text::join(parts, "/"@), '\\', '/');
        if parts.len() == 1 {
            assert(whole[0] == last);
        } else {
            assert(text::join(whole, "/"@) =~= sides);
        }
    } else {
        assert(text::join(slash_parts(parts), "/"@) =~= text::replace_char(
            text::join(parts, "/"@),
            '\\',
            '/',
        ));
    }
}

/// A text that gives all names of a file from the root on, each after a slash and with backslashes
/// written as slashes, refers to the file.
pub proof fn law_texts_refer_from_the_root(
    content: Seq<char>,
    source: path::PathView,
    candidate: path::PathView,
)
    requires
        forall|i: int|
            0 <= i < candidate.parts.len() ==> path::is_normal(#[trigger] candidate.parts[i]),
    ensures
        ({
            let names = text::replace_char(text::join(candidate.parts, "/"@), '\\', '/');
            let relative = path::relative_link_of(source, candidate);
            refers_to(content, source, candidate) <==> {
                ||| relative.len() > 0 && text::contains(content, relative)
                ||| names.len() > 0 && text::contains(content, "/"@ + names)
            }
        }),
{
    lemma_joined_names(candidate.parts);
}

} // verus!

//! Which capture of a page or file is kept: whether it is usable, and which others are tried.
use crate::cdx;
use crate::link_validation;
use crate::maps::TextSet;
use crate::numbers;
use crate::order;
use crate::path;
use crate::pathmap;
use crate::soft_redirect;
use crate::text;
use crate::urls;
use cdx::CdxRecord;
use path::LocalPath;
use vstd::prelude::*;

verus! {

/// Whether a capture is a page, by its media type or by the name under which it is kept.
pub open spec fn is_page(record: cdx::RecordView, local: path::PathView) -> bool {
    pathmap::html_mimetype(record.mimetype) || link_validation::html_file(local)
}

/// Whether the references of a capture are rewritten.
pub open spec fn is_rewritten(record: cdx::RecordView, local: path::PathView) -> bool {
    ||| pathmap::html_mimetype(record.mimetype)
    ||| pathmap::css_mimetype(record.mimetype)
    ||| local.extension() matches Some(e) && (text::same_ignoring_case(e, "html"@)
        || text::same_ignoring_case(e, "css"@))
}

/// Whether a capture is a page that may be a redirect or an error.
pub fn should_detect_soft_redirect(record: &CdxRecord, local_path: &LocalPath) -> (r: bool)
    ensures
        r == is_page(record@, local_path@),
{
    pathmap::is_html_mimetype(record.mimetype.as_str()) || link_validation::is_html_file(local_path)
}

/// Whether what was captured is a page that only redirects or shows an error.
pub fn is_unusable_capture(record: &CdxRecord, local_path: &LocalPath, content: &str) -> (r: bool)
    ensures
        r == (is_page(record@, local_path@) && soft_redirect::unusable(content@)),
{
    should_detect_soft_redirect(record, local_path) && soft_redirect::is_unusable_html_capture(
        content,
    )
}

/// Whether the references of a capture are rewritten.
pub fn should_rewrite_as_text(record: &CdxRecord, local_path: &LocalPath) -> (r: bool)
    ensures
        r == is_rewritten(record@, local_path@),
{
    if pathmap::is_html_mimetype(record.mimetype.as_str()) || pathmap::is_css_mimetype(
        record.mimetype.as_str(),
    ) {
        return true;
    }
    match local_path.extension() {
        Some(e) => text::equal_ignoring_case(e.as_str(), "html") || text::equal_ignoring_case(
            e.as_str(),
            "css",
        ),
        None => false,
    }
}

/// Whether a capture is read whole before it is written.
pub fn should_buffer_response(record: &CdxRecord, local_path: &LocalPath, rewrite_links: bool) -> (r:
    bool)
    ensures
        r == (is_page(record@, local_path@) || rewrite_links && is_rewritten(record@, local_path@)),
{
    should_detect_soft_redirect(record, local_path) || (rewrite_links && should_rewrite_as_text(
        record,
        local_path,
    ))
}

/// A host without the `www.` before it.
pub open spec fn without_www(host: Seq<char>) -> Seq<char>
    decreases host.len(),
{
    let www = "www."@;
    if www.len() > 0 && text::starts_with(host, www) {
        without_www(host.skip(www.len() as int))
    } else {
        host
    }
}

/// The names by which a page shows that it belongs to a host: the host, and its first label where
/// that is long enough to tell.
pub open spec fn host_terms(host: Seq<char>) -> Seq<Seq<char>> {
    let name = text::lower(text::trim_end_char(without_www(host), '.'));
    let label = text::split(name, '.')[0];
    if label.len() >= 4 {
        order::sort_dedup_of(seq![name, label])
    } else {
        order::sort_dedup_of(seq![name])
    }
}

/// The names by which a page shows that it belongs to a site.
pub open spec fn identity_terms(original: Seq<char>) -> Seq<Seq<char>> {
    match urls::url_parse(original) {
        Ok(url) => match url.host {
            Some(host) => host_terms(host),
            None => Seq::empty(),
        },
        Err(_) => Seq::empty(),
    }
}

/// A host without the `www.` before it.
fn strip_www(host: &[char]) -> (r: Vec<char>)
    ensures
        r@ == without_www(host@),
{
    let www = text::chars_of("www.");
    let n: usize = host.len();
    let mut from: usize = 0;
    proof {
        reveal_strlit("www.");
        assert(host@.skip(0) == host@);
    }
    loop
        invariant
            from <= n,
            n == host@.len(),
            www@ == "www."@,
            www@.len() == 4,
            without_www(host@) == without_www(host@.skip(from as int)),
        decreases n - from,
    {
        let rest = text::part(host, from, n);
        proof {
            assert(rest@ == host@.skip(from as int));
        }
        if !text::is_at(&rest, &www, 0) {
            return rest;
        }
        proof {
            assert(rest@.skip(4) == host@.skip(from + 4));
        }
        from = from + 4;
    }
}

/// The names by which a page shows that it belongs to a host.
pub fn identity_terms_of_host(host: &str) -> (r: Vec<String>)
    ensures
        text::views(r@) == host_terms(host@),
{
    let bare = text::trim_end_chars(&strip_www(&text::chars_of(host)), '.');
    let name = text::lower_chars(&bare);
    let labels = text::split_at_char(&name, '.');
    let mut terms: Vec<String> = Vec::new();
    terms.push(text::string_of(&name));
    proof {
        assert(text::views(labels@)[0] == labels@[0]@);
        assert(text::views(terms@) == seq![name@]);
    }
    let label = labels[0].clone();
    if text::chars_of(label.as_str()).len() >= 4 {
        terms.push(label);
        proof {
            assert(text::views(terms@) == seq![name@, label@]);
        }
    }
    order::sort_dedup(terms)
}

/// The names by which a page shows that it belongs to a site.
pub fn site_identity_terms(original: &str) -> (r: Vec<String>)
    ensures
        text::views(r@) == identity_terms(original@),
{
    if let Ok(url) = urls::parse_url(original) {
        if let Some(host) = &url.host {
            return identity_terms_of_host(host.as_str());
        }
    }
    let none: Vec<String> = Vec::new();
    proof {
        assert(text::views(none@) == Seq::<Seq<char>>::empty());
    }
    none
}

/// Whether a character is an ASCII letter or digit.
pub open spec fn is_alphanumeric(c: char) -> bool {
    ('a' <= c && c <= 'z') || ('A' <= c && c <= 'Z') || ('0' <= c && c <= '9')
}

/// The letters and digits of a text.
pub open spec fn compact(s: Seq<char>) -> Seq<char>
    decreases s.len(),
{
    if s.len() == 0 {
        Seq::empty()
    } else if is_alphanumeric(s.last()) {
        compact(s.drop_last()).push(s.last())
    } else {
        compact(s.drop_last())
    }
}

/// The letters and digits of a text.
pub fn compact_identity_text(s: &[char]) -> (r: Vec<char>)
    ensures
        r@ == compact(s@),
{
    let mut out: Vec<char> = Vec::new();
    let mut i: usize = 0;
    proof {
        assert(out@ == compact(s@.take(0)));
    }
    while i < s.len()
        invariant
            i <= s@.len(),
            out@ == compact(s@.take(i as int)),
        decreases s@.len() - i,
    {
        let c = s[i];
        proof {
            assert(s@.take(i + 1).drop_last() == s@.take(i as int));
            assert(s@.take(i + 1).last() == c);
        }
        if ('a' <= c && c <= 'z') || ('A' <= c && c <= 'Z') || ('0' <= c && c <= '9') {
            out.push(c);
        }
        i += 1;
    }
    proof {
        assert(s@.take(s@.len() as int) == s@);
    }
    out
}

/// Whether a text in lower case has a name in it, as it is written or by its letters and digits.
pub open spec fn has_term(l: Seq<char>, term: Seq<char>) -> bool {
    text::contains(l, term) || (compact(term).len() > 0 && text::contains(compact(l), compact(term)))
}

/// Whether a page shows that it belongs to a site with these names.
pub open spec fn shows_identity(s: Seq<char>, terms: Seq<Seq<char>>) -> bool {
    terms.len() == 0 || exists|i: int|
        0 <= i < terms.len() && has_term(text::lower(s), #[trigger] terms[i])
}

/// Whether a page shows that it belongs to a site with these names.
pub fn mentions_site_identity(input: &str, terms: &Vec<String>) -> (r: bool)
    ensures
        r == shows_identity(input@, text::views(terms@)),
{
    let ghost all = text::views(terms@);
    if terms.len() == 0 {
        return true;
    }
    let lower = text::lower_chars(&text::chars_of(input));
    let letters = compact_identity_text(&lower);
    let mut i: usize = 0;
    while i < terms.len()
        invariant
            i <= terms@.len(),
            all == text::views(terms@),
            lower@ == text::lower(input@),
            letters@ == compact(lower@),
            forall|k: int| 0 <= k < i ==> !has_term(lower@, #[trigger] all[k]),
        decreases terms@.len() - i,
    {
        let term = text::chars_of(terms[i].as_str());
        let own = compact_identity_text(&term);
        proof {
            assert(all[i as int] == term@);
        }
        if text::find_from(&lower, &term, 0).is_some() || (own.len() > 0 && text::find_from(
            &letters,
            &own,
            0,
        ).is_some()) {
            proof {
                assert(has_term(lower@, all[i as int]));
            }
            return true;
        }
        i += 1;
    }
    false
}

/// The URLs under which other captures are looked for: the one that was captured, and its canonical
/// form where that differs.
pub open spec fn capture_targets(original: Seq<char>) -> Seq<Seq<char>> {
    if pathmap::lookup_key(original) == original {
        seq![original]
    } else {
        seq![original, pathmap::lookup_key(original)]
    }
}

/// The URLs under which other captures are looked for, where the canonical form is known.
pub fn targets_with_key(original: &str, key: &str) -> (r: Vec<String>)
    ensures
        text::views(r@) == (if key@ == original@ {
            seq![original@]
        } else {
            seq![original@, key@]
        }),
{
    let mut targets: Vec<String> = Vec::new();
    targets.push(original.to_owned());
    proof {
        assert(text::views(targets@) == seq![original@]);
    }
    if !text::same(key, original) {
        targets.push(key.to_owned());
        proof {
            assert(text::views(targets@) == seq![original@, key@]);
        }
    }
    targets
}

/// The URLs under which other captures are looked for.
pub fn fallback_capture_targets(original: &str) -> (r: Vec<String>)
    ensures
        text::views(r@) == capture_targets(original@),
{
    targets_with_key(original, pathmap::normalize_lookup_url(original).as_str())
}

/// Whether a digest tells captures apart.
pub open spec fn telling(digest: Seq<char>) -> bool {
    digest.len() > 0 && digest != "-"@
}

/// The digests after one more.
pub open spec fn with_digest(seen: Set<Seq<char>>, digest: Seq<char>) -> Set<Seq<char>> {
    if telling(digest) {
        seen.insert(digest)
    } else {
        seen
    }
}

/// Notes the digest of a capture; tells whether the capture is new.
pub fn remember_digest(seen_digests: &mut TextSet, record: &CdxRecord) -> (r: bool)
    ensures
        final(seen_digests)@ == with_digest(old(seen_digests)@, record@.digest),
        r == !(telling(record@.digest) && old(seen_digests)@.contains(record@.digest)),
{
    if record.digest.as_str().is_empty() || text::same(record.digest.as_str(), "-") {
        return true;
    }
    seen_digests.insert(record.digest.as_str())
}

/// Whether two records are those of one capture.
pub open spec fn same_capture(a: cdx::RecordView, b: cdx::RecordView) -> bool {
    a.timestamp == b.timestamp && a.original == b.original
}

/// Whether two records are those of one capture.
pub fn is_same_capture(a: &CdxRecord, b: &CdxRecord) -> (r: bool)
    ensures
        r == same_capture(a@, b@),
{
    text::same(a.timestamp.as_str(), b.timestamp.as_str()) && text::same(
        a.original.as_str(),
        b.original.as_str(),
    )
}

/// What a search for another capture does next.
pub enum SearchStep {
    /// Look for captures under this URL.
    LookUp(String),
    /// Get the bytes of this capture.
    Fetch(CdxRecord),
    /// There is no other capture.
    Exhausted,
}

/// The mathematical form of a step.
#[verifier::ext_equal]
pub enum SearchStepView {
    LookUp(Seq<char>),
    Fetch(cdx::RecordView),
    Exhausted,
}

impl View for SearchStep {
    type V = SearchStepView;

    open spec fn view(&self) -> SearchStepView {
        match self {
            SearchStep::LookUp(target) => SearchStepView::LookUp(target@),
            SearchStep::Fetch(record) => SearchStepView::Fetch(record@),
            SearchStep::Exhausted => SearchStepView::Exhausted,
        }
    }
}

/// What a capture that was fetched is worth.
#[derive(Debug, Clone, Copy, PartialEq, Eq, Structural)]
pub enum Verdict {
    Usable,
    /// It is a redirect or an error.
    Unusable,
    /// It does not look like the requested site.
    Foreign,
}

/// A search for another capture of a page or file.
pub struct CaptureSearch {
    current: CdxRecord,
    local_path: LocalPath,
    /// Whether the bytes of the current capture could be had.
    current_seen: bool,
    terms: Vec<String>,
    targets: Vec<String>,
    next_target: usize,
    queue: Vec<CdxRecord>,
    next_record: usize,
    seen_digests: TextSet,
}

/// The mathematical form of a search.
#[verifier::ext_equal]
pub struct SearchView {
    pub current: cdx::RecordView,
    pub local: path::PathView,
    pub current_seen: bool,
    pub terms: Seq<Seq<char>>,
    /// The URLs that were not looked up yet.
    pub targets: Seq<Seq<char>>,
    /// The captures that were found and not tried yet.
    pub queue: Seq<cdx::RecordView>,
    /// The digests of the captures that were seen.
    pub seen: Set<Seq<char>>,
}

impl View for CaptureSearch {
    type V = SearchView;

    closed spec fn view(&self) -> SearchView {
        SearchView {
            current: self.current@,
            local: self.local_path@,
            current_seen: self.current_seen,
            terms: text::views(self.terms@),
            targets: text::views(self.targets@).skip(self.next_target as int),
            queue: cdx::record_views(self.queue@).skip(self.next_record as int),
            seen: self.seen_digests@,
        }
    }
}

impl SearchView {
    /// Whether a capture is neither the current one nor one that was seen before.
    pub open spec fn is_new(self, record: cdx::RecordView) -> bool {
        &&& !same_capture(record, self.current)
        &&& !(telling(record.digest) && self.seen.contains(record.digest))
    }

    /// Whether a capture can stand for the current one: a page where the current one is a page.
    pub open spec fn can_replace(self, record: cdx::RecordView) -> bool {
        is_page(self.current, self.local) ==> is_page(record, self.local)
    }

    /// The first new capture that can stand for the current one, and the search behind it. New
    /// captures that cannot are seen from then on.
    pub open spec fn advance(self) -> (Option<cdx::RecordView>, SearchView)
        decreases self.queue.len(),
    {
        if self.queue.len() == 0 {
            (None, self)
        } else {
            let record = self.queue[0];
            let rest = SearchView { queue: self.queue.skip(1), ..self };
            if !self.is_new(record) {
                rest.advance()
            } else if self.can_replace(record) {
                (Some(record), rest)
            } else {
                SearchView { seen: with_digest(self.seen, record.digest), ..rest }.advance()
            }
        }
    }

    /// What the search does next, and the search behind it.
    pub open spec fn next(self) -> (SearchStepView, SearchView) {
        let (found, after) = self.advance();
        match found {
            Some(record) => (SearchStepView::Fetch(record), after),
            None => if after.targets.len() > 0 {
                (
                    SearchStepView::LookUp(after.targets[0]),
                    SearchView { targets: after.targets.skip(1), ..after },
                )
            } else {
                (SearchStepView::Exhausted, after)
            },
        }
    }

    /// What a capture with a text is worth. Where the current capture was seen and is of no use,
    /// another one also has to look like the requested site.
    pub open spec fn verdict(self, record: cdx::RecordView, s: Seq<char>) -> Verdict {
        if !is_page(record, self.local) {
            Verdict::Usable
        } else if soft_redirect::unusable(s) {
            Verdict::Unusable
        } else if self.current_seen && !shows_identity(s, self.terms) {
            Verdict::Foreign
        } else {
            Verdict::Usable
        }
    }
}

impl CaptureSearch {
    /// Whether the positions lie within the lists.
    pub closed spec fn well_formed(&self) -> bool {
        self.next_target <= self.targets@.len() && self.next_record <= self.queue@.len()
    }

    /// A search for another capture than the current one, whose bytes were of no use
    /// (`current_seen`) or could not be had.
    pub fn new(current: &CdxRecord, local_path: &LocalPath, current_seen: bool) -> (r: CaptureSearch)
        ensures
            r.well_formed(),
            r@ == (SearchView {
                current: current@,
                local: local_path@,
                current_seen,
                terms: identity_terms(current@.original),
                targets: capture_targets(current@.original),
                queue: Seq::empty(),
                seen: if current_seen {
                    with_digest(Set::empty(), current@.digest)
                } else {
                    Set::empty()
                },
            }),
    {
        let mut seen_digests = TextSet::new();
        if current_seen {
            remember_digest(&mut seen_digests, current);
        }
        let r = CaptureSearch {
            current: current.duplicate(),
            local_path: local_path.duplicate(),
            current_seen,
            terms: site_identity_terms(current.original.as_str()),
            targets: fallback_capture_targets(current.original.as_str()),
            next_target: 0,
            queue: Vec::new(),
            next_record: 0,
            seen_digests,
        };
        proof {
            assert(text::views(r.targets@).skip(0) == text::views(r.targets@));
            assert(cdx::record_views(r.queue@).skip(0) == Seq::<cdx::RecordView>::empty());
        }
        r
    }

    /// What the search does next.
    pub fn next(&mut self) -> (r: SearchStep)
        requires
            old(self).well_formed(),
        ensures
            final(self).well_formed(),
            (r@, final(self)@) == old(self)@.next(),
    {
        let ghost all = cdx::record_views(self.queue@);
        while self.next_record < self.queue.len()
            invariant
                self.well_formed(),
                all == cdx::record_views(self.queue@),
                self@.queue == all.skip(self.next_record as int),
                old(self)@.advance() == self@.advance(),
            decreases self.queue@.len() - self.next_record,
        {
            let ghost before = self@;
            let at: usize = self.next_record;
            let record = &self.queue[at];
            proof {
                assert(before.queue[0] == record@);
                assert(before.queue.skip(1) == all.skip(at + 1));
            }
            let seen = !record.digest.as_str().is_empty() && !text::same(
                record.digest.as_str(),
                "-",
            ) && self.seen_digests.contains(record.digest.as_str());
            let new = !is_same_capture(record, &self.current) && !seen;
            let fits = !should_detect_soft_redirect(&self.current, &self.local_path)
                || should_detect_soft_redirect(record, &self.local_path);
            let copy = record.duplicate();
            self.next_record = at + 1;
            proof {
                assert(self@ == (SearchView { queue: before.queue.skip(1), ..before }));
                assert(new == before.is_new(copy@));
                assert(fits == before.can_replace(copy@));
            }
            if new && fits {
                return SearchStep::Fetch(copy);
            }
            if new {
                remember_digest(&mut self.seen_digests, &copy);
                proof {
                    assert(self@ == (SearchView {
                        queue: before.queue.skip(1),
                        seen: with_digest(before.seen, copy@.digest),
                        ..before
                    }));
                }
            }
        }
        let ghost targets = text::views(self.targets@);
        if self.next_target < self.targets.len() {
            let target = self.targets[self.next_target].clone();
            proof {
                assert(targets.skip(self.next_target as int)[0] == target@);
                assert(targets.skip(self.next_target as int).skip(1) == targets.skip(
                    self.next_target + 1,
                ));
            }
            self.next_target = self.next_target + 1;
            return SearchStep::LookUp(target);
        }
        SearchStep::Exhausted
    }

    /// Takes the captures that a lookup has found.
    pub fn found(&mut self, records: Vec<CdxRecord>)
        requires
            old(self).well_formed(),
        ensures
            final(self).well_formed(),
            final(self)@ == (SearchView { queue: cdx::record_views(records@), ..old(self)@ }),
    {
        self.queue = records;
        self.next_record = 0;
        proof {
            assert(cdx::record_views(self.queue@).skip(0) == cdx::record_views(self.queue@));
        }
    }

    /// Judges a capture that was fetched; one of no use is not tried again under another address.
    pub fn judge(&mut self, record: &CdxRecord, content: &str) -> (r: Verdict)
        requires
            old(self).well_formed(),
        ensures
            final(self).well_formed(),
            r == old(self)@.verdict(record@, content@),
            final(self)@ == (SearchView {
                seen: if r == Verdict::Usable {
                    old(self)@.seen
                } else {
                    with_digest(old(self)@.seen, record@.digest)
                },
                ..old(self)@
            }),
    {
        if !should_detect_soft_redirect(record, &self.local_path) {
            return Verdict::Usable;
        }
        let verdict = if soft_redirect::is_unusable_html_capture(content) {
            Verdict::Unusable
        } else if self.current_seen && !mentions_site_identity(content, &self.terms) {
            Verdict::Foreign
        } else {
            return Verdict::Usable;
        };
        remember_digest(&mut self.seen_digests, record);
        verdict
    }
}

/// A search never proposes the capture that it started from, nor one whose digest it has seen.
pub proof fn law_searches_propose_new_captures(search: SearchView)
    ensures
        search.next().0 matches SearchStepView::Fetch(record) ==> search.queue.contains(record)
            && search.is_new(record) && search.can_replace(record),
{
    lemma_advance(search);
}

/// The capture that is tried next is one of the queue, which gets shorter by it.
proof fn lemma_advance(search: SearchView)
    ensures
        search.advance().0 matches Some(record) ==> search.queue.contains(record)
            && search.is_new(record) && search.can_replace(record),
        search.advance().1.targets == search.targets,
        search.advance().1.queue.len() + (if search.advance().0 is Some {
            1int
        } else {
            0
        }) <= search.queue.len(),
    decreases search.queue.len(),
{
    if search.queue.len() > 0 {
        let record = search.queue[0];
        let rest = SearchView { queue: search.queue.skip(1), ..search };
        if search.is_new(record) && search.can_replace(record) {
            assert(search.queue.contains(record));
        } else {
            let after = if search.is_new(record) {
                SearchView { seen: with_digest(search.seen, record.digest), ..rest }
            } else {
                rest
            };
            lemma_advance(after);
            assert(search.advance() == after.advance());
            match after.advance().0 {
                Some(found) => {
                    let k = choose|k: int| 0 <= k < rest.queue.len() && rest.queue[k] == found;
                    assert(search.queue[k + 1] == found);
                    assert(search.is_new(found));
                },
                None => {},
            }
        }
    }
}

/// Each step of a search uses up captures or addresses, so that it ends.
pub proof fn law_searches_end(search: SearchView)
    ensures
        search.next().0 !is Exhausted ==> {
            let after = search.next().1;
            after.targets.len() < search.targets.len() || (after.targets.len()
                == search.targets.len() && after.queue.len() < search.queue.len())
        },
{
    lemma_advance(search);
}

/// The other captures of a page that are compared with the one that was kept.
pub struct AlternateCaptures {
    source: CdxRecord,
    source_path: LocalPath,
    records: Vec<CdxRecord>,
    seen_digests: TextSet,
    seen_records: TextSet,
}

/// How many other captures of a page are compared.
pub const MAX_ALTERNATE_PAGE_CAPTURE_CHECKS: usize = 20;

/// The mathematical form of the other captures.
#[verifier::ext_equal]
pub struct AlternatesView {
    pub source: cdx::RecordView,
    pub local: path::PathView,
    pub records: Seq<cdx::RecordView>,
    pub digests: Set<Seq<char>>,
    /// The keys of the captures.
    pub captures: Set<Seq<char>>,
}

impl View for AlternateCaptures {
    type V = AlternatesView;

    closed spec fn view(&self) -> AlternatesView {
        AlternatesView {
            source: self.source@,
            local: self.source_path@,
            records: cdx::record_views(self.records@),
            digests: self.seen_digests@,
            captures: self.seen_records@,
        }
    }
}

/// A text for a capture: the length of its timestamp, its timestamp and its lookup key.
pub open spec fn capture_key(record: cdx::RecordView) -> Seq<char> {
    numbers::decimal(record.timestamp.len()) + " "@ + record.timestamp + pathmap::lookup_key(
        record.original,
    )
}

/// A text for a capture: the length of its timestamp, its timestamp and its lookup key.
pub fn capture_key_of(record: &CdxRecord) -> (r: String)
    ensures
        r@ == capture_key(record@),
{
    let timestamp = text::chars_of(record.timestamp.as_str());
    let mut out = numbers::decimal_chars(timestamp.len() as u64);
    text::push_text(&mut out, " ");
    text::push_chars(&mut out, &timestamp);
    text::push_text(
        &mut out,
        pathmap::normalize_lookup_url(record.original.as_str()).as_str(),
    );
    text::string_of(&out)
}

/// Captures with the same key have the same timestamp and the same lookup key.
pub proof fn law_capture_keys_tell_captures_apart(a: cdx::RecordView, b: cdx::RecordView)
    requires
        capture_key(a) == capture_key(b),
    ensures
        a.timestamp == b.timestamp,
        pathmap::lookup_key(a.original) == pathmap::lookup_key(b.original),
{
    reveal_strlit(" ");
    let key = capture_key(a);
    let m = numbers::decimal(a.timestamp.len());
    let n = numbers::decimal(b.timestamp.len());
    numbers::lemma_decimal_is_digits(a.timestamp.len());
    numbers::lemma_decimal_is_digits(b.timestamp.len());
    assert(key[m.len() as int] == ' ');
    assert(key[n.len() as int] == ' ');
    if m.len() < n.len() {
        assert(numbers::is_digit(n[m.len() as int]));
    }
    if n.len() < m.len() {
        assert(numbers::is_digit(m[n.len() as int]));
    }
    assert(m == key.take(m.len() as int));
    assert(n == key.take(n.len() as int));
    numbers::lemma_decimal_is_injective(a.timestamp.len(), b.timestamp.len());
    let from = m.len() + 1;
    let to = from + a.timestamp.len();
    assert(a.timestamp == key.subrange(from as int, to as int));
    assert(b.timestamp == key.subrange(from as int, to as int));
    assert(pathmap::lookup_key(a.original) == key.skip(to as int));
    assert(pathmap::lookup_key(b.original) == key.skip(to as int));
}

impl AlternatesView {
    /// Whether enough captures were found.
    pub open spec fn is_full(self) -> bool {
        self.records.len() >= MAX_ALTERNATE_PAGE_CAPTURE_CHECKS
    }

    /// The captures after one more was found: it is left out where it is the one that was kept, is
    /// no text, or equals one that was found before.
    pub open spec fn with(self, record: cdx::RecordView) -> AlternatesView {
        if self.is_full() || same_capture(record, self.source) || !is_rewritten(record, self.local) {
            self
        } else if telling(record.digest) && self.digests.contains(record.digest) {
            self
        } else {
            let digests = with_digest(self.digests, record.digest);
            if self.captures.contains(capture_key(record)) {
                AlternatesView { digests, ..self }
            } else {
                AlternatesView {
                    digests,
                    captures: self.captures.insert(capture_key(record)),
                    records: self.records.push(record),
                    ..self
                }
            }
        }
    }

    /// The captures after more were found.
    pub open spec fn with_all(self, records: Seq<cdx::RecordView>) -> AlternatesView
        decreases records.len(),
    {
        if records.len() == 0 {
            self
        } else {
            self.with_all(records.drop_last()).with(records.last())
        }
    }
}

impl AlternateCaptures {
    /// No other captures yet.
    pub fn new(source: &CdxRecord, source_path: &LocalPath) -> (r: AlternateCaptures)
        ensures
            r@ == (AlternatesView {
                source: source@,
                local: source_path@,
                records: Seq::empty(),
                digests: with_digest(Set::empty(), source@.digest),
                captures: Set::empty(),
            }),
    {
        let mut seen_digests = TextSet::new();
        remember_digest(&mut seen_digests, source);
        let r = AlternateCaptures {
            source: source.duplicate(),
            source_path: source_path.duplicate(),
            records: Vec::new(),
            seen_digests,
            seen_records: TextSet::new(),
        };
        proof {
            assert(cdx::record_views(r.records@) == Seq::<cdx::RecordView>::empty());
        }
        r
    }

    /// Whether enough captures were found.
    pub fn is_full(&self) -> (r: bool)
        ensures
            r == self@.is_full(),
    {
        proof {
            assert(self.records@.len() == cdx::record_views(self.records@).len());
        }
        self.records.len() >= MAX_ALTERNATE_PAGE_CAPTURE_CHECKS
    }

    /// Takes one capture that was found.
    fn add(&mut self, record: &CdxRecord)
        ensures
            final(self)@ == old(self)@.with(record@),
    {
        if self.is_full() || is_same_capture(record, &self.source) || !should_rewrite_as_text(
            record,
            &self.source_path,
        ) {
            return;
        }
        if !remember_digest(&mut self.seen_digests, record) {
            proof {
                assert(self.seen_digests@ =~= old(self).seen_digests@);
            }
            return;
        }
        if self.seen_records.insert(capture_key_of(record).as_str()) {
            let ghost before = cdx::record_views(self.records@);
            self.records.push(record.duplicate());
            proof {
                assert(cdx::record_views(self.records@) == before.push(record@));
            }
        } else {
            proof {
                assert(self.seen_records@ =~= old(self).seen_records@);
            }
        }
    }

    /// Takes the captures that a lookup has found.
    pub fn add_all(&mut self, records: &Vec<CdxRecord>)
        ensures
            final(self)@ == old(self)@.with_all(cdx::record_views(records@)),
    {
        let ghost all = cdx::record_views(records@);
        let ghost start = self@;
        let mut i: usize = 0;
        proof {
            assert(all.take(0).len() == 0);
        }
        while i < records.len()
            invariant
                i <= records@.len(),
                all == cdx::record_views(records@),
                self@ == start.with_all(all.take(i as int)),
            decreases records@.len() - i,
        {
            proof {
                assert(all.take(i + 1).drop_last() == all.take(i as int));
                assert(all.take(i + 1).last() == records@[i as int]@);
            }
            self.add(&records[i]);
            i += 1;
        }
        proof {
            assert(all.take(all.len() as int) == all);
        }
    }

    /// The captures that were found.
    pub fn into_records(self) -> (r: Vec<CdxRecord>)
        ensures
            cdx::record_views(r@) == self@.records,
    {
        self.records
    }
}

/// What a lookup for a file has found.
pub struct RecordLookup {
    pub record: Option<CdxRecord>,
    /// Whether the index has answered at least once.
    pub cdx_query_succeeded: bool,
    /// Whether at least one query found no connection.
    pub connectivity_failed: bool,
}

/// The first capture that a lookup may take.
pub open spec fn first_within(records: Seq<cdx::RecordView>, max_bytes: u64, linked: bool) -> Option<
    cdx::RecordView,
>
    decreases records.len(),
{
    if records.len() == 0 {
        None
    } else if is_takeable(records[0], max_bytes, linked) {
        Some(records[0])
    } else {
        first_within(records.drop_first(), max_bytes, linked)
    }
}

/// Whether a lookup may take a capture. A file that pages link to has to be known to fit, unless
/// there is no limit; any other may be of unknown length, as its download is limited in turn.
pub open spec fn is_takeable(record: cdx::RecordView, max_bytes: u64, linked: bool) -> bool {
    match record.length {
        Some(length) => length <= max_bytes,
        None => !linked || max_bytes == u64::MAX,
    }
}

/// Whether a lookup may take a capture; `linked` tells that pages link to the file.
pub fn may_take(record: &CdxRecord, max_bytes: u64, linked: bool) -> (r: bool)
    ensures
        r == is_takeable(record@, max_bytes, linked),
{
    match record.length {
        Some(length) => length <= max_bytes,
        None => !linked || max_bytes == u64::MAX,
    }
}

/// Whether a capture is not known to be larger than a limit.
pub open spec fn fits(record: cdx::RecordView, max_bytes: u64) -> bool {
    record.length matches Some(length) ==> length <= max_bytes
}

/// Whether a capture is not known to be larger than a limit.
pub fn is_within(record: &CdxRecord, max_bytes: u64) -> (r: bool)
    ensures
        r == fits(record@, max_bytes),
{
    match record.length {
        Some(length) => length <= max_bytes,
        None => true,
    }
}

/// The view of an optional capture.
pub open spec fn record_view(record: Option<CdxRecord>) -> Option<cdx::RecordView> {
    match record {
        Some(record) => Some(record@),
        None => None,
    }
}

impl RecordLookup {
    /// Nothing asked yet.
    pub fn new() -> (r: RecordLookup)
        ensures
            r.record is None,
            !r.cdx_query_succeeded,
            !r.connectivity_failed,
    {
        RecordLookup { record: None, cdx_query_succeeded: false, connectivity_failed: false }
    }

    /// Takes the answer to a query: the first capture that may be taken is the one that was looked
    /// for. Tells whether the lookup is over.
    pub fn answered(&mut self, records: &Vec<CdxRecord>, max_bytes: u64, linked: bool) -> (r: bool)
        requires
            old(self).record is None,
        ensures
            final(self).cdx_query_succeeded,
            final(self).connectivity_failed == old(self).connectivity_failed,
            record_view(final(self).record) == first_within(
                cdx::record_views(records@),
                max_bytes,
                linked,
            ),
            r == (final(self).record is Some),
    {
        let ghost all = cdx::record_views(records@);
        self.cdx_query_succeeded = true;
        let mut i: usize = 0;
        proof {
            assert(all.skip(0) == all);
        }
        while i < records.len()
            invariant
                i <= records@.len(),
                all == cdx::record_views(records@),
                self.record is None,
                self.cdx_query_succeeded,
                self.connectivity_failed == old(self).connectivity_failed,
                first_within(all, max_bytes, linked) == first_within(
                    all.skip(i as int),
                    max_bytes,
                    linked,
                ),
            decreases records@.len() - i,
        {
            proof {
                assert(all.skip(i as int)[0] == records@[i as int]@);
                assert(all.skip(i as int).drop_first() == all.skip(i + 1));
            }
            if may_take(&records[i], max_bytes, linked) {
                self.record = Some(records[i].duplicate());
                return true;
            }
            i += 1;
        }
        false
    }

    /// Notes a query that failed.
    pub fn failed(&mut self, connectivity: bool)
        ensures
            record_view(final(self).record) == record_view(old(self).record),
            final(self).cdx_query_succeeded == old(self).cdx_query_succeeded,
            final(self).connectivity_failed == (old(self).connectivity_failed || connectivity),
    {
        if connectivity {
            self.connectivity_failed = true;
        }
    }

    /// Whether nothing was found only because no connection came about.
    pub fn is_deferred(&self) -> (r: bool)
        ensures
            r == (self.record is None && self.connectivity_failed && !self.cdx_query_succeeded),
    {
        self.record.is_none() && self.connectivity_failed && !self.cdx_query_succeeded
    }
}

/// A lookup finds the first capture that it may take, and none where there is none. What it takes is
/// not known to be larger than the limit, and a file that pages link to is known not to be, where
/// there is a limit.
pub proof fn law_lookups_respect_the_limit(
    records: Seq<cdx::RecordView>,
    max_bytes: u64,
    linked: bool,
)
    ensures
        match first_within(records, max_bytes, linked) {
            Some(record) => exists|i: int|
                0 <= i < records.len() && #[trigger] records[i] == record && is_takeable(record, max_bytes, linked)
                    && forall|j: int| 0 <= j < i ==> !is_takeable(#[trigger] records[j], max_bytes, linked),
            None => forall|j: int| 0 <= j < records.len() ==> !is_takeable(#[trigger] records[j], max_bytes, linked),
        },
        first_within(records, max_bytes, linked) matches Some(record) ==> fits(record, max_bytes),
        linked && max_bytes < u64::MAX ==> (first_within(records, max_bytes, linked) matches Some(
            record,
        ) ==> record.length is Some),
    decreases records.len(),
{
    if records.len() > 0 && !is_takeable(records[0], max_bytes, linked) {
        let rest = records.drop_first();
        law_lookups_respect_the_limit(rest, max_bytes, linked);
        match first_within(records, max_bytes, linked) {
            Some(record) => {
                let i = choose|i: int|
                    0 <= i < rest.len() && #[trigger] rest[i] == record && is_takeable(record, max_bytes, linked)
                        && forall|j: int| 0 <= j < i ==> !is_takeable(#[trigger] rest[j], max_bytes, linked);
                assert forall|j: int| 0 <= j < i + 1 implies !is_takeable(#[trigger] records[j], max_bytes, linked) by {
                    if j > 0 {
                        assert(records[j] == rest[j - 1]);
                    }
                }
                assert(records[i + 1] == record);
            },
            None => {
                assert forall|j: int| 0 <= j < records.len() implies !is_takeable(#[trigger] records[j], max_bytes, linked) by {
                    if j > 0 {
                        assert(records[j] == rest[j - 1]);
                    }
                }
            },
        }
    } else if records.len() > 0 {
        assert(records[0] == first_within(records, max_bytes, linked)->Some_0);
    }
}

/// What came of the fetch of a capture.
#[derive(Debug, Clone, Copy, PartialEq, Eq, Structural)]
pub enum FetchOutcome {
    /// Its bytes are here; `unusable` tells that they are those of a page that only redirects or
    /// shows an error.
    Got { unusable: bool },
    /// It cannot be had any more.
    Lost,
    /// It could not be fetched for another reason.
    Failed,
}

/// What came of the search for another capture.
#[derive(Debug, Clone, Copy, PartialEq, Eq, Structural)]
pub enum SearchOutcome {
    NotAsked,
    Found,
    /// There is none.
    Nothing,
    /// A lookup failed, so that there may be one.
    Failed,
}

/// What is done about a file whose selected capture was fetched.
#[derive(Debug, Clone, Copy, PartialEq, Eq, Structural)]
pub enum CaptureChoice {
    /// The selected capture is kept.
    Selected,
    /// Another capture is searched for; `seen` tells that the bytes of the selected one are here.
    Search { seen: bool },
    /// The other capture is kept.
    Other,
    /// The error of the fetch is reported.
    FetchError,
    /// The error of the search is reported.
    SearchError,
}

/// What is done about a file whose selected capture was fetched: one that is unusable or lost is
/// searched another for; an unusable one is better than none, and a lost one is only given up where
/// it is certain that there is no other.
pub open spec fn chosen(fetched: FetchOutcome, search: SearchOutcome) -> CaptureChoice {
    match (fetched, search) {
        (FetchOutcome::Failed, _) => CaptureChoice::FetchError,
        (FetchOutcome::Got { unusable: false }, _) => CaptureChoice::Selected,
        (FetchOutcome::Got { unusable: true }, SearchOutcome::NotAsked) => CaptureChoice::Search {
            seen: true,
        },
        (FetchOutcome::Lost, SearchOutcome::NotAsked) => CaptureChoice::Search { seen: false },
        (_, SearchOutcome::Found) => CaptureChoice::Other,
        (FetchOutcome::Got { unusable: true }, _) => CaptureChoice::Selected,
        (FetchOutcome::Lost, SearchOutcome::Failed) => CaptureChoice::SearchError,
        (FetchOutcome::Lost, SearchOutcome::Nothing) => CaptureChoice::FetchError,
    }
}

/// What is done about a file whose selected capture was fetched.
pub fn choose_capture(fetched: FetchOutcome, search: SearchOutcome) -> (r: CaptureChoice)
    ensures
        r == chosen(fetched, search),
{
    match fetched {
        FetchOutcome::Failed => CaptureChoice::FetchError,
        FetchOutcome::Got { unusable: false } => CaptureChoice::Selected,
        FetchOutcome::Got { unusable: true } => match search {
            SearchOutcome::NotAsked => CaptureChoice::Search { seen: true },
            SearchOutcome::Found => CaptureChoice::Other,
            _ => CaptureChoice::Selected,
        },
        FetchOutcome::Lost => match search {
            SearchOutcome::NotAsked => CaptureChoice::Search { seen: false },
            SearchOutcome::Found => CaptureChoice::Other,
            SearchOutcome::Failed => CaptureChoice::SearchError,
            SearchOutcome::Nothing => CaptureChoice::FetchError,
        },
    }
}

/// A usable capture is kept, a file is never without a capture where one is here, and no file is
/// given up as lost while a search for another capture was not made or failed.
pub proof fn law_captures_are_not_given_up_early(fetched: FetchOutcome, search: SearchOutcome)
    ensures
        fetched == (FetchOutcome::Got { unusable: false }) ==> chosen(fetched, search)
            == CaptureChoice::Selected,
        fetched is Got && !(chosen(fetched, search) is Search) ==> chosen(fetched, search)
            == CaptureChoice::Selected || chosen(fetched, search) == CaptureChoice::Other,
        fetched == FetchOutcome::Lost && chosen(fetched, search) == CaptureChoice::FetchError
            ==> search == SearchOutcome::Nothing,
        search != SearchOutcome::NotAsked ==> !(chosen(fetched, search) is Search),
{
}

/// The extensions and media types of documents are written in lower case.
proof fn lemma_document_types()
    ensures
        text::lower("text/html"@) == "text/html"@,
        text::lower("application/xhtml+xml"@) == "application/xhtml+xml"@,
        text::lower("text/css"@) == "text/css"@,
        text::lower("html"@) == "html"@,
        text::lower("htm"@) == "htm"@,
        text::lower("xhtml"@) == "xhtml"@,
        text::lower("css"@) == "css"@,
{
    reveal_strlit("text/html");
    reveal_strlit("application/xhtml+xml");
    reveal_strlit("text/css");
    reveal_strlit("html");
    reveal_strlit("htm");
    reveal_strlit("xhtml");
    reveal_strlit("css");
    assert(text::lower("text/html"@) == "text/html"@);
    assert(text::lower("application/xhtml+xml"@) == "application/xhtml+xml"@);
    assert(text::lower("text/css"@) == "text/css"@);
    assert(text::lower("html"@) == "html"@);
    assert(text::lower("htm"@) == "htm"@);
    assert(text::lower("xhtml"@) == "xhtml"@);
    assert(text::lower("css"@) == "css"@);
}

/// A capture is a page by its media type, or by the extension of its file. The references of pages
/// are rewritten by the media type or the extension `html`, and so are those of style sheets.
pub proof fn law_pages_and_documents(
    record: cdx::RecordView,
    directory: path::PathView,
    stem: Seq<char>,
    extension: Seq<char>,
)
    requires
        stem.len() > 0,
        extension.len() > 0,
        !extension.contains('.'),
    ensures
        ({
            let local = path::PathView {
                absolute: directory.absolute,
                parts: directory.parts.push(stem + "."@ + extension),
            };
            let m = text::lower(record.mimetype);
            let e = text::lower(extension);
            &&& is_page(record, local) <==> m == "text/html"@ || m == "application/xhtml+xml"@ || e
                == "html"@ || e == "htm"@ || e == "xhtml"@
            &&& is_rewritten(record, local) <==> m == "text/html"@ || m == "application/xhtml+xml"@
                || m == "text/css"@ || e == "html"@ || e == "css"@
        }),
{
    let name = stem + "."@ + extension;
    pathmap::lemma_extension_is_read(stem, extension);
    lemma_document_types();
    reveal_strlit(".");
    reveal_strlit("..");
    assert("."@.len() == 1 && ".."@.len() == 2);
    assert(name.len() >= 3);
    assert(name.skip(stem.len() as int + 1) == extension);
    let parts = directory.parts.push(name);
    assert(parts.last() == name);
}

/// A search leaves out the capture that it started from, by its time and URL, and every capture with
/// a digest that it has seen; an empty digest and a dash tell nothing.
pub proof fn law_searches_leave_out_what_was_seen(search: SearchView, record: cdx::RecordView)
    ensures
        search.is_new(record) <==> !(record.timestamp == search.current.timestamp && record.original
            == search.current.original) && !(record.digest.len() > 0 && record.digest != "-"@
            && search.seen.contains(record.digest)),
{
}

/// A search takes its captures in order: the first in the queue where that is new and can stand for
/// the current one. With no capture left it looks under the next URL, and with no URL left it ends.
pub proof fn law_searches_go_in_order(search: SearchView)
    ensures
        search.queue.len() > 0 && search.is_new(search.queue[0]) && (is_page(
            search.current,
            search.local,
        ) ==> is_page(search.queue[0], search.local)) ==> search.next().0 == SearchStepView::Fetch(
            search.queue[0],
        ) && search.next().1 == (SearchView { queue: search.queue.skip(1), ..search }),
        search.queue.len() > 0 && !search.is_new(search.queue[0]) ==> search.next() == (SearchView {
            queue: search.queue.skip(1),
            ..search
        }).next(),
        search.queue.len() > 0 && search.is_new(search.queue[0]) && is_page(
            search.current,
            search.local,
        ) && !is_page(search.queue[0], search.local) ==> search.next() == (SearchView {
            queue: search.queue.skip(1),
            seen: if search.queue[0].digest.len() > 0 && search.queue[0].digest != "-"@ {
                search.seen.insert(search.queue[0].digest)
            } else {
                search.seen
            },
            ..search
        }).next(),
        search.queue.len() == 0 && search.targets.len() > 0 ==> search.next().0
            == SearchStepView::LookUp(search.targets[0]) && search.next().1 == (SearchView {
            targets: search.targets.skip(1),
            ..search
        }),
        search.queue.len() == 0 && search.targets.len() == 0 ==> search.next()
            == (SearchStepView::Exhausted, search),
{
}

/// Another capture of a page is worth nothing where it only redirects or shows an error. Where the
/// current one was seen to be of no use, it also has to name the site. What is no page is taken.
pub proof fn law_other_captures_are_judged(search: SearchView, record: cdx::RecordView, s: Seq<char>)
    ensures
        !is_page(record, search.local) ==> search.verdict(record, s) == Verdict::Usable,
        is_page(record, search.local) && soft_redirect::unusable(s) ==> search.verdict(record, s)
            == Verdict::Unusable,
        is_page(record, search.local) && !soft_redirect::unusable(s) ==> search.verdict(record, s)
            == if search.current_seen && search.terms.len() > 0 && (forall|i: int|
            0 <= i < search.terms.len() ==> !has_term(text::lower(s), #[trigger] search.terms[i])) {
            Verdict::Foreign
        } else {
            Verdict::Usable
        },
{
}

/// A page shows that it belongs to a site where a name of the site stands in it, in whatever case.
pub proof fn law_names_in_a_page_show_its_site(
    before: Seq<char>,
    shown: Seq<char>,
    after: Seq<char>,
    terms: Seq<Seq<char>>,
    at: int,
)
    requires
        0 <= at < terms.len(),
        text::lower(shown) == terms[at],
    ensures
        shows_identity(before + shown + after, terms),
{
    let s = before + shown + after;
    let l = text::lower(s);
    let n = before.len() as int;
    assert(l.subrange(n, n + terms[at].len()) == terms[at]) by {
        assert forall|i: int| 0 <= i < terms[at].len() implies l[n + i] == #[trigger] terms[at][i] by {
            assert(s[n + i] == shown[i]);
            assert(text::lower(shown)[i] == terms[at][i]);
        }
    }
    lemma_found(l, terms[at], 0, n);
    assert(has_term(l, terms[at]));
}

/// What stands in a text is found in it.
proof fn lemma_found(s: Seq<char>, p: Seq<char>, from: int, n: int)
    requires
        0 <= from <= n,
        text::at(s, p, n),
    ensures
        text::find(s, p, from) is Some,
    decreases n - from,
{
    if from < n && !text::at(s, p, from) {
        lemma_found(s, p, from + 1, n);
    }
}

/// A site is named by its host without `www.`, and by the first label of that where the label has at
/// least four characters.
pub proof fn law_names_of_a_site(host: Seq<char>, label: Seq<char>, rest: Seq<char>)
    requires
        host == label + "."@ + rest,
        !label.contains('.'),
        rest.len() > 0,
        rest.last() != '.',
        text::lower(host) == host,
        label != "www"@,
    ensures
        forall|term: Seq<char>| #[trigger]
            host_terms(host).contains(term) <==> term == host || (label.len() >= 4 && term == label),
        host_terms("www."@ + host) == host_terms(host),
{
    reveal_strlit(".");
    reveal_strlit("www.");
    reveal_strlit("www");
    assert("www"@ == seq!['w', 'w', 'w']);
    let n = label.len() as int;
    assert(host[n] == '.');
    if text::starts_with(host, "www."@) {
        assert(host.subrange(0, 4) == "www."@);
        assert(host[0] == 'w' && host[1] == 'w' && host[2] == 'w' && host[3] == '.') by {
            assert(host.subrange(0, 4)[0] == 'w' && host.subrange(0, 4)[1] == 'w' && host.subrange(
                0,
                4,
            )[2] == 'w' && host.subrange(0, 4)[3] == '.');
        }
        if n > 3 {
            assert(label[3] == '.');
            assert(label.contains(label[3]));
        }
        assert(n == 3) by {
            if n < 3 {
                assert(host[n] == 'w');
            }
        }
        assert(label[0] == host[0] && label[1] == host[1] && label[2] == host[2]);
        assert(label == "www"@);
    }
    assert(without_www(host) == host);
    let www = "www."@ + host;
    assert(www.subrange(0, 4) == "www."@);
    assert(www.skip(4) == host);
    assert(without_www(www) == without_www(host));
    assert(host.last() == rest.last());
    text::lemma_trim_end_by(host, text::is_char('.'), host.len() as int);
    assert(host.take(host.len() as int) == host);
    text::lemma_index_of(host, '.', 0);
    let i = text::index_of(host, '.', 0)->Some_0;
    if i < n {
        assert(label[i] == host[i]);
        assert(label.contains(label[i]));
    }
    assert(i == n);
    assert(host.take(n) == label);
    assert(text::split(host, '.')[0] == label);
    let terms = if label.len() >= 4 { seq![host, label] } else { seq![host] };
    order::lemma_sort_dedup_of(terms);
    assert(terms[0] == host);
    assert(label.len() >= 4 ==> terms[1] == label);
    assert forall|term: Seq<char>| terms.contains(term) <==> term == host || (label.len() >= 4
        && term == label) by {
        if term == host {
            assert(terms.contains(terms[0]));
        }
        if label.len() >= 4 && term == label {
            assert(terms.contains(terms[1]));
        }
    }
}

/// Other captures of a page are looked for under the URL that was captured, and then under its lookup
/// key where that is another.
pub proof fn law_captures_are_looked_for_by_url_and_key(original: Seq<char>)
    ensures
        capture_targets(original)[0] == original,
        pathmap::lookup_key(original) == original ==> capture_targets(original).len() == 1,
        pathmap::lookup_key(original) != original ==> capture_targets(original).len() == 2
            && capture_targets(original)[1] == pathmap::lookup_key(original),
{
}

/// A lookup may take a capture of a known length where that is within the limit. One of unknown length
/// may be taken where pages do not link to the file, or where there is no limit.
pub proof fn law_lengths_within_the_limit(record: cdx::RecordView, max_bytes: u64, linked: bool)
    ensures
        is_takeable(record, max_bytes, linked) <==> match record.length {
            Some(length) => length <= max_bytes,
            None => !linked || max_bytes == 0xffff_ffff_ffff_ffff,
        },
{
}

/// What is done about a file, for each outcome of the fetch and of the search.
pub proof fn law_captures_are_chosen(search: SearchOutcome)
    ensures
        chosen(FetchOutcome::Failed, search) == CaptureChoice::FetchError,
        chosen(FetchOutcome::Got { unusable: false }, search) == CaptureChoice::Selected,
        chosen(FetchOutcome::Got { unusable: true }, SearchOutcome::NotAsked)
            == (CaptureChoice::Search { seen: true }),
        chosen(FetchOutcome::Lost, SearchOutcome::NotAsked) == (CaptureChoice::Search {
            seen: false,
        }),
        chosen(FetchOutcome::Got { unusable: true }, SearchOutcome::Found) == CaptureChoice::Other,
        chosen(FetchOutcome::Lost, SearchOutcome::Found) == CaptureChoice::Other,
        chosen(FetchOutcome::Got { unusable: true }, SearchOutcome::Nothing)
            == CaptureChoice::Selected,
        chosen(FetchOutcome::Got { unusable: true }, SearchOutcome::Failed)
            == CaptureChoice::Selected,
        chosen(FetchOutcome::Lost, SearchOutcome::Nothing) == CaptureChoice::FetchError,
        chosen(FetchOutcome::Lost, SearchOutcome::Failed) == CaptureChoice::SearchError,
{
}

/// At most twenty other captures of a page are compared. One more is taken while there are fewer,
/// unless it is the one that was kept, is no document, has a digest that was seen, or is a capture of
/// the same page at the same time as another.
pub proof fn law_other_captures_are_collected(
    alternates: AlternatesView,
    records: Seq<cdx::RecordView>,
    record: cdx::RecordView,
)
    ensures
        alternates.records.len() <= 20 ==> alternates.with_all(records).records.len() <= 20,
        alternates.with(record).records == if alternates.records.len() < 20 && !(record.timestamp
            == alternates.source.timestamp && record.original == alternates.source.original)
            && is_rewritten(record, alternates.local) && !(record.digest.len() > 0 && record.digest
            != "-"@ && alternates.digests.contains(record.digest)) && !alternates.captures.contains(
            capture_key(record),
        ) {
            alternates.records.push(record)
        } else {
            alternates.records
        },
        alternates.with(record).source == alternates.source,
        alternates.with(record).local == alternates.local,
    decreases records.len(),
{
    if records.len() > 0 {
        law_other_captures_are_collected(alternates, records.drop_last(), record);
    }
}

/// A name also counts where only its letters and digits stand in a row among the letters and digits
/// of a page; a name without any counts only as it is written.
pub proof fn law_names_are_found_by_letters_and_digits(
    l: Seq<char>,
    term: Seq<char>,
    s: Seq<char>,
    c: char,
)
    ensures
        has_term(l, term) <==> text::contains(l, term) || (compact(term).len() > 0 && text::contains(
            compact(l),
            compact(term),
        )),
        compact(Seq::empty()) == Seq::<char>::empty(),
        compact(s.push(c)) == if ('a' <= c <= 'z') || ('A' <= c <= 'Z') || ('0' <= c <= '9') {
            compact(s).push(c)
        } else {
            compact(s)
        },
{
    assert(s.push(c).drop_last() == s);
}

/// A site is named by the host of the URL that was captured; what is no URL, or has no host, names
/// none.
pub proof fn law_sites_are_named_by_their_host(original: Seq<char>)
    ensures
        urls::url_parse(original) matches Ok(url) ==> (url.host matches Some(host) ==> identity_terms(
            original,
        ) == host_terms(host)),
        urls::url_parse(original) matches Ok(url) ==> (url.host is None ==> identity_terms(
            original,
        ).len() == 0),
        urls::url_parse(original) is Err ==> identity_terms(original).len() == 0,
{
}

} // verus!

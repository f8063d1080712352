//! Capture records of the CDX index, the queries for them and the pacing of those queries.
use crate::numbers;
use crate::order;
use crate::pathmap;
use crate::text;
use crate::urls;
use vstd::hash_map::StringHashMap;
use vstd::prelude::*;

pub use crate::retry::MAX_WAYBACK_RETRY_DELAY_SECONDS;

verus! {

/// One capture in the archive's index.
#[derive(Debug, Clone, PartialEq, Eq)]
pub struct CdxRecord {
    pub timestamp: String,
    pub original: String,
    pub mimetype: String,
    pub status_code: u16,
    pub digest: String,
    pub length: Option<u64>,
}

/// The mathematical form of a capture record.
#[verifier::ext_equal]
pub struct RecordView {
    pub timestamp: Seq<char>,
    pub original: Seq<char>,
    pub mimetype: Seq<char>,
    pub status_code: u16,
    pub digest: Seq<char>,
    pub length: Option<u64>,
}

impl View for CdxRecord {
    type V = RecordView;

    open spec fn view(&self) -> RecordView {
        RecordView {
            timestamp: self.timestamp@,
            original: self.original@,
            mimetype: self.mimetype@,
            status_code: self.status_code,
            digest: self.digest@,
            length: self.length,
        }
    }
}

/// The views of a list of records.
pub open spec fn record_views(records: Seq<CdxRecord>) -> Seq<RecordView> {
    Seq::new(records.len(), |i: int| records[i]@)
}

impl CdxRecord {
    /// A copy of the record.
    pub fn duplicate(&self) -> (r: CdxRecord)
        ensures
            r@ == self@,
    {
        CdxRecord {
            timestamp: self.timestamp.clone(),
            original: self.original.clone(),
            mimetype: self.mimetype.clone(),
            status_code: self.status_code,
            digest: self.digest.clone(),
            length: self.length,
        }
    }
}

/// A copy of a list of records.
pub fn clone_records(v: &Vec<CdxRecord>) -> (r: Vec<CdxRecord>)
    ensures
        record_views(r@) == record_views(v@),
{
    let mut r: Vec<CdxRecord> = Vec::new();
    let mut i: usize = 0;
    while i < v.len()
        invariant
            i <= v@.len(),
            record_views(r@) == record_views(v@).take(i as int),
        decreases v@.len() - i,
    {
        let ghost before = record_views(r@);
        r.push(v[i].duplicate());
        i += 1;
        proof {
            assert(record_views(r@) == before.push(v@[i - 1]@));
            assert(record_views(v@).take(i as int) == record_views(v@).take(i - 1).push(v@[i - 1]@));
        }
    }
    proof {
        assert(record_views(v@).take(v@.len() as int) == record_views(v@));
    }
    r
}

/// How far a CDX query reaches beyond its target.
#[derive(Debug, Clone, Copy, PartialEq, Eq, Structural)]
pub enum MatchType {
    Exact,
    Prefix,
    Host,
    Domain,
}

impl MatchType {
    /// The name of the match type in a query.
    pub open spec fn cdx_name(self) -> Seq<char> {
        match self {
            MatchType::Exact => "exact"@,
            MatchType::Prefix => "prefix"@,
            MatchType::Host => "host"@,
            MatchType::Domain => "domain"@,
        }
    }

    /// The name of the match type in a query.
    pub fn as_cdx(self) -> (r: &'static str)
        ensures
            r@ == self.cdx_name(),
    {
        match self {
            MatchType::Exact => "exact",
            MatchType::Prefix => "prefix",
            MatchType::Host => "host",
            MatchType::Domain => "domain",
        }
    }
}

/// Which capture of a URL is kept.
#[derive(Debug, Clone, Copy, PartialEq, Eq, Structural)]
pub enum SnapshotStrategy {
    Latest,
    Earliest,
}

/// How often a CDX request is repeated.
#[derive(Debug, Clone, Copy, PartialEq, Eq, Structural)]
pub struct CdxRetryPolicy {
    pub max_attempts: Option<usize>,
}

impl CdxRetryPolicy {
    /// For the first requests of a run: without bound.
    pub fn primary() -> (r: CdxRetryPolicy)
        ensures
            r.max_attempts is None,
    {
        CdxRetryPolicy::unlimited()
    }

    /// For the requests of the recovery passes: without bound.
    pub fn recovery() -> (r: CdxRetryPolicy)
        ensures
            r.max_attempts is None,
    {
        CdxRetryPolicy::unlimited()
    }

    /// Without bound.
    pub fn unlimited() -> (r: CdxRetryPolicy)
        ensures
            r.max_attempts is None,
    {
        CdxRetryPolicy { max_attempts: None }
    }

    /// At most so many attempts.
    pub fn limited(max_attempts: usize) -> (r: CdxRetryPolicy)
        ensures
            r.max_attempts == Some(max_attempts),
    {
        CdxRetryPolicy { max_attempts: Some(max_attempts) }
    }

    /// Whether an attempt, counted from zero, is followed by another.
    pub open spec fn allows_retry(self, attempt: int) -> bool {
        self.max_attempts matches Some(max) ==> attempt + 1 < max
    }

    /// Whether an attempt, counted from zero, is followed by another.
    pub fn should_retry_after_attempt(self, attempt: usize) -> (r: bool)
        ensures
            r == self.allows_retry(attempt as int),
    {
        match self.max_attempts {
            Some(max) => attempt < max && attempt + 1 < max,
            None => true,
        }
    }
}

/// A question to the archive's index.
#[derive(Debug, Clone)]
pub struct CdxQuery {
    pub target: String,
    pub match_type: MatchType,
    pub from: Option<String>,
    pub to: Option<String>,
    pub limit: Option<usize>,
    pub strategy: SnapshotStrategy,
    /// The URL of the archive.
    pub archive_root: String,
}

/// Why a query has no URL: the archive root is not an absolute URL.
#[derive(Debug, Clone, Copy, PartialEq, Eq, Structural)]
pub struct InvalidArchiveRoot;

/// The pairs of a query's URL.
pub open spec fn search_pairs(query: CdxQuery) -> Seq<(Seq<char>, Seq<char>)> {
    let fixed = seq![
        ("url"@, query.target@),
        ("matchType"@, query.match_type.cdx_name()),
        ("output"@, "txt"@),
        ("fl"@, "timestamp,original,mimetype,statuscode,digest,length"@),
        ("filter"@, "statuscode:200"@),
    ];
    let with_from = match query.from {
        Some(from) => fixed.push(("from"@, from@)),
        None => fixed,
    };
    let with_to = match query.to {
        Some(to) => with_from.push(("to"@, to@)),
        None => with_from,
    };
    match query.limit {
        Some(limit) => with_to.push(("limit"@, numbers::decimal(limit as nat))),
        None => with_to,
    }
}

/// The URL of a query, where the archive root is one.
pub open spec fn search_href(query: CdxQuery) -> Option<Seq<char>> {
    match urls::url_join(query.archive_root@, "/cdx/search/cdx"@) {
        Some(url) => urls::url_with_pairs(url.href, search_pairs(query)),
        None => None,
    }
}

impl CdxQuery {
    /// A query without bounds.
    pub fn new(
        target: String,
        match_type: MatchType,
        strategy: SnapshotStrategy,
        archive_root: String,
    ) -> (r: CdxQuery)
        ensures
            r.target == target,
            r.match_type == match_type,
            r.strategy == strategy,
            r.archive_root == archive_root,
            r.from is None,
            r.to is None,
            r.limit is None,
    {
        CdxQuery { target, match_type, from: None, to: None, limit: None, strategy, archive_root }
    }

    /// The pairs of the query's URL.
    pub fn pairs(&self) -> (r: Vec<(String, String)>)
        ensures
            urls::pair_views(r@) == search_pairs(*self),
    {
        let mut r: Vec<(String, String)> = Vec::new();
        r.push(("url".to_owned(), self.target.clone()));
        r.push(("matchType".to_owned(), self.match_type.as_cdx().to_owned()));
        r.push(("output".to_owned(), "txt".to_owned()));
        r.push(
            ("fl".to_owned(), "timestamp,original,mimetype,statuscode,digest,length".to_owned()),
        );
        r.push(("filter".to_owned(), "statuscode:200".to_owned()));
        let ghost fixed = urls::pair_views(r@);
        if let Some(from) = &self.from {
            r.push(("from".to_owned(), from.clone()));
            proof {
                assert(urls::pair_views(r@) == fixed.push(("from"@, from@)));
            }
        }
        let ghost with_from = urls::pair_views(r@);
        if let Some(to) = &self.to {
            r.push(("to".to_owned(), to.clone()));
            proof {
                assert(urls::pair_views(r@) == with_from.push(("to"@, to@)));
            }
        }
        let ghost with_to = urls::pair_views(r@);
        if let Some(limit) = self.limit {
            let digits = numbers::decimal_string(limit as u64);
            r.push(("limit".to_owned(), digits));
            proof {
                assert(urls::pair_views(r@) == with_to.push(("limit"@, digits@)));
            }
        }
        proof {
            assert(fixed == seq![
                ("url"@, self.target@),
                ("matchType"@, self.match_type.cdx_name()),
                ("output"@, "txt"@),
                ("fl"@, "timestamp,original,mimetype,statuscode,digest,length"@),
                ("filter"@, "statuscode:200"@),
            ]);
        }
        r
    }

    /// The URL of the query.
    pub fn search_url(&self) -> (r: Result<String, InvalidArchiveRoot>)
        ensures
            match r {
                Ok(url) => search_href(*self) == Some(url@),
                Err(_) => search_href(*self) is None,
            },
    {
        match urls::join_url(self.archive_root.as_str(), "/cdx/search/cdx") {
            Some(base) => match urls::with_pairs(base.href.as_str(), &self.pairs()) {
                Some(url) => Ok(url),
                None => Err(InvalidArchiveRoot),
            },
            None => Err(InvalidArchiveRoot),
        }
    }
}

/// Why a line is not a capture record.
#[derive(Debug, Clone, Copy, PartialEq, Eq, Structural)]
pub enum CdxLineError {
    MissingTimestamp,
    MissingOriginal,
    MissingMimetype,
    MissingStatusCode,
    MissingDigest,
    InvalidStatusCode,
}

/// The record in the words of a line.
pub open spec fn record_of_words(w: Seq<Seq<char>>) -> Result<RecordView, CdxLineError> {
    if w.len() < 1 {
        Err(CdxLineError::MissingTimestamp)
    } else if w.len() < 2 {
        Err(CdxLineError::MissingOriginal)
    } else if w.len() < 3 {
        Err(CdxLineError::MissingMimetype)
    } else if w.len() < 4 {
        Err(CdxLineError::MissingStatusCode)
    } else if w.len() < 5 {
        Err(CdxLineError::MissingDigest)
    } else {
        match numbers::parsed_unsigned(w[3], u16::MAX as int) {
            Some(status) => Ok(
                RecordView {
                    timestamp: w[0],
                    original: w[1],
                    mimetype: w[2],
                    status_code: status as u16,
                    digest: w[4],
                    length: if w.len() > 5 {
                        match numbers::parsed_unsigned(w[5], u64::MAX as int) {
                            Some(n) => Some(n as u64),
                            None => None,
                        }
                    } else {
                        None
                    },
                },
            ),
            None => Err(CdxLineError::InvalidStatusCode),
        }
    }
}

/// The record in a line.
pub open spec fn record_of_line(line: Seq<char>) -> Result<RecordView, CdxLineError> {
    record_of_words(text::words(line, 0))
}

/// The view of a parsed record.
pub open spec fn record_result(r: Result<CdxRecord, CdxLineError>) -> Result<
    RecordView,
    CdxLineError,
> {
    match r {
        Ok(record) => Ok(record@),
        Err(e) => Err(e),
    }
}

/// Reads the record in a line.
pub fn parse_cdx_line(line: &str) -> (r: Result<CdxRecord, CdxLineError>)
    ensures
        record_result(r) == record_of_line(line@),
{
    let words = text::split_words(&text::chars_of(line));
    let ghost w = text::views(words@);
    if words.len() < 1 {
        return Err(CdxLineError::MissingTimestamp);
    }
    if words.len() < 2 {
        return Err(CdxLineError::MissingOriginal);
    }
    if words.len() < 3 {
        return Err(CdxLineError::MissingMimetype);
    }
    if words.len() < 4 {
        return Err(CdxLineError::MissingStatusCode);
    }
    if words.len() < 5 {
        return Err(CdxLineError::MissingDigest);
    }
    let length: Option<u64> = if words.len() > 5 {
        numbers::parse_unsigned(&text::chars_of(words[5].as_str()), u64::MAX)
    } else {
        None
    };
    let status_code: u16 = match numbers::parse_unsigned(
        &text::chars_of(words[3].as_str()),
        u16::MAX as u64,
    ) {
        Some(n) => n as u16,
        None => {
            return Err(CdxLineError::InvalidStatusCode);
        },
    };
    Ok(
        CdxRecord {
            timestamp: words[0].clone(),
            original: words[1].clone(),
            mimetype: words[2].clone(),
            status_code,
            digest: words[4].clone(),
            length,
        },
    )
}

/// The key under which the captures of one URL meet: the URL without its fragment.
pub open spec fn original_key(original: Seq<char>) -> Seq<char> {
    pathmap::or_else(urls::url_without_fragment(original), original)
}

/// The key under which the captures of one URL meet.
pub fn canonical_original_key(original: &str) -> (r: String)
    ensures
        r@ == original_key(original@),
{
    match urls::without_fragment(original) {
        Some(url) => url,
        None => original.to_owned(),
    }
}

/// Whether a kept capture stays when another one of the same URL comes.
pub open spec fn keeps(existing: RecordView, incoming: RecordView, strategy: SnapshotStrategy) -> bool {
    match strategy {
        SnapshotStrategy::Latest => order::text_le(incoming.timestamp, existing.timestamp),
        SnapshotStrategy::Earliest => order::text_le(existing.timestamp, incoming.timestamp),
    }
}

/// Whether a kept capture stays when another one of the same URL comes.
pub fn keep_existing(
    existing: &CdxRecord,
    incoming: &CdxRecord,
    strategy: SnapshotStrategy,
) -> (r: bool)
    ensures
        r == keeps(existing@, incoming@, strategy),
{
    match strategy {
        SnapshotStrategy::Latest => order::at_most(
            incoming.timestamp.as_str(),
            existing.timestamp.as_str(),
        ),
        SnapshotStrategy::Earliest => order::at_most(
            existing.timestamp.as_str(),
            incoming.timestamp.as_str(),
        ),
    }
}

/// Where the capture with a key stands among the kept ones.
pub open spec fn key_position(kept: Seq<RecordView>, key: Seq<char>) -> Option<int>
    decreases kept.len(),
{
    if kept.len() == 0 {
        None
    } else if original_key(kept.last().original) == key {
        Some(kept.len() - 1)
    } else {
        key_position(kept.drop_last(), key)
    }
}

/// The kept captures when one more comes.
pub open spec fn absorb(
    kept: Seq<RecordView>,
    record: RecordView,
    strategy: SnapshotStrategy,
) -> Seq<RecordView> {
    match key_position(kept, original_key(record.original)) {
        Some(i) => if keeps(kept[i], record, strategy) {
            kept
        } else {
            kept.update(i, record)
        },
        None => kept.push(record),
    }
}

/// The kept captures among many.
pub open spec fn absorb_all(records: Seq<RecordView>, strategy: SnapshotStrategy) -> Seq<RecordView>
    decreases records.len(),
{
    if records.len() == 0 {
        Seq::empty()
    } else {
        absorb(absorb_all(records.drop_last(), strategy), records.last(), strategy)
    }
}

/// Whether no two captures have one key.
pub open spec fn distinct_keys(kept: Seq<RecordView>) -> bool {
    forall|i: int, j: int|
        0 <= i < j < kept.len() ==> original_key(#[trigger] kept[i].original) != original_key(
            #[trigger] kept[j].original,
        )
}

/// A position that `key_position` gives holds the key; where it gives none, nothing does.
proof fn lemma_key_position(kept: Seq<RecordView>, key: Seq<char>)
    ensures
        key_position(kept, key) matches Some(i) ==> 0 <= i < kept.len() && original_key(
            kept[i].original,
        ) == key,
        key_position(kept, key) is None ==> forall|i: int|
            0 <= i < kept.len() ==> original_key(#[trigger] kept[i].original) != key,
    decreases kept.len(),
{
    if kept.len() > 0 && original_key(kept.last().original) != key {
        lemma_key_position(kept.drop_last(), key);
        assert forall|i: int|
            key_position(kept, key) is None && 0 <= i < kept.len() implies original_key(
            #[trigger] kept[i].original,
        ) != key by {
            if i < kept.len() - 1 {
                assert(kept.drop_last()[i] == kept[i]);
            }
        }
    }
}

/// With distinct keys the position of a key is where it stands.
proof fn lemma_key_position_unique(kept: Seq<RecordView>, key: Seq<char>, i: int)
    requires
        distinct_keys(kept),
        0 <= i < kept.len(),
        original_key(kept[i].original) == key,
    ensures
        key_position(kept, key) == Some(i),
{
    lemma_key_position(kept, key);
    match key_position(kept, key) {
        Some(j) => {
            if i < j {
                assert(original_key(kept[i].original) != original_key(kept[j].original));
            } else if j < i {
                assert(original_key(kept[j].original) != original_key(kept[i].original));
            }
        },
        None => {
            assert(original_key(kept[i].original) != key);
        },
    }
}

/// Keys stay distinct when one more capture comes.
proof fn lemma_absorb_distinct(kept: Seq<RecordView>, record: RecordView, strategy: SnapshotStrategy)
    requires
        distinct_keys(kept),
    ensures
        distinct_keys(absorb(kept, record, strategy)),
{
    let key = original_key(record.original);
    lemma_key_position(kept, key);
    let after = absorb(kept, record, strategy);
    assert forall|i: int, j: int| 0 <= i < j < after.len() implies original_key(
        #[trigger] after[i].original,
    ) != original_key(#[trigger] after[j].original) by {
        if j < kept.len() {
            assert(original_key(kept[i].original) != original_key(kept[j].original));
        }
    }
}

/// Whether `a` is preferred to `b`, or equally good.
pub open spec fn preferred(a: RecordView, b: RecordView, strategy: SnapshotStrategy) -> bool {
    keeps(a, b, strategy)
}

/// Whether the kept capture at `i` is of the URL of `record`, and preferred to it or equally good.
pub open spec fn stands_for(
    kept: Seq<RecordView>,
    i: int,
    record: RecordView,
    strategy: SnapshotStrategy,
) -> bool {
    0 <= i < kept.len() && original_key(kept[i].original) == original_key(record.original)
        && preferred(kept[i], record, strategy)
}

/// Whether some kept capture stands for `record`.
pub open spec fn covered(
    kept: Seq<RecordView>,
    record: RecordView,
    strategy: SnapshotStrategy,
) -> bool {
    exists|i: int| stands_for(kept, i, record, strategy)
}

/// Whether every capture of `records` has its URL among `kept`, by a capture that is preferred to
/// it or equally good.
pub open spec fn covers(
    kept: Seq<RecordView>,
    records: Seq<RecordView>,
    strategy: SnapshotStrategy,
) -> bool {
    forall|j: int|
        0 <= j < records.len() ==> covered(kept, #[trigger] records[j], strategy)
}

/// What stood for a capture before another one came is stood for afterwards.
proof fn lemma_still_stands(
    kept: Seq<RecordView>,
    i: int,
    record: RecordView,
    last: RecordView,
    strategy: SnapshotStrategy,
)
    requires
        stands_for(kept, i, record, strategy),
    ensures
        stands_for(absorb(kept, last, strategy), i, record, strategy),
{
    let after = absorb(kept, last, strategy);
    lemma_key_position(kept, original_key(last.original));
    if after[i] != kept[i] {
        assert(after[i] == last);
        order::lemma_text_le_total(kept[i].timestamp, last.timestamp);
        match strategy {
            SnapshotStrategy::Latest => {
                order::lemma_text_le_transitive(
                    record.timestamp,
                    kept[i].timestamp,
                    last.timestamp,
                );
            },
            SnapshotStrategy::Earliest => {
                order::lemma_text_le_transitive(
                    last.timestamp,
                    kept[i].timestamp,
                    record.timestamp,
                );
            },
        }
    }
}

/// A capture that comes is stood for.
proof fn lemma_last_stands(kept: Seq<RecordView>, last: RecordView, strategy: SnapshotStrategy)
    ensures
        covered(absorb(kept, last, strategy), last, strategy),
{
    let after = absorb(kept, last, strategy);
    lemma_key_position(kept, original_key(last.original));
    order::lemma_text_le_total(last.timestamp, last.timestamp);
    match key_position(kept, original_key(last.original)) {
        Some(i) => {
            assert(stands_for(after, i, last, strategy));
        },
        None => {
            assert(stands_for(after, kept.len() as int, last, strategy));
        },
    }
}

/// Every kept capture is one that came.
proof fn lemma_absorb_all_members(records: Seq<RecordView>, strategy: SnapshotStrategy, i: int)
    requires
        0 <= i < absorb_all(records, strategy).len(),
    ensures
        records.contains(absorb_all(records, strategy)[i]),
    decreases records.len(),
{
    let front = records.drop_last();
    let kept = absorb_all(front, strategy);
    let after = absorb_all(records, strategy);
    lemma_key_position(kept, original_key(records.last().original));
    if i < kept.len() && after[i] == kept[i] {
        lemma_absorb_all_members(front, strategy, i);
        let k = choose|k: int| 0 <= k < front.len() && front[k] == kept[i];
        assert(records[k] == after[i]);
    } else {
        assert(records[records.len() - 1] == after[i]);
    }
}

/// Of the captures of each URL exactly one is kept, and none of the same URL is newer (or, under
/// the earliest strategy, older) than it.
pub proof fn law_one_best_capture_per_url(records: Seq<RecordView>, strategy: SnapshotStrategy)
    ensures
        distinct_keys(absorb_all(records, strategy)),
        covers(absorb_all(records, strategy), records, strategy),
        forall|i: int|
            0 <= i < absorb_all(records, strategy).len() ==> records.contains(
                #[trigger] absorb_all(records, strategy)[i],
            ),
    decreases records.len(),
{
    assert forall|i: int| 0 <= i < absorb_all(records, strategy).len() implies records.contains(
        #[trigger] absorb_all(records, strategy)[i],
    ) by {
        lemma_absorb_all_members(records, strategy, i);
    }
    if records.len() > 0 {
        let front = records.drop_last();
        let last = records.last();
        let kept = absorb_all(front, strategy);
        let after = absorb_all(records, strategy);
        law_one_best_capture_per_url(front, strategy);
        lemma_absorb_distinct(kept, last, strategy);
        assert forall|j: int| 0 <= j < records.len() implies covered(
            after,
            #[trigger] records[j],
            strategy,
        ) by {
            if j < front.len() {
                assert(covered(kept, front[j], strategy));
                let i = choose|i: int| stands_for(kept, i, front[j], strategy);
                lemma_still_stands(kept, i, front[j], last, strategy);
                assert(stands_for(after, i, records[j], strategy));
            } else {
                lemma_last_stands(kept, last, strategy);
            }
        }
    }
}

/// The order of records by original URL, then by timestamp.
pub struct ByOriginal;

impl order::Preorder<RecordView> for ByOriginal {
    open spec fn le(a: RecordView, b: RecordView) -> bool {
        order::pair_le((a.original, a.timestamp), (b.original, b.timestamp))
    }

    proof fn total(a: RecordView, b: RecordView) {
        order::lemma_pair_le_total((a.original, a.timestamp), (b.original, b.timestamp));
    }

    proof fn transitive(a: RecordView, b: RecordView, c: RecordView) {
        order::lemma_pair_le_transitive(
            (a.original, a.timestamp),
            (b.original, b.timestamp),
            (c.original, c.timestamp),
        );
    }
}

impl order::Arranges<CdxRecord> for ByOriginal {
    fn precedes(a: &CdxRecord, b: &CdxRecord) -> (r: bool) {
        order::pair_at_most(
            a.original.as_str(),
            a.timestamp.as_str(),
            b.original.as_str(),
            b.timestamp.as_str(),
        )
    }
}

/// The order of records from the oldest to the newest, then by original URL.
pub struct OldestFirst;

impl order::Preorder<RecordView> for OldestFirst {
    open spec fn le(a: RecordView, b: RecordView) -> bool {
        order::pair_le((a.timestamp, a.original), (b.timestamp, b.original))
    }

    proof fn total(a: RecordView, b: RecordView) {
        order::lemma_pair_le_total((a.timestamp, a.original), (b.timestamp, b.original));
    }

    proof fn transitive(a: RecordView, b: RecordView, c: RecordView) {
        order::lemma_pair_le_transitive(
            (a.timestamp, a.original),
            (b.timestamp, b.original),
            (c.timestamp, c.original),
        );
    }
}

impl order::Arranges<CdxRecord> for OldestFirst {
    fn precedes(a: &CdxRecord, b: &CdxRecord) -> (r: bool) {
        order::pair_at_most(
            a.timestamp.as_str(),
            a.original.as_str(),
            b.timestamp.as_str(),
            b.original.as_str(),
        )
    }
}

/// The order of records from the newest to the oldest, then by original URL.
pub struct NewestFirst;

/// Whether a record comes no later than another when the newest come first.
pub open spec fn newest_le(a: RecordView, b: RecordView) -> bool {
    order::text_lt(b.timestamp, a.timestamp) || (a.timestamp == b.timestamp && order::text_le(
        a.original,
        b.original,
    ))
}

impl order::Preorder<RecordView> for NewestFirst {
    open spec fn le(a: RecordView, b: RecordView) -> bool {
        newest_le(a, b)
    }

    proof fn total(a: RecordView, b: RecordView) {
        order::lemma_text_le_total(a.timestamp, b.timestamp);
        order::lemma_text_le_total(a.original, b.original);
    }

    proof fn transitive(a: RecordView, b: RecordView, c: RecordView) {
        if order::text_lt(b.timestamp, a.timestamp) && order::text_lt(c.timestamp, b.timestamp) {
            order::lemma_text_le_transitive(c.timestamp, b.timestamp, a.timestamp);
            if a.timestamp == c.timestamp {
                order::lemma_text_le_antisymmetric(a.timestamp, b.timestamp);
            }
        }
        if a.timestamp == b.timestamp && b.timestamp == c.timestamp {
            order::lemma_text_le_transitive(a.original, b.original, c.original);
        }
    }
}

impl order::Arranges<CdxRecord> for NewestFirst {
    fn precedes(a: &CdxRecord, b: &CdxRecord) -> (r: bool) {
        if text::same(a.timestamp.as_str(), b.timestamp.as_str()) {
            order::at_most(a.original.as_str(), b.original.as_str())
        } else {
            order::at_most(b.timestamp.as_str(), a.timestamp.as_str())
        }
    }
}

/// The records in the order in which a strategy tries them.
pub open spec fn in_strategy_order(
    records: Seq<RecordView>,
    strategy: SnapshotStrategy,
) -> Seq<RecordView> {
    match strategy {
        SnapshotStrategy::Latest => order::sort_of::<RecordView, NewestFirst>(records),
        SnapshotStrategy::Earliest => order::sort_of::<RecordView, OldestFirst>(records),
    }
}

/// Puts the records in the order in which a strategy tries them.
pub fn sort_records_for_strategy(records: Vec<CdxRecord>, strategy: SnapshotStrategy) -> (r: Vec<
    CdxRecord,
>)
    ensures
        record_views(r@) == in_strategy_order(record_views(records@), strategy),
{
    let r = match strategy {
        SnapshotStrategy::Latest => order::sort::<CdxRecord, NewestFirst>(records),
        SnapshotStrategy::Earliest => order::sort::<CdxRecord, OldestFirst>(records),
    };
    proof {
        assert(record_views(r@) == order::keys(r@));
        assert(record_views(records@) == order::keys(records@));
    }
    r
}

/// The bytes of the lines that end with a line feed, each with its line feed.
pub open spec fn full_lines(bytes: Seq<u8>) -> Seq<Seq<u8>>
    decreases bytes.len(),
{
    if bytes.len() == 0 {
        Seq::empty()
    } else if bytes.last() == 10u8 {
        let front = bytes.drop_last();
        full_lines(front).push(line_rest(front).push(10u8))
    } else {
        full_lines(bytes.drop_last())
    }
}

/// The bytes behind the last line feed.
pub open spec fn line_rest(bytes: Seq<u8>) -> Seq<u8>
    decreases bytes.len(),
{
    if bytes.len() == 0 || bytes.last() == 10u8 {
        Seq::empty()
    } else {
        line_rest(bytes.drop_last()).push(bytes.last())
    }
}

/// Splitting bytes into lines does not depend on how they are cut into chunks.
pub proof fn law_lines_ignore_chunking(first: Seq<u8>, second: Seq<u8>)
    ensures
        full_lines(first + second) == full_lines(first) + full_lines(line_rest(first) + second),
        line_rest(first + second) == line_rest(line_rest(first) + second),
    decreases second.len(),
{
    let rest = line_rest(first);
    if second.len() == 0 {
        assert(first + second == first);
        assert(rest + second == rest);
        lemma_rest_has_no_lines(first);
        assert(full_lines(first) + full_lines(rest) == full_lines(first));
    } else {
        let front = second.drop_last();
        law_lines_ignore_chunking(first, front);
        assert((first + second).drop_last() == first + front);
        assert((rest + second).drop_last() == rest + front);
        assert((first + second).last() == second.last());
        assert((rest + second).last() == second.last());
        assert(full_lines(first + second) == full_lines(first) + full_lines(rest + second));
    }
}

/// What follows the last line feed holds no line.
proof fn lemma_rest_has_no_lines(bytes: Seq<u8>)
    ensures
        full_lines(line_rest(bytes)) == Seq::<Seq<u8>>::empty(),
        line_rest(line_rest(bytes)) == line_rest(bytes),
    decreases bytes.len(),
{
    if bytes.len() > 0 && bytes.last() != 10u8 {
        let front = bytes.drop_last();
        lemma_rest_has_no_lines(front);
        assert(line_rest(bytes).drop_last() == line_rest(front));
    }
}

/// The views of a list of byte strings.
pub open spec fn byte_views(v: Seq<Vec<u8>>) -> Seq<Seq<u8>> {
    Seq::new(v.len(), |i: int| v[i]@)
}

/// Cuts a stream of bytes into lines.
#[derive(Debug)]
pub struct LineBuffer {
    pub pending: Vec<u8>,
}

impl LineBuffer {
    /// Nothing read yet.
    pub fn new() -> (r: LineBuffer)
        ensures
            r.pending@ == Seq::<u8>::empty(),
    {
        LineBuffer { pending: Vec::new() }
    }

    /// Takes a chunk; gives the lines that are complete now.
    pub fn push(&mut self, chunk: &[u8]) -> (lines: Vec<Vec<u8>>)
        requires
            old(self).pending@ == line_rest(old(self).pending@),
        ensures
            byte_views(lines@) == full_lines(old(self).pending@ + chunk@),
            final(self).pending@ == line_rest(old(self).pending@ + chunk@),
    {
        let ghost start = self.pending@;
        let mut lines: Vec<Vec<u8>> = Vec::new();
        let mut rest: Vec<u8> = Vec::new();
        rest.append(&mut self.pending);
        let mut i: usize = 0;
        proof {
            lemma_rest_has_no_lines(start);
            assert(rest@ == start);
            assert(start + chunk@.take(0) == start);
            assert(byte_views(lines@) == full_lines(start + chunk@.take(0)));
        }
        while i < chunk.len()
            invariant
                i <= chunk@.len(),
                byte_views(lines@) == full_lines(start + chunk@.take(i as int)),
                rest@ == line_rest(start + chunk@.take(i as int)),
            decreases chunk@.len() - i,
        {
            let byte: u8 = chunk[i];
            let ghost seen = start + chunk@.take(i as int);
            let ghost more = start + chunk@.take(i + 1);
            let ghost before = byte_views(lines@);
            proof {
                assert(more.drop_last() == seen);
                assert(more.last() == byte);
            }
            rest.push(byte);
            if byte == 10 {
                let mut line: Vec<u8> = Vec::new();
                line.append(&mut rest);
                let ghost done = line@;
                lines.push(line);
                proof {
                    assert(byte_views(lines@) == before.push(done));
                    assert(rest@ == Seq::<u8>::empty());
                }
            }
            i += 1;
        }
        proof {
            assert(chunk@.take(chunk@.len() as int) == chunk@);
        }
        self.pending = rest;
        lines
    }
}

/// The record in the bytes of a line; a blank line has none.
pub open spec fn record_of_bytes(line: Seq<u8>) -> Result<Option<RecordView>, CdxLineError> {
    let t = text::trim(text::utf8_lossy(line));
    if t.len() == 0 {
        Ok(None)
    } else {
        match record_of_line(t) {
            Ok(record) => Ok(Some(record)),
            Err(e) => Err(e),
        }
    }
}

/// Reads the record in the bytes of a line.
pub fn parse_line_bytes(line: &[u8]) -> (r: Result<Option<CdxRecord>, CdxLineError>)
    ensures
        match r {
            Ok(Some(record)) => record_of_bytes(line@) == Ok::<Option<RecordView>, CdxLineError>(
                Some(record@),
            ),
            Ok(None) => record_of_bytes(line@) == Ok::<Option<RecordView>, CdxLineError>(None),
            Err(e) => record_of_bytes(line@) == Err::<Option<RecordView>, CdxLineError>(e),
        },
{
    let decoded = text::decode_lossy(line);
    let trimmed = text::trimmed(decoded.as_str());
    if trimmed.as_str().is_empty() {
        return Ok(None);
    }
    match parse_cdx_line(trimmed.as_str()) {
        Ok(record) => Ok(Some(record)),
        Err(e) => Err(e),
    }
}

/// Appends the record in the bytes of a line.
pub fn ingest_all_cdx_line(line: &[u8], records: &mut Vec<CdxRecord>) -> (r: Result<
    (),
    CdxLineError,
>)
    ensures
        match record_of_bytes(line@) {
            Ok(Some(record)) => r is Ok && record_views(final(records)@) == record_views(
                old(records)@,
            ).push(record),
            Ok(None) => r is Ok && record_views(final(records)@) == record_views(old(records)@),
            Err(e) => r == Err::<(), CdxLineError>(e) && record_views(final(records)@)
                == record_views(old(records)@),
        },
{
    let ghost before = record_views(records@);
    match parse_line_bytes(line) {
        Ok(Some(record)) => {
            records.push(record);
            proof {
                assert(record_views(records@) == before.push(record@));
            }
            Ok(())
        },
        Ok(None) => Ok(()),
        Err(e) => Err(e),
    }
}

/// Keeps one capture of each URL out of a stream of records.
pub struct LatestRecords {
    strategy: SnapshotStrategy,
    kept: Vec<CdxRecord>,
    index: StringHashMap<usize>,
}

impl View for LatestRecords {
    type V = Seq<RecordView>;

    closed spec fn view(&self) -> Seq<RecordView> {
        record_views(self.kept@)
    }
}

impl LatestRecords {
    /// The strategy by which captures are kept.
    pub closed spec fn kept_by(&self) -> SnapshotStrategy {
        self.strategy
    }

    /// The index leads each key to where its capture stands.
    pub closed spec fn well_formed(&self) -> bool {
        &&& distinct_keys(self@)
        &&& forall|i: int|
            0 <= i < self.kept@.len() ==> self.index@.contains_key(
                original_key(#[trigger] self@[i].original),
            ) && self.index@[original_key(self@[i].original)] == i
        &&& forall|k: Seq<char>| #[trigger]
            self.index@.contains_key(k) ==> self.index@[k] < self.kept@.len() && original_key(
                self@[self.index@[k] as int].original,
            ) == k
    }

    /// Nothing kept yet.
    pub fn new(strategy: SnapshotStrategy) -> (r: LatestRecords)
        ensures
            r.well_formed(),
            r.kept_by() == strategy,
            r@ == Seq::<RecordView>::empty(),
    {
        let r = LatestRecords { strategy, kept: Vec::new(), index: StringHashMap::new() };
        assert(r@ == Seq::<RecordView>::empty());
        r
    }

    /// Takes a record.
    pub fn add(&mut self, record: CdxRecord)
        requires
            old(self).well_formed(),
        ensures
            final(self).well_formed(),
            final(self).kept_by() == old(self).kept_by(),
            final(self)@ == absorb(old(self)@, record@, old(self).kept_by()),
    {
        let ghost before = self@;
        let ghost index_before = self.index@;
        let key = canonical_original_key(record.original.as_str());
        proof {
            lemma_key_position(before, key@);
            lemma_absorb_distinct(before, record@, self.strategy);
        }
        match self.index.get(key.as_str()) {
            Some(at) => {
                let i: usize = *at;
                proof {
                    lemma_key_position_unique(before, key@, i as int);
                }
                if !keep_existing(&self.kept[i], &record, self.strategy) {
                    let view: Ghost<RecordView> = Ghost(record@);
                    self.kept.set(i, record);
                    proof {
                        assert(self@ == before.update(i as int, view@));
                    }
                }
                proof {
                    assert forall|n: int| 0 <= n < self.kept@.len() implies self.index@.contains_key(
                        original_key(#[trigger] self@[n].original),
                    ) && self.index@[original_key(self@[n].original)] == n by {
                        assert(index_before.contains_key(original_key(before[n].original)));
                    }
                    assert forall|k: Seq<char>| #[trigger] self.index@.contains_key(k) implies
                        self.index@[k] < self.kept@.len() && original_key(
                        self@[self.index@[k] as int].original,
                    ) == k by {
                        assert(original_key(before[self.index@[k] as int].original) == k);
                    }
                }
            },
            None => {
                let at: usize = self.kept.len();
                let view: Ghost<RecordView> = Ghost(record@);
                proof {
                    match key_position(before, key@) {
                        Some(i) => {
                            assert(index_before.contains_key(original_key(before[i].original)));
                        },
                        None => {},
                    }
                }
                self.kept.push(record);
                self.index.insert(key, at);
                proof {
                    assert(self@ == before.push(view@));
                    assert forall|n: int| 0 <= n < self.kept@.len() implies self.index@.contains_key(
                        original_key(#[trigger] self@[n].original),
                    ) && self.index@[original_key(self@[n].original)] == n by {
                        if n < before.len() {
                            assert(self@[n] == before[n]);
                            assert(index_before.contains_key(original_key(before[n].original)));
                        }
                    }
                    assert forall|k: Seq<char>| #[trigger] self.index@.contains_key(k) implies
                        self.index@[k] < self.kept@.len() && original_key(
                        self@[self.index@[k] as int].original,
                    ) == k by {
                        if k != original_key(view@.original) {
                            assert(index_before.contains_key(k));
                            assert(self@[self.index@[k] as int] == before[index_before[k] as int]);
                        }
                    }
                }
            },
        }
    }

    /// Takes the record in the bytes of a line.
    pub fn ingest_cdx_line(&mut self, line: &[u8]) -> (r: Result<(), CdxLineError>)
        requires
            old(self).well_formed(),
        ensures
            final(self).well_formed(),
            final(self).kept_by() == old(self).kept_by(),
            match record_of_bytes(line@) {
                Ok(Some(record)) => r is Ok && final(self)@ == absorb(
                    old(self)@,
                    record,
                    old(self).kept_by(),
                ),
                Ok(None) => r is Ok && final(self)@ == old(self)@,
                Err(e) => r == Err::<(), CdxLineError>(e) && final(self)@ == old(self)@,
            },
    {
        match parse_line_bytes(line) {
            Ok(Some(record)) => {
                self.add(record);
                Ok(())
            },
            Ok(None) => Ok(()),
            Err(e) => Err(e),
        }
    }

    /// The kept captures by original URL.
    pub fn into_records(self) -> (r: Vec<CdxRecord>)
        ensures
            record_views(r@) == order::sort_of::<RecordView, ByOriginal>(self@),
    {
        let r = order::sort::<CdxRecord, ByOriginal>(self.kept);
        proof {
            assert(record_views(r@) == order::keys(r@));
            assert(record_views(self.kept@) == order::keys(self.kept@));
        }
        r
    }
}

/// The records in lines, up to an error.
pub open spec fn records_of_lines(lines: Seq<Seq<u8>>) -> Result<Seq<RecordView>, CdxLineError>
    decreases lines.len(),
{
    if lines.len() == 0 {
        Ok(Seq::empty())
    } else {
        match records_of_lines(lines.drop_last()) {
            Ok(records) => match record_of_bytes(lines.last()) {
                Ok(Some(record)) => Ok(records.push(record)),
                Ok(None) => Ok(records),
                Err(e) => Err(e),
            },
            Err(e) => Err(e),
        }
    }
}

/// The lines of a response: the complete ones, and what follows them unless that is nothing.
pub open spec fn body_lines(body: Seq<u8>) -> Seq<Seq<u8>> {
    if line_rest(body).len() == 0 {
        full_lines(body)
    } else {
        full_lines(body).push(line_rest(body))
    }
}

/// The selection out of a response: one capture of each URL, by original URL.
pub open spec fn latest_of_body(body: Seq<u8>, strategy: SnapshotStrategy) -> Result<
    Seq<RecordView>,
    CdxLineError,
> {
    match records_of_lines(body_lines(body)) {
        Ok(records) => Ok(order::sort_of::<RecordView, ByOriginal>(absorb_all(records, strategy))),
        Err(e) => Err(e),
    }
}

/// All records of a response in the order of the strategy.
pub open spec fn all_of_body(body: Seq<u8>, strategy: SnapshotStrategy) -> Result<
    Seq<RecordView>,
    CdxLineError,
> {
    match records_of_lines(body_lines(body)) {
        Ok(records) => Ok(in_strategy_order(records, strategy)),
        Err(e) => Err(e),
    }
}

/// The lines of a response.
fn split_body(body: &[u8]) -> (lines: Vec<Vec<u8>>)
    ensures
        byte_views(lines@) == body_lines(body@),
{
    let mut buffer = LineBuffer::new();
    proof {
        assert(buffer.pending@ + body@ == body@);
    }
    let mut lines = buffer.push(body);
    let ghost before = byte_views(lines@);
    if buffer.pending.len() > 0 {
        let rest = buffer.pending;
        lines.push(rest);
        proof {
            assert(byte_views(lines@) == before.push(rest@));
        }
    }
    lines
}

/// An error among the first lines is the error of all.
proof fn lemma_line_error(lines: Seq<Seq<u8>>, k: int, e: CdxLineError)
    requires
        0 <= k <= lines.len(),
        records_of_lines(lines.take(k)) == Err::<Seq<RecordView>, CdxLineError>(e),
    ensures
        records_of_lines(lines) == Err::<Seq<RecordView>, CdxLineError>(e),
    decreases lines.len() - k,
{
    if k == lines.len() {
        assert(lines.take(k) == lines);
    } else {
        assert(lines.take(k + 1).drop_last() == lines.take(k));
        lemma_line_error(lines, k + 1, e);
    }
}

/// All records of a response in the order of the strategy.
pub fn all_records(body: &[u8], strategy: SnapshotStrategy) -> (r: Result<
    Vec<CdxRecord>,
    CdxLineError,
>)
    ensures
        match r {
            Ok(records) => all_of_body(body@, strategy) == Ok::<Seq<RecordView>, CdxLineError>(
                record_views(records@),
            ),
            Err(e) => all_of_body(body@, strategy) == Err::<Seq<RecordView>, CdxLineError>(e),
        },
{
    let lines = split_body(body);
    let ghost all = byte_views(lines@);
    let mut records: Vec<CdxRecord> = Vec::new();
    let mut i: usize = 0;
    proof {
        assert(record_views(records@) == Seq::<RecordView>::empty());
    }
    while i < lines.len()
        invariant
            i <= lines@.len(),
            all == byte_views(lines@),
            all == body_lines(body@),
            records_of_lines(all.take(i as int)) == Ok::<Seq<RecordView>, CdxLineError>(
                record_views(records@),
            ),
        decreases lines@.len() - i,
    {
        proof {
            assert(all.take(i + 1).drop_last() == all.take(i as int));
            assert(all.take(i + 1).last() == lines@[i as int]@);
        }
        match ingest_all_cdx_line(lines[i].as_slice(), &mut records) {
            Ok(()) => {},
            Err(e) => {
                proof {
                    lemma_line_error(all, i + 1, e);
                }
                return Err(e);
            },
        }
        i += 1;
    }
    proof {
        assert(all.take(all.len() as int) == all);
    }
    Ok(sort_records_for_strategy(records, strategy))
}

/// One capture of each URL out of a response, by original URL.
pub fn latest_records(body: &[u8], strategy: SnapshotStrategy) -> (r: Result<
    Vec<CdxRecord>,
    CdxLineError,
>)
    ensures
        match r {
            Ok(records) => latest_of_body(body@, strategy) == Ok::<Seq<RecordView>, CdxLineError>(
                record_views(records@),
            ),
            Err(e) => latest_of_body(body@, strategy) == Err::<Seq<RecordView>, CdxLineError>(e),
        },
{
    let lines = split_body(body);
    let ghost all = byte_views(lines@);
    let mut latest = LatestRecords::new(strategy);
    let mut i: usize = 0;
    while i < lines.len()
        invariant
            i <= lines@.len(),
            all == byte_views(lines@),
            all == body_lines(body@),
            latest.well_formed(),
            latest.kept_by() == strategy,
            records_of_lines(all.take(i as int)) matches Ok(records) && latest@ == absorb_all(
                records,
                strategy,
            ),
        decreases lines@.len() - i,
    {
        proof {
            assert(all.take(i + 1).drop_last() == all.take(i as int));
            assert(all.take(i + 1).last() == lines@[i as int]@);
        }
        let ghost so_far = records_of_lines(all.take(i as int))->Ok_0;
        match latest.ingest_cdx_line(lines[i].as_slice()) {
            Ok(()) => {
                proof {
                    match record_of_bytes(all[i as int]) {
                        Ok(Some(record)) => {
                            assert(so_far.push(record).drop_last() == so_far);
                        },
                        _ => {},
                    }
                }
            },
            Err(e) => {
                proof {
                    lemma_line_error(all, i + 1, e);
                }
                return Err(e);
            },
        }
        i += 1;
    }
    proof {
        assert(all.take(all.len() as int) == all);
    }
    Ok(latest.into_records())
}

/// The selection is the best capture of each URL, in order: every record of the response has its
/// URL in it, by a capture that is preferred to it or equally good, and no URL occurs twice.
pub proof fn law_selection_of_a_response(body: Seq<u8>, strategy: SnapshotStrategy)
    requires
        records_of_lines(body_lines(body)) is Ok,
    ensures
        latest_of_body(body, strategy) matches Ok(selected) && {
            let records = records_of_lines(body_lines(body))->Ok_0;
            &&& order::sorted::<RecordView, ByOriginal>(selected)
            &&& selected.to_multiset() == absorb_all(records, strategy).to_multiset()
            &&& distinct_keys(absorb_all(records, strategy))
            &&& covers(absorb_all(records, strategy), records, strategy)
        },
{
    let records = records_of_lines(body_lines(body))->Ok_0;
    order::lemma_sort_of::<RecordView, ByOriginal>(absorb_all(records, strategy));
    law_one_best_capture_per_url(records, strategy);
}

/// Sorting captures with different keys leaves each of them once.
proof fn lemma_sorted_once(kept: Seq<RecordView>)
    requires
        distinct_keys(kept),
    ensures
        order::sort_of::<RecordView, ByOriginal>(kept).no_duplicates(),
{
    broadcast use vstd::seq_lib::group_to_multiset_ensures;

    let selected = order::sort_of::<RecordView, ByOriginal>(kept);
    order::lemma_sort_of::<RecordView, ByOriginal>(kept);
    assert forall|i: int, j: int| 0 <= i < kept.len() && 0 <= j < kept.len() && i != j implies kept[i]
        != kept[j] by {
        assert(kept[i].original == kept[i].original && kept[j].original == kept[j].original);
    }
    assert(kept.no_duplicates());
    kept.lemma_multiset_has_no_duplicates();
    selected.lemma_multiset_has_no_duplicates_conv();
}

/// The selected capture that stands for one of the response.
proof fn lemma_selected_for(records: Seq<RecordView>, strategy: SnapshotStrategy, i: int) -> (k: int)
    requires
        0 <= i < records.len(),
    ensures
        ({
            let selected = order::sort_of::<RecordView, ByOriginal>(absorb_all(records, strategy));
            &&& 0 <= k < selected.len()
            &&& original_key(selected[k].original) == original_key(records[i].original)
            &&& keeps(selected[k], records[i], strategy)
        }),
{
    let kept = absorb_all(records, strategy);
    let selected = order::sort_of::<RecordView, ByOriginal>(kept);
    order::lemma_sort_of::<RecordView, ByOriginal>(kept);
    law_one_best_capture_per_url(records, strategy);
    assert(covered(kept, records[i], strategy));
    let j = choose|j: int| stands_for(kept, j, records[i], strategy);
    assert(kept.contains(kept[j]));
    assert(selected.contains(kept[j]));
    choose|k: int| 0 <= k < selected.len() && selected[k] == kept[j]
}

/// A selected capture is one of the response.
proof fn lemma_selected(records: Seq<RecordView>, strategy: SnapshotStrategy, k: int)
    requires
        0 <= k < order::sort_of::<RecordView, ByOriginal>(absorb_all(records, strategy)).len(),
    ensures
        records.contains(
            order::sort_of::<RecordView, ByOriginal>(absorb_all(records, strategy))[k],
        ),
{
    let kept = absorb_all(records, strategy);
    let selected = order::sort_of::<RecordView, ByOriginal>(kept);
    order::lemma_sort_of::<RecordView, ByOriginal>(kept);
    law_one_best_capture_per_url(records, strategy);
    assert(selected.contains(selected[k]));
    let j = choose|j: int| 0 <= j < kept.len() && kept[j] == selected[k];
    assert(records.contains(kept[j]));
}

/// Two selected captures are of different URLs, and in order.
proof fn lemma_selected_apart(
    records: Seq<RecordView>,
    strategy: SnapshotStrategy,
    k: int,
    m: int,
)
    requires
        0 <= k < m < order::sort_of::<RecordView, ByOriginal>(absorb_all(records, strategy)).len(),
    ensures
        ({
            let selected = order::sort_of::<RecordView, ByOriginal>(absorb_all(records, strategy));
            &&& original_key(selected[k].original) != original_key(selected[m].original)
            &&& order::text_le(selected[k].original, selected[m].original)
        }),
{
    let kept = absorb_all(records, strategy);
    let selected = order::sort_of::<RecordView, ByOriginal>(kept);
    order::lemma_sort_of::<RecordView, ByOriginal>(kept);
    law_one_best_capture_per_url(records, strategy);
    lemma_sorted_once(kept);
    assert(selected.contains(selected[k]) && selected.contains(selected[m]));
    let a = choose|a: int| 0 <= a < kept.len() && kept[a] == selected[k];
    let b = choose|b: int| 0 <= b < kept.len() && kept[b] == selected[m];
    assert(a != b);
    assert(kept[a].original == selected[k].original && kept[b].original == selected[m].original);
    assert(<ByOriginal as order::Preorder<RecordView>>::le(selected[k], selected[m]));
    order::lemma_text_le_total(selected[k].original, selected[k].original);
}

/// Of each original URL of a response, its fragment left out, exactly one capture is selected: one of
/// the response, and none of the same URL is newer or, under the earliest strategy, older. URLs that
/// differ without their fragments, in their queries too, each keep a capture of their own. The
/// selection is ordered by original URL.
#[verifier::spinoff_prover]
#[verifier::rlimit(50)]
pub proof fn law_each_url_keeps_its_best_capture(body: Seq<u8>, strategy: SnapshotStrategy)
    requires
        records_of_lines(body_lines(body)) is Ok,
    ensures
        latest_of_body(body, strategy) matches Ok(selected) && {
            let records = records_of_lines(body_lines(body))->Ok_0;
            let page = |original: Seq<char>|
                match urls::url_without_fragment(original) {
                    Some(url) => url,
                    None => original,
                };
            &&& forall|i: int|
                0 <= i < records.len() ==> exists|k: int|
                    0 <= k < selected.len() && page((#[trigger] selected[k]).original) == page(
                        (#[trigger] records[i]).original,
                    ) && match strategy {
                        SnapshotStrategy::Latest => order::text_le(
                            records[i].timestamp,
                            selected[k].timestamp,
                        ),
                        SnapshotStrategy::Earliest => order::text_le(
                            selected[k].timestamp,
                            records[i].timestamp,
                        ),
                    }
            &&& forall|k: int|
                0 <= k < selected.len() ==> records.contains(#[trigger] selected[k])
            &&& forall|k: int, m: int|
                0 <= k < m < selected.len() ==> page((#[trigger] selected[k]).original) != page(
                    (#[trigger] selected[m]).original,
                ) && order::text_le(selected[k].original, selected[m].original)
        },
{
    let records = records_of_lines(body_lines(body))->Ok_0;
    let selected = latest_of_body(body, strategy)->Ok_0;
    let page = |original: Seq<char>|
        match urls::url_without_fragment(original) {
            Some(url) => url,
            None => original,
        };
    assert forall|original: Seq<char>| #[trigger] page(original) == original_key(original) by {}
    assert forall|i: int| 0 <= i < records.len() implies exists|k: int|
        0 <= k < selected.len() && page((#[trigger] selected[k]).original) == page(
            (#[trigger] records[i]).original,
        ) && match strategy {
            SnapshotStrategy::Latest => order::text_le(records[i].timestamp, selected[k].timestamp),
            SnapshotStrategy::Earliest => order::text_le(
                selected[k].timestamp,
                records[i].timestamp,
            ),
        } by {
        let k = lemma_selected_for(records, strategy, i);
        assert(page(selected[k].original) == page(records[i].original));
    }
    assert forall|k: int| 0 <= k < selected.len() implies records.contains(
        #[trigger] selected[k],
    ) by {
        lemma_selected(records, strategy, k);
    }
    assert forall|k: int, m: int| 0 <= k < m < selected.len() implies page(
        (#[trigger] selected[k]).original,
    ) != page((#[trigger] selected[m]).original) && order::text_le(
        selected[k].original,
        selected[m].original,
    ) by {
        lemma_selected_apart(records, strategy, k, m);
    }
}

/// A line of an answer is read word by word: the time, the URL, the media type, the status, the digest
/// and, where there is a sixth word that is a number, the length.
pub proof fn law_lines_are_read_word_by_word(words: Seq<Seq<char>>)
    requires
        words.len() >= 5,
        forall|i: int|
            0 <= i < words.len() ==> (#[trigger] words[i]).len() > 0 && forall|j: int|
                0 <= j < words[i].len() ==> !text::is_white(#[trigger] words[i][j]),
        numbers::all_digits(words[3]),
        numbers::value(words[3]) <= 65535,
    ensures
        record_of_line(text::join(words, " "@)) matches Ok(record) && {
            &&& record.timestamp == words[0]
            &&& record.original == words[1]
            &&& record.mimetype == words[2]
            &&& record.status_code == numbers::value(words[3])
            &&& record.digest == words[4]
            &&& words.len() == 5 ==> record.length is None
            &&& words.len() >= 6 && numbers::all_digits(words[5]) && numbers::value(words[5])
                <= u64::MAX ==> record.length == Some(numbers::value(words[5]) as u64)
            &&& words.len() >= 6 && !numbers::is_digit(words[5].last()) ==> record.length is None
        },
{
    text::law_written_words_are_read(words);
    assert(numbers::is_digit(words[3][0]));
    if words.len() >= 6 {
        let w = words[5];
        assert(w[w.len() - 1] == w.last());
        if numbers::all_digits(w) {
            assert(numbers::is_digit(w[0]));
        }
        if !numbers::is_digit(w.last()) {
            let d = numbers::unsigned_digits(w);
            if d.len() > 0 {
                assert(d[d.len() - 1] == w.last());
            }
        }
    }
}

/// A line with fewer than five words, or with a status that is no number, is refused.
pub proof fn law_short_lines_are_refused(words: Seq<Seq<char>>)
    requires
        forall|i: int|
            0 <= i < words.len() ==> (#[trigger] words[i]).len() > 0 && forall|j: int|
                0 <= j < words[i].len() ==> !text::is_white(#[trigger] words[i][j]),
        words.len() < 5 || !numbers::is_digit(words[3].last()),
    ensures
        record_of_line(text::join(words, " "@)) is Err,
{
    text::law_written_words_are_read(words);
    if words.len() >= 5 {
        let w = words[3];
        let d = numbers::unsigned_digits(w);
        if d.len() > 0 {
            assert(d[d.len() - 1] == w.last());
        }
    }
}

/// All captures of an answer, tried one after the other, come from the newest to the oldest or, under
/// the earliest strategy, from the oldest to the newest, and none is left out.
pub proof fn law_captures_are_tried_in_order(body: Seq<u8>, strategy: SnapshotStrategy)
    requires
        records_of_lines(body_lines(body)) is Ok,
    ensures
        all_of_body(body, strategy) matches Ok(ordered) && {
            let records = records_of_lines(body_lines(body))->Ok_0;
            &&& ordered.to_multiset() == records.to_multiset()
            &&& forall|i: int, j: int|
                0 <= i < j < ordered.len() ==> match strategy {
                    SnapshotStrategy::Latest => order::text_le(
                        (#[trigger] ordered[j]).timestamp,
                        (#[trigger] ordered[i]).timestamp,
                    ),
                    SnapshotStrategy::Earliest => order::text_le(
                        ordered[i].timestamp,
                        ordered[j].timestamp,
                    ),
                }
        },
{
    let records = records_of_lines(body_lines(body))->Ok_0;
    let ordered = all_of_body(body, strategy)->Ok_0;
    order::lemma_sort_of::<RecordView, NewestFirst>(records);
    order::lemma_sort_of::<RecordView, OldestFirst>(records);
    assert forall|i: int, j: int| 0 <= i < j < ordered.len() implies match strategy {
        SnapshotStrategy::Latest => order::text_le(
            (#[trigger] ordered[j]).timestamp,
            (#[trigger] ordered[i]).timestamp,
        ),
        SnapshotStrategy::Earliest => order::text_le(ordered[i].timestamp, ordered[j].timestamp),
    } by {
        match strategy {
            SnapshotStrategy::Latest => {
                assert(<NewestFirst as order::Preorder<RecordView>>::le(ordered[i], ordered[j]));
                order::lemma_text_le_total(ordered[i].timestamp, ordered[i].timestamp);
            },
            SnapshotStrategy::Earliest => {
                assert(<OldestFirst as order::Preorder<RecordView>>::le(ordered[i], ordered[j]));
                order::lemma_text_le_total(ordered[i].timestamp, ordered[i].timestamp);
            },
        }
    }
}

/// A line is what stands between two line feeds: behind complete lines, bytes without a line feed and
/// a line feed make one more line, and nothing is left over.
pub proof fn law_lines_end_at_line_feeds(front: Seq<u8>, line: Seq<u8>)
    requires
        front.len() == 0 || front.last() == 10u8,
        forall|i: int| 0 <= i < line.len() ==> #[trigger] line[i] != 10u8,
    ensures
        body_lines(front + line.push(10u8)) == body_lines(front).push(line.push(10u8)),
        line.len() > 0 ==> body_lines(front + line) == body_lines(front).push(line),
{
    lemma_bytes_without_line_feed(front, line);
    let whole = front + line.push(10u8);
    assert(whole.drop_last() == front + line);
    assert(line_rest(front) == Seq::<u8>::empty());
    assert(Seq::<u8>::empty() + line == line);
}

/// Bytes without a line feed only add to what is left over.
proof fn lemma_bytes_without_line_feed(front: Seq<u8>, line: Seq<u8>)
    requires
        forall|i: int| 0 <= i < line.len() ==> #[trigger] line[i] != 10u8,
    ensures
        full_lines(front + line) == full_lines(front),
        line_rest(front + line) == line_rest(front) + line,
    decreases line.len(),
{
    if line.len() == 0 {
        assert(front + line == front);
        assert(line_rest(front) + line == line_rest(front));
    } else {
        let before = line.drop_last();
        assert forall|i: int| 0 <= i < before.len() implies #[trigger] before[i] != 10u8 by {
            assert(before[i] == line[i]);
        }
        lemma_bytes_without_line_feed(front, before);
        assert((front + line).drop_last() == front + before);
        assert((front + line).last() == line[line.len() - 1]);
        assert(line_rest(front) + line == (line_rest(front) + before).push(line.last()));
    }
}

/// The index is asked at `/cdx/search/cdx` of the archive, for the target with its match type, for the
/// six fields as text and for captures with status 200 only; the times and the limit are asked for
/// where they are given, behind the rest, and nothing else is.
pub proof fn law_questions_to_the_index(query: CdxQuery, url: urls::UrlView)
    requires
        urls::url_join(query.archive_root@, "/cdx/search/cdx"@) == Some(url),
    ensures
        ({
            let pairs = search_pairs(query);
            let from: int = 5;
            let to: int = from + if query.from is Some {
                1int
            } else {
                0int
            };
            let limit: int = to + if query.to is Some {
                1int
            } else {
                0int
            };
            &&& search_href(query) == urls::url_with_pairs(url.href, pairs)
            &&& pairs[0] == ("url"@, query.target@)
            &&& pairs[1].0 == "matchType"@
            &&& query.match_type == MatchType::Exact ==> pairs[1].1 == "exact"@
            &&& query.match_type == MatchType::Prefix ==> pairs[1].1 == "prefix"@
            &&& query.match_type == MatchType::Host ==> pairs[1].1 == "host"@
            &&& query.match_type == MatchType::Domain ==> pairs[1].1 == "domain"@
            &&& pairs[2] == ("output"@, "txt"@)
            &&& pairs[3] == ("fl"@, "timestamp,original,mimetype,statuscode,digest,length"@)
            &&& pairs[4] == ("filter"@, "statuscode:200"@)
            &&& query.from matches Some(v) ==> pairs[from] == ("from"@, v@)
            &&& query.to matches Some(v) ==> pairs[to] == ("to"@, v@)
            &&& query.limit matches Some(n) ==> pairs[limit] == ("limit"@, numbers::decimal(n as nat))
            &&& pairs.len() == limit + if query.limit is Some {
                1int
            } else {
                0int
            }
        }),
{
}

/// A line that is too short says what is missing first.
pub proof fn law_lines_say_what_is_missing(words: Seq<Seq<char>>)
    requires
        forall|i: int|
            0 <= i < words.len() ==> (#[trigger] words[i]).len() > 0 && forall|j: int|
                0 <= j < words[i].len() ==> !text::is_white(#[trigger] words[i][j]),
    ensures
        ({
            let r = record_of_line(text::join(words, " "@));
            &&& words.len() == 0 ==> r == Err::<RecordView, CdxLineError>(
                CdxLineError::MissingTimestamp,
            )
            &&& words.len() == 1 ==> r == Err::<RecordView, CdxLineError>(
                CdxLineError::MissingOriginal,
            )
            &&& words.len() == 2 ==> r == Err::<RecordView, CdxLineError>(
                CdxLineError::MissingMimetype,
            )
            &&& words.len() == 3 ==> r == Err::<RecordView, CdxLineError>(
                CdxLineError::MissingStatusCode,
            )
            &&& words.len() == 4 ==> r == Err::<RecordView, CdxLineError>(
                CdxLineError::MissingDigest,
            )
            &&& words.len() >= 5 && !numbers::is_digit(words[3].last()) ==> r == Err::<
                RecordView,
                CdxLineError,
            >(CdxLineError::InvalidStatusCode)
        }),
{
    text::law_written_words_are_read(words);
    if words.len() >= 5 && !numbers::is_digit(words[3].last()) {
        let w = words[3];
        let d = numbers::unsigned_digits(w);
        if d.len() > 0 {
            assert(d[d.len() - 1] == w.last());
        }
    }
}

/// Each line of an answer is read in turn: a blank one gives no record, any other its own, behind
/// those before it, and the first that cannot be read ends the reading.
pub proof fn law_answers_are_read_line_by_line(lines: Seq<Seq<u8>>, line: Seq<u8>)
    ensures
        records_of_lines(Seq::empty()) == Ok::<Seq<RecordView>, CdxLineError>(Seq::empty()),
        records_of_lines(lines) is Err ==> records_of_lines(lines.push(line)) == records_of_lines(
            lines,
        ),
        records_of_lines(lines) matches Ok(records) ==> {
            let s = text::trim(text::utf8_lossy(line));
            &&& s.len() == 0 ==> records_of_lines(lines.push(line)) == records_of_lines(lines)
            &&& s.len() > 0 ==> match record_of_line(s) {
                Ok(record) => records_of_lines(lines.push(line)) == Ok::<
                    Seq<RecordView>,
                    CdxLineError,
                >(records.push(record)),
                Err(e) => records_of_lines(lines.push(line)) == Err::<
                    Seq<RecordView>,
                    CdxLineError,
                >(e),
            }
        },
{
    assert(lines.push(line).drop_last() == lines);
}

/// A policy with a limit allows as many attempts as it says; one without allows any number.
pub proof fn law_policies_limit_attempts(policy: CdxRetryPolicy, attempt: int)
    ensures
        policy.max_attempts is None ==> policy.allows_retry(attempt),
        policy.max_attempts matches Some(max) ==> (policy.allows_retry(attempt) <==> attempt < max
            - 1),
{
}

/// Of two captures of one URL at one time the first is kept.
pub proof fn law_first_of_equal_captures_is_kept(
    a: RecordView,
    b: RecordView,
    strategy: SnapshotStrategy,
)
    requires
        a.original == b.original,
        a.timestamp == b.timestamp,
    ensures
        absorb_all(seq![a, b], strategy) == seq![a],
{
    order::lemma_text_le_total(a.timestamp, a.timestamp);
    let one = seq![a];
    let none = Seq::<RecordView>::empty();
    assert(seq![a, b].drop_last() == one);
    assert(one.drop_last() == none);
    assert(absorb_all(none, strategy) == none);
    assert(key_position(none, original_key(a.original)) is None);
    assert(absorb_all(one, strategy) == none.push(a));
    assert(none.push(a) == one);
    assert(one.last() == a);
    assert(key_position(one, original_key(b.original)) == Some(0int));
}

} // verus!
